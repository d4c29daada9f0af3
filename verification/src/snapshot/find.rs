//! Finding captures by the state they are of, never by a path.
use vstd::prelude::*;
use vstd::string::StringExecFns;

use crate::requirement::{
    get, instructed, listed, listing, push_steps, state_from, steps_text, Requirement,
    RequirementView, CATALOGUE,
};
use crate::snapshot::index::{arrange, arranged, Placed};
use crate::snapshot::manifest::{Metadata, MetadataView};
use crate::snapshot::version::{
    come_before, is_older, lemma_older, lemma_older_total, numbers, numbers_of,
};
use crate::text::{
    comes_before, debug, debugged, decimal_text, lemma_precedes, lemma_precedes_total, owned,
    precedes, push_decimal, same,
};

verus! {

/// A capture in the store: its directory's name, and what its manifest says.
pub struct Capture {
    pub dir: String,
    pub metadata: Metadata,
}

/// What a [`Capture`] says of itself.
pub struct CaptureView {
    pub dir: Seq<char>,
    pub metadata: MetadataView,
}

impl View for Capture {
    type V = CaptureView;

    open spec fn view(&self) -> CaptureView {
        CaptureView { dir: self.dir@, metadata: self.metadata@ }
    }
}

impl Capture {
    fn goes_in_front(&self, other: &Capture) -> (goes: bool)
        ensures
            goes == goes_before(self@, other@),
    {
        let x = numbers_of(self.metadata.game_version.as_str());
        let y = numbers_of(other.metadata.game_version.as_str());
        proof {
            lemma_older_total(self.metadata.game_version@, other.metadata.game_version@);
        }
        if come_before(&x, &y) {
            true
        } else if come_before(&y, &x) {
            false
        } else {
            comes_before(self.dir.as_str(), other.dir.as_str())
        }
    }
}

pub open spec fn viewed(captures: Seq<Capture>) -> Seq<CaptureView> {
    captures.map_values(|capture: Capture| capture@)
}

/// Whether a capture goes in front of another: that of the older game version
/// does, and of two of one version the one whose directory comes first.
pub open spec fn goes_before(a: CaptureView, b: CaptureView) -> bool {
    let (x, y) = (a.metadata.game_version, b.metadata.game_version);
    is_older(x, y) || (numbers(x) == numbers(y) && precedes(a.dir, b.dir))
}

/// Where a capture goes among others in order: behind the last that does not go
/// behind it.
pub open spec fn slot(captures: Seq<CaptureView>, capture: CaptureView) -> int
    decreases captures.len(),
{
    if captures.len() == 0 {
        0
    } else if !goes_before(capture, captures.last()) {
        captures.len() as int
    } else {
        slot(captures.drop_last(), capture)
    }
}

/// Captures in order, the newest game version last.
pub open spec fn shelved(captures: Seq<CaptureView>) -> Seq<CaptureView>
    decreases captures.len(),
{
    if captures.len() == 0 {
        Seq::empty()
    } else {
        let before = shelved(captures.drop_last());
        before.insert(slot(before, captures.last()), captures.last())
    }
}

/// Captures of which none goes in front of one before it.
pub open spec fn are_in_order(captures: Seq<CaptureView>) -> bool {
    forall|i: int, j: int|
        0 <= i < j < captures.len() ==> !goes_before(#[trigger] captures[j], #[trigger] captures[i])
}

proof fn lemma_slot(captures: Seq<CaptureView>, capture: CaptureView)
    ensures
        0 <= slot(captures, capture) <= captures.len(),
        forall|i: int|
            slot(captures, capture) <= i < captures.len() ==> goes_before(
                capture,
                #[trigger] captures[i],
            ),
        slot(captures, capture) > 0 ==> !goes_before(
            capture,
            captures[slot(captures, capture) - 1],
        ),
    decreases captures.len(),
{
    if captures.len() > 0 && goes_before(capture, captures.last()) {
        let front = captures.drop_last();
        lemma_slot(front, capture);
        assert forall|i: int| slot(captures, capture) <= i < captures.len() implies goes_before(
            capture,
            #[trigger] captures[i],
        ) by {
            if i < front.len() {
                assert(front[i] == captures[i]);
            }
        }
    }
}

/// What goes in front of one capture goes in front of every one that does not go
/// in front of that; and no two go in front of each other.
proof fn lemma_goes_before(a: CaptureView, b: CaptureView, c: CaptureView)
    ensures
        goes_before(a, b) && !goes_before(c, b) ==> goes_before(a, c),
        !(goes_before(a, b) && goes_before(b, a)),
{
    let (x, y, z) = (a.metadata.game_version, b.metadata.game_version, c.metadata.game_version);
    lemma_older_total(x, y);
    lemma_older_total(y, z);
    lemma_older_total(x, z);
    lemma_precedes_total(a.dir, b.dir);
    lemma_precedes_total(b.dir, c.dir);
    if is_older(x, y) && is_older(y, z) {
        lemma_older(x, y, z);
    }
    if precedes(a.dir, b.dir) && precedes(b.dir, c.dir) {
        lemma_precedes(a.dir, b.dir, c.dir);
    }
}

/// On a shelf the captures are in order, so the newest game version is last.
pub proof fn a_shelf_is_in_order(captures: Seq<CaptureView>)
    ensures
        are_in_order(shelved(captures)),
        shelved(captures).to_multiset() == captures.to_multiset(),
    decreases captures.len(),
{
    broadcast use vstd::seq_lib::group_to_multiset_ensures;

    if captures.len() > 0 {
        let front = captures.drop_last();
        let new = captures.last();
        a_shelf_is_in_order(front);
        let before = shelved(front);
        let at = slot(before, new);
        lemma_slot(before, new);
        let after = shelved(captures);
        assert forall|i: int, j: int| 0 <= i < j < after.len() implies !goes_before(
            #[trigger] after[j],
            #[trigger] after[i],
        ) by {
            if i == at {
                assert(after[j] == before[j - 1]);
                lemma_goes_before(new, before[j - 1], new);
            } else if j == at {
                let last = before[at - 1];
                if i < at - 1 {
                    assert(!goes_before(last, before[i]));
                    lemma_goes_before(new, before[i], last);
                }
            } else {
                let k = if i < at {
                    i
                } else {
                    i - 1
                };
                let l = if j < at {
                    j
                } else {
                    j - 1
                };
                assert(!goes_before(before[l], before[k]));
            }
        }
        assert(captures =~= front.push(new));
    } else {
        assert(shelved(captures) =~= captures);
    }
}

/// One step of a recording: its position, and which capture it is.
#[derive(Clone, Copy, PartialEq, Eq, Structural, Debug)]
pub struct Moment {
    pub index: u32,
    pub capture: usize,
}

impl Placed for Moment {
    open spec fn place(self) -> u64 {
        self.index as u64
    }

    fn address(&self) -> (address: u64) {
        self.index as u64
    }
}

/// Whether a capture is of a state.
pub open spec fn is_of(capture: CaptureView, id: Seq<char>) -> bool {
    capture.metadata.satisfies.contains(id)
}

/// Which of the first `n` captures are of a state, in order.
pub open spec fn found(captures: Seq<CaptureView>, id: Seq<char>, n: int) -> Seq<usize>
    decreases n,
{
    if n <= 0 {
        Seq::empty()
    } else if is_of(captures[n - 1], id) {
        found(captures, id, n - 1).push((n - 1) as usize)
    } else {
        found(captures, id, n - 1)
    }
}

/// The recording that a capture is a step of.
pub open spec fn recording(capture: CaptureView) -> Option<Seq<char>> {
    if capture.metadata.step is Some {
        capture.metadata.scenario
    } else {
        None
    }
}

/// The recordings that the first `n` of `which` are steps of, each once, in the
/// order in which they first occur.
pub open spec fn recordings(captures: Seq<CaptureView>, which: Seq<usize>, n: int) -> Seq<Seq<char>>
    decreases n,
{
    if n <= 0 {
        Seq::empty()
    } else {
        let before = recordings(captures, which, n - 1);
        match recording(captures[which[n - 1] as int]) {
            Some(name) => if before.contains(name) {
                before
            } else {
                before.push(name)
            },
            None => before,
        }
    }
}

/// The steps of one recording among the first `n` of `which`, as they come.
pub open spec fn moments(
    captures: Seq<CaptureView>,
    which: Seq<usize>,
    name: Seq<char>,
    n: int,
) -> Seq<Moment>
    decreases n,
{
    if n <= 0 {
        Seq::empty()
    } else {
        let before = moments(captures, which, name, n - 1);
        let capture = captures[which[n - 1] as int];
        if recording(capture) == Some(name) {
            before.push(Moment { index: (capture.metadata.step->0).0, capture: which[n - 1] })
        } else {
            before
        }
    }
}

/// The steps of one recording, by their positions.
pub open spec fn run_of(captures: Seq<CaptureView>, id: Seq<char>, name: Seq<char>) -> Seq<Moment> {
    let which = found(captures, id, captures.len() as int);
    arranged(moments(captures, which, name, which.len() as int))
}

/// Whether the steps before `n` run 0, 1, 2...
pub open spec fn runs_on(run: Seq<Moment>, n: int) -> bool {
    forall|i: int| 0 <= i < n ==> (#[trigger] run[i]).index == i
}

/// Which captures a run is made of.
pub open spec fn captures_of(run: Seq<Moment>) -> Seq<usize> {
    run.map_values(|moment: Moment| moment.capture)
}

/// Which of the first `n` of `which` is the one to take of a game version: the
/// first that was frozen, which is the better evidence, or else the first.
pub open spec fn best(
    captures: Seq<CaptureView>,
    which: Seq<usize>,
    version: Seq<char>,
    n: int,
) -> Option<usize>
    decreases n,
{
    if n <= 0 {
        None
    } else {
        let before = best(captures, which, version, n - 1);
        let capture = captures[which[n - 1] as int];
        if capture.metadata.game_version != version {
            before
        } else {
            match before {
                None => Some(which[n - 1]),
                Some(chosen) => if capture.metadata.frozen
                    && !captures[chosen as int].metadata.frozen {
                    Some(which[n - 1])
                } else {
                    before
                },
            }
        }
    }
}

/// The game versions of the first `n` of `which`, each once, in the order in
/// which they first occur.
pub open spec fn versions(captures: Seq<CaptureView>, which: Seq<usize>, n: int) -> Seq<Seq<char>>
    decreases n,
{
    if n <= 0 {
        Seq::empty()
    } else {
        let before = versions(captures, which, n - 1);
        let version = captures[which[n - 1] as int].metadata.game_version;
        if before.contains(version) {
            before
        } else {
            before.push(version)
        }
    }
}

/// Why nothing could be handed out.
pub enum Lack {
    /// There is no such state in the catalogue.
    Unknown(String),
    /// No capture is of the state.
    Uncaptured(Requirement),
    /// There are captures of the state, but none is a step of a recording.
    Unrecorded(Requirement),
    /// The steps of a recording are there but do not run 0, 1, 2...: a step was
    /// deleted or a recording was interrupted, and replaying across the hole
    /// would show the splitter a jump that never happened.
    Gap { name: String, position: usize, moment: Moment },
}

/// What a [`Lack`] says.
pub enum LackView {
    Unknown(Seq<char>),
    Uncaptured(RequirementView),
    Unrecorded(RequirementView),
    Gap(Seq<char>, int, Moment),
}

impl View for Lack {
    type V = LackView;

    open spec fn view(&self) -> LackView {
        match *self {
            Lack::Unknown(id) => LackView::Unknown(id@),
            Lack::Uncaptured(requirement) => LackView::Uncaptured(requirement@),
            Lack::Unrecorded(requirement) => LackView::Unrecorded(requirement@),
            Lack::Gap { name, position, moment } => LackView::Gap(name@, position as int, moment),
        }
    }
}

/// What is found of a state, or why nothing is.
pub open spec fn found_or(captures: Seq<CaptureView>, id: Seq<char>) -> Result<
    Seq<usize>,
    LackView,
> {
    let all = found(captures, id, captures.len() as int);
    match state_from(id, 0) {
        None => Err(LackView::Unknown(id)),
        Some(state) => if all.len() == 0 {
            Err(LackView::Uncaptured(state))
        } else {
            Ok(all)
        },
    }
}

/// The captures there are.
pub struct Shelf {
    /// Where they were looked for.
    store: String,
    captures: Vec<Capture>,
    /// How many directories the store holds, captures or not.
    directories: usize,
}

impl View for Shelf {
    type V = Seq<CaptureView>;

    closed spec fn view(&self) -> Seq<CaptureView> {
        viewed(self.captures@)
    }
}

impl Shelf {
    /// Where the captures were looked for.
    pub closed spec fn store(self) -> Seq<char> {
        self.store@
    }

    /// How many directories there are.
    pub closed spec fn directories(self) -> usize {
        self.directories
    }

    /// Puts the captures of a store in order, the newest game version last. A
    /// store that does not exist yet is just a store with nothing in it.
    pub fn new(store: &str, captures: Vec<Capture>, directories: usize) -> (shelf: Self)
        ensures
            shelf@ == shelved(viewed(captures@)),
            shelf.store() == store@,
            shelf.directories() == directories,
    {
        let ghost given = viewed(captures@);
        let mut rest = captures;
        let mut sorted: Vec<Capture> = Vec::new();
        assert(viewed(sorted@) =~= shelved(given.take(0)));
        let ghost mut n: int = 0;
        assert(given.skip(0) =~= given);
        while rest.len() > 0
            invariant
                0 <= n <= given.len(),
                viewed(rest@) == given.skip(n),
                viewed(sorted@) == shelved(given.take(n)),
            decreases rest@.len(),
        {
            let ghost had = viewed(rest@);
            let ghost before = viewed(sorted@);
            proof {
                assert(had.len() == given.len() - n);
                assert(n < given.len());
                assert(had[0] == given[n]);
            }
            let capture = rest.remove(0);
            assert(capture@ == had[0]);
            assert(viewed(rest@) =~= had.drop_first());
            assert(had.drop_first() =~= given.skip(n + 1));
            let mut at: usize = sorted.len();
            assert(before.take(at as int) =~= before);
            while at > 0 && capture.goes_in_front(&sorted[at - 1])
                invariant
                    at <= sorted@.len(),
                    before == viewed(sorted@),
                    slot(before, capture@) == slot(before.take(at as int), capture@),
                decreases at,
            {
                assert(before.take(at as int).drop_last() =~= before.take(at - 1));
                assert(before[at - 1] == sorted@[at - 1]@);
                at = at - 1;
            }
            proof {
                if at > 0 {
                    assert(before[at - 1] == sorted@[at - 1]@);
                    assert(before.take(at as int).last() == before[at - 1]);
                }
                assert(slot(before, capture@) == at);
            }
            let ghost new = capture@;
            sorted.insert(at, capture);
            proof {
                assert(viewed(sorted@) =~= before.insert(at as int, new));
                assert(given.take(n + 1).drop_last() =~= given.take(n));
                assert(given.take(n + 1).last() == new);
                n = n + 1;
            }
        }
        proof {
            assert(viewed(rest@).len() == 0);
            assert(given.skip(n).len() == 0);
            assert(given.take(n) =~= given);
        }
        Shelf { store: owned(store), captures: sorted, directories }
    }

    /// How many captures there are.
    pub fn len(&self) -> (n: usize)
        ensures
            n == self@.len(),
    {
        self.captures.len()
    }

    /// The capture at `index`.
    pub fn capture(&self, index: usize) -> (capture: &Capture)
        requires
            index < self@.len(),
        ensures
            capture@ == self@[index as int],
    {
        &self.captures[index]
    }

    /// Every capture of the state, newest game version last.
    ///
    /// Running a test against all of them is what makes two captured builds
    /// worth having: the same assertions across versions is a cross-version
    /// regression check.
    pub fn find_all(&self, requirement_id: &str) -> (result: Result<Vec<usize>, Lack>)
        ensures
            match result {
                Ok(all) => found_or(self@, requirement_id@) == Ok::<Seq<usize>, LackView>(all@),
                Err(lack) => found_or(self@, requirement_id@) == Err::<Seq<usize>, LackView>(lack@),
            },
    {
        let requirement = match get(requirement_id) {
            Some(requirement) => requirement,
            None => {
                return Err(Lack::Unknown(owned(requirement_id)));
            },
        };
        let mut all: Vec<usize> = Vec::new();
        let mut i: usize = 0;
        while i < self.captures.len()
            invariant
                i <= self.captures@.len(),
                all@ == found(self@, requirement_id@, i as int),
            decreases self.captures@.len() - i,
        {
            assert(self@[i as int] == self.captures@[i as int]@);
            if self.captures[i].is(requirement_id) {
                all.push(i);
            }
            i = i + 1;
        }
        if all.len() == 0 {
            Err(Lack::Uncaptured(requirement))
        } else {
            Ok(all)
        }
    }

    /// One capture of the state per distinct game version, preferring a frozen
    /// one.
    ///
    /// What a cross-version test wants: the same assertions against every build
    /// that has been captured, without paying twice for two captures of the
    /// same build.
    pub fn find_per_version(&self, requirement_id: &str) -> (result: Result<Vec<usize>, Lack>)
        ensures
            match (result, found_or(self@, requirement_id@)) {
                (Ok(chosen), Ok(all)) => {
                    let names = versions(self@, all, all.len() as int);
                    &&& chosen@.len() == names.len()
                    &&& forall|k: int|
                        0 <= k < names.len() ==> best(self@, all, #[trigger] names[k], all.len() as int)
                            == Some(chosen@[k])
                },
                (Err(lack), Err(why)) => lack@ == why,
                _ => false,
            },
    {
        let all = self.find_all(requirement_id)?;
        let count: usize = self.captures.len();
        proof {
            lemma_found(self@, requirement_id@, self@.len() as int);
        }
        let mut chosen: Vec<usize> = Vec::new();
        let mut i: usize = 0;
        while i < all.len()
            invariant
                i <= all@.len(),
                forall|k: int| 0 <= k < all@.len() ==> (#[trigger] all@[k]) < self@.len(),
                chosen@.len() == versions(self@, all@, i as int).len(),
                forall|k: int|
                    0 <= k < chosen@.len() ==> (#[trigger] chosen@[k]) < self@.len()
                        && self@[chosen@[k] as int].metadata.game_version == versions(
                        self@,
                        all@,
                        i as int,
                    )[k] && best(self@, all@, versions(self@, all@, i as int)[k], i as int) == Some(
                        chosen@[k],
                    ),
            decreases all@.len() - i,
        {
            let ghost before = versions(self@, all@, i as int);
            let ghost after = versions(self@, all@, i + 1);
            let ghost had = chosen@;
            let at: usize = all[i];
            let version: &str = self.captures[at].metadata.game_version.as_str();
            assert(self@[at as int] == self.captures@[at as int]@);
            let mut k: usize = 0;
            while k < chosen.len() && !same(
                self.captures[chosen[k]].metadata.game_version.as_str(),
                version,
            )
                invariant
                    k <= chosen@.len(),
                    chosen@ == had,
                    before.len() == had.len(),
                    forall|k: int|
                        0 <= k < chosen@.len() ==> (#[trigger] chosen@[k]) < self@.len()
                            && self@[chosen@[k] as int].metadata.game_version == before[k],
                    forall|j: int| 0 <= j < k ==> #[trigger] before[j] != version@,
                decreases chosen@.len() - k,
            {
                assert(self@[chosen@[k as int] as int] == self.captures@[chosen@[k as int] as int]@);
                k = k + 1;
            }
            if k < chosen.len() {
                let held: usize = chosen[k];
                proof {
                    assert(self@[held as int] == self.captures@[held as int]@);
                    assert(before[k as int] == version@);
                    assert(before.contains(version@));
                    lemma_versions_distinct(self@, all@, i as int);
                }
                if self.captures[at].metadata.frozen && !self.captures[held].metadata.frozen {
                    chosen[k] = at;
                }
                assert(after == before);
                assert forall|j: int| 0 <= j < chosen@.len() implies (#[trigger] chosen@[j])
                    < self@.len() && self@[chosen@[j] as int].metadata.game_version == after[j]
                    && best(self@, all@, after[j], i + 1) == Some(chosen@[j]) by {
                    assert(had[j] < self@.len());
                    if j != k {
                        assert(before[j] != before[k as int]);
                    }
                }
            } else {
                assert(!before.contains(version@));
                chosen.push(at);
                proof {
                    lemma_best_none(self@, all@, version@, i as int);
                    assert(after == before.push(version@));
                    assert forall|j: int| 0 <= j < chosen@.len() implies (#[trigger] chosen@[j])
                        < self@.len() && self@[chosen@[j] as int].metadata.game_version == after[j]
                        && best(self@, all@, after[j], i + 1) == Some(chosen@[j]) by {
                        if j < had.len() {
                            assert(had[j] < self@.len());
                            assert(before[j] != version@);
                        }
                    }
                }
            }
            i = i + 1;
        }
        Ok(chosen)
    }

    /// Every recorded scenario satisfying the requirement, named, each in order
    /// and in the order of their names.
    ///
    /// More than one is the useful case rather than an awkward one: a run as
    /// Folktails and a run as Iron Teeth are the same category down different
    /// code, and the same assertions should hold for both. Grouped by the
    /// scenario name its steps share, so two recordings cannot be spliced into
    /// one nonsense run.
    pub fn find_scenarios(&self, requirement_id: &str) -> (result: Result<
        Vec<(String, Vec<usize>)>,
        Lack,
    >)
        ensures
            match found_or(self@, requirement_id@) {
                Err(why) => result is Err && result->Err_0@ == why,
                Ok(all) => {
                    let names = recordings(self@, all, all.len() as int);
                    match result {
                        Ok(scenarios) => {
                            &&& names.len() > 0
                            &&& are_scenarios(self@, requirement_id@, names, scenarios@)
                        },
                        Err(lack) => is_lacking(self@, requirement_id@, names, lack@),
                    }
                },
            },
    {
        let all = self.find_all(requirement_id)?;
        let groups = self.grouped(&all, Ghost(requirement_id@));
        let ghost names = recordings(self@, all@, all@.len() as int);
        if groups.len() == 0 {
            return Err(
                match get(requirement_id) {
                    Some(requirement) => Lack::Unrecorded(requirement),
                    None => Lack::Unknown(owned(requirement_id)),
                },
            );
        }
        let mut scenarios: Vec<(String, Vec<usize>)> = Vec::new();
        let mut i: usize = 0;
        while i < groups.len()
            invariant
                i <= groups@.len(),
                found_or(self@, requirement_id@) == Ok::<Seq<usize>, LackView>(all@),
                names == recordings(self@, all@, all@.len() as int),
                groups@.len() == names.len(),
                forall|k: int|
                    0 <= k < names.len() ==> (#[trigger] groups@[k]).0@ == names[k]
                        && groups@[k].1@ == moments(self@, all@, names[k], all@.len() as int),
                are_scenarios(self@, requirement_id@, names.take(i as int), scenarios@),
                forall|k: int|
                    0 <= k < i ==> {
                        let run = run_of(self@, requirement_id@, #[trigger] names[k]);
                        runs_on(run, run.len() as int)
                    },
            decreases groups@.len() - i,
        {
            let name: &String = &groups[i].0;
            let run = arrange(&groups[i].1);
            assert(run@ == run_of(self@, requirement_id@, names[i as int]));
            let mut dirs: Vec<usize> = Vec::new();
            let mut position: usize = 0;
            while position < run.len()
                invariant
                    position <= run@.len(),
                    runs_on(run@, position as int),
                    dirs@ == captures_of(run@).take(position as int),
                    i < names.len(),
                    name@ == names[i as int],
                    run@ == run_of(self@, requirement_id@, names[i as int]),
                    found_or(self@, requirement_id@) == Ok::<Seq<usize>, LackView>(all@),
                    names == recordings(self@, all@, all@.len() as int),
                    forall|k: int|
                        0 <= k < i ==> {
                            let run = run_of(self@, requirement_id@, #[trigger] names[k]);
                            runs_on(run, run.len() as int)
                        },
                decreases run@.len() - position,
            {
                let moment: Moment = run[position];
                if moment.index as u64 != position as u64 {
                    proof {
                        let earlier = names.take(i as int);
                        assert forall|k: int| 0 <= k < earlier.len() implies {
                            let run = run_of(self@, requirement_id@, #[trigger] earlier[k]);
                            runs_on(run, run.len() as int)
                        } by {
                            assert(earlier[k] == names[k]);
                        }
                        lemma_gap(
                            self@,
                            requirement_id@,
                            names,
                            i as int,
                            name@,
                            position as int,
                            moment,
                        );
                    }
                    let lack = Lack::Gap { name: owned(name.as_str()), position, moment };
                    assert(lack@ == LackView::Gap(name@, position as int, moment));
                    return Err(lack);
                }
                dirs.push(moment.capture);
                position = position + 1;
                assert(dirs@ =~= captures_of(run@).take(position as int));
            }
            assert(dirs@ =~= captures_of(run@));
            let ghost before = scenarios@;
            insert_scenario(&mut scenarios, owned(name.as_str()), dirs);
            proof {
                lemma_recordings_distinct(self@, all@, all@.len() as int);
                assert(names.take(i + 1) =~= names.take(i as int).push(names[i as int]));
                lemma_one_more(
                    self@,
                    requirement_id@,
                    names.take(i as int),
                    before,
                    names[i as int],
                    scenarios@,
                );
            }
            i = i + 1;
        }
        assert(names.take(i as int) =~= names);
        Ok(scenarios)
    }

    /// Every step of a recorded scenario, in order: the first by name.
    pub fn find_scenario(&self, requirement_id: &str) -> (result: Result<Vec<usize>, Lack>)
        ensures
            match found_or(self@, requirement_id@) {
                Err(why) => result is Err && result->Err_0@ == why,
                Ok(all) => {
                    let names = recordings(self@, all, all.len() as int);
                    match result {
                        Ok(dirs) => exists|k: int|
                            0 <= k < names.len() && is_first(names, k) && dirs@ == captures_of(
                                run_of(self@, requirement_id@, #[trigger] names[k]),
                            ) && all_run_on(self@, requirement_id@, names),
                        Err(lack) => is_lacking(self@, requirement_id@, names, lack@),
                    }
                },
            },
    {
        let mut scenarios = self.find_scenarios(requirement_id)?;
        proof {
            let all = found_or(self@, requirement_id@)->Ok_0;
            let names = recordings(self@, all, all.len() as int);
            assert(names.contains(names[0]));
            let w = choose|w: int| 0 <= w < scenarios@.len() && (#[trigger] scenarios@[w]).0@ == names[0];
            assert(scenarios@.len() > 0);
            let first = scenarios@[0].0@;
            assert(names.contains(first));
            let k = names.index_of(first);
            assert forall|j: int| 0 <= j < names.len() && j != k implies precedes(
                names[k],
                #[trigger] names[j],
            ) by {
                assert(names.contains(names[j]));
                let v = choose|v: int|
                    0 <= v < scenarios@.len() && (#[trigger] scenarios@[v]).0@ == names[j];
                lemma_recordings_distinct(self@, all, all.len() as int);
                assert(names[j] != names[k]);
                assert(v != 0);
                assert(precedes(scenarios@[0].0@, scenarios@[v].0@));
            }
            assert(is_first(names, k));
            assert(scenarios@[0].1@ == captures_of(run_of(self@, requirement_id@, names[k])));
            assert(all_run_on(self@, requirement_id@, names));
        }
        let (_, dirs) = scenarios.swap_remove(0);
        Ok(dirs)
    }

    /// The captures in `all` that are steps of recordings, by recording.
    fn grouped(&self, all: &Vec<usize>, Ghost(id): Ghost<Seq<char>>) -> (groups: Vec<
        (String, Vec<Moment>),
    >)
        requires
            found_or(self@, id) == Ok::<Seq<usize>, LackView>(all@),
        ensures
            ({
                let names = recordings(self@, all@, all@.len() as int);
                &&& groups@.len() == names.len()
                &&& forall|k: int|
                    0 <= k < names.len() ==> (#[trigger] groups@[k]).0@ == names[k]
                        && groups@[k].1@ == moments(self@, all@, names[k], all@.len() as int)
            }),
    {
        let count: usize = self.captures.len();
        proof {
            lemma_found(self@, id, self@.len() as int);
        }
        let mut groups: Vec<(String, Vec<Moment>)> = Vec::new();
        let mut i: usize = 0;
        while i < all.len()
            invariant
                i <= all@.len(),
                forall|k: int| 0 <= k < all@.len() ==> (#[trigger] all@[k]) < self@.len(),
                groups@.len() == recordings(self@, all@, i as int).len(),
                forall|k: int|
                    0 <= k < groups@.len() ==> (#[trigger] groups@[k]).0@ == recordings(
                        self@,
                        all@,
                        i as int,
                    )[k] && groups@[k].1@ == moments(
                        self@,
                        all@,
                        recordings(self@, all@, i as int)[k],
                        i as int,
                    ),
            decreases all@.len() - i,
        {
            let ghost before = recordings(self@, all@, i as int);
            let ghost after = recordings(self@, all@, i + 1);
            let ghost had = groups@;
            let at: usize = all[i];
            let metadata: &Metadata = &self.captures[at].metadata;
            assert(self@[at as int] == self.captures@[at as int]@);
            match (&metadata.scenario, &metadata.step) {
                (Some(name), Some(step)) => {
                    let moment = Moment { index: step.index, capture: at };
                    let mut k: usize = 0;
                    while k < groups.len() && !same(groups[k].0.as_str(), name.as_str())
                        invariant
                            k <= groups@.len(),
                            groups@ == had,
                            before.len() == had.len(),
                            forall|k: int|
                                0 <= k < groups@.len() ==> (#[trigger] groups@[k]).0@ == before[k],
                            forall|j: int| 0 <= j < k ==> #[trigger] before[j] != name@,
                        decreases groups@.len() - k,
                    {
                        k = k + 1;
                    }
                    if k < groups.len() {
                        proof {
                            assert(before[k as int] == name@);
                            assert(before.contains(name@));
                            lemma_recordings_distinct(self@, all@, i as int);
                        }
                        groups[k].1.push(moment);
                        assert(after == before);
                        assert forall|j: int| 0 <= j < groups@.len() implies (
                        #[trigger] groups@[j]).0@ == after[j] && groups@[j].1@ == moments(
                            self@,
                            all@,
                            after[j],
                            i + 1,
                        ) by {
                            assert(had[j].0@ == before[j]);
                            if j != k {
                                assert(before[j] != before[k as int]);
                            }
                        }
                    } else {
                        assert(!before.contains(name@));
                        let mut first: Vec<Moment> = Vec::new();
                        first.push(moment);
                        groups.push((owned(name.as_str()), first));
                        proof {
                            lemma_moments_none(self@, all@, name@, i as int);
                            assert(after == before.push(name@));
                            assert(moments(self@, all@, name@, i + 1) =~= seq![moment]);
                            assert forall|j: int| 0 <= j < groups@.len() implies (
                            #[trigger] groups@[j]).0@ == after[j] && groups@[j].1@ == moments(
                                self@,
                                all@,
                                after[j],
                                i + 1,
                            ) by {
                                if j < had.len() {
                                    assert(groups@[j] == had[j]);
                                    assert(had[j].0@ == before[j]);
                                    assert(before[j] != name@);
                                }
                            }
                        }
                    }
                },
                _ => {
                    assert(after == before);
                    assert forall|j: int| 0 <= j < groups@.len() implies (#[trigger] groups@[j]).0@
                        == after[j] && groups@[j].1@ == moments(self@, all@, after[j], i + 1) by {
                        assert(had[j].0@ == before[j]);
                    }
                },
            }
            i = i + 1;
        }
        groups
    }
}

/// Whether the name at `k` comes before every other.
pub open spec fn is_first(names: Seq<Seq<char>>, k: int) -> bool {
    forall|j: int| 0 <= j < names.len() && j != k ==> precedes(names[k], #[trigger] names[j])
}

/// Whether the steps of every recording run 0, 1, 2...
pub open spec fn all_run_on(
    captures: Seq<CaptureView>,
    id: Seq<char>,
    names: Seq<Seq<char>>,
) -> bool {
    forall|k: int|
        0 <= k < names.len() ==> {
            let run = run_of(captures, id, #[trigger] names[k]);
            runs_on(run, run.len() as int)
        }
}

/// The recordings of `names`, in the order of their names, each with its steps
/// in order and none missing.
pub open spec fn are_scenarios(
    captures: Seq<CaptureView>,
    id: Seq<char>,
    names: Seq<Seq<char>>,
    scenarios: Seq<(String, Vec<usize>)>,
) -> bool {
    &&& scenarios.len() == names.len()
    &&& all_run_on(captures, id, names)
    &&& forall|k: int|
        0 <= k < scenarios.len() ==> names.contains((#[trigger] scenarios[k]).0@)
            && scenarios[k].1@ == captures_of(run_of(captures, id, scenarios[k].0@))
    &&& forall|name: Seq<char>|
        #[trigger] names.contains(name) ==> exists|k: int|
            0 <= k < scenarios.len() && (#[trigger] scenarios[k]).0@ == name
    &&& forall|i: int, j: int|
        0 <= i < j < scenarios.len() ==> precedes(
            (#[trigger] scenarios[i]).0@,
            (#[trigger] scenarios[j]).0@,
        )
}

/// The first place at which the steps of a recording do not run on, all
/// recordings that came up before it being whole.
pub open spec fn is_gap(
    captures: Seq<CaptureView>,
    id: Seq<char>,
    names: Seq<Seq<char>>,
    i: int,
    name: Seq<char>,
    position: int,
    moment: Moment,
) -> bool {
    let run = run_of(captures, id, name);
    &&& 0 <= i < names.len()
    &&& name == names[i]
    &&& all_run_on(captures, id, names.take(i))
    &&& 0 <= position < run.len()
    &&& runs_on(run, position)
    &&& run[position] == moment
    &&& moment.index != position
}

/// Whether a recording has its first gap there.
pub open spec fn some_gap(
    captures: Seq<CaptureView>,
    id: Seq<char>,
    names: Seq<Seq<char>>,
    name: Seq<char>,
    position: int,
    moment: Moment,
) -> bool {
    exists|i: int| #[trigger] is_gap(captures, id, names, i, name, position, moment)
}

/// Why no scenario is handed out although there are captures of the state.
pub open spec fn is_lacking(
    captures: Seq<CaptureView>,
    id: Seq<char>,
    names: Seq<Seq<char>>,
    lack: LackView,
) -> bool {
    match lack {
        LackView::Unrecorded(state) => names.len() == 0 && state_from(id, 0) == Some(state),
        LackView::Gap(name, position, moment) => some_gap(
            captures,
            id,
            names,
            name,
            position,
            moment,
        ),
        _ => false,
    }
}

proof fn lemma_gap(
    captures: Seq<CaptureView>,
    id: Seq<char>,
    names: Seq<Seq<char>>,
    i: int,
    name: Seq<char>,
    position: int,
    moment: Moment,
)
    requires
        is_gap(captures, id, names, i, name, position, moment),
    ensures
        is_lacking(captures, id, names, LackView::Gap(name, position, moment)),
{
    assert(some_gap(captures, id, names, name, position, moment));
}

impl Capture {
    /// Whether the capture is of the state.
    pub fn is(&self, requirement_id: &str) -> (is: bool)
        ensures
            is == is_of(self@, requirement_id@),
    {
        let ids: &Vec<String> = &self.metadata.satisfies;
        let mut i: usize = 0;
        while i < ids.len()
            invariant
                i <= ids@.len(),
                ids@ == self.metadata.satisfies@,
                forall|j: int| 0 <= j < i ==> (#[trigger] ids@[j])@ != requirement_id@,
            decreases ids@.len() - i,
        {
            if same(ids[i].as_str(), requirement_id) {
                assert(self@.metadata.satisfies[i as int] == requirement_id@);
                return true;
            }
            i = i + 1;
        }
        assert(!is_of(self@, requirement_id@)) by {
            if is_of(self@, requirement_id@) {
                let k = self@.metadata.satisfies.index_of(requirement_id@);
                assert(ids@[k]@ == requirement_id@);
            }
        }
        false
    }
}

/// Puts a scenario where its name belongs.
fn insert_scenario(scenarios: &mut Vec<(String, Vec<usize>)>, name: String, dirs: Vec<usize>)
    requires
        forall|i: int, j: int|
            0 <= i < j < old(scenarios)@.len() ==> precedes(
                (#[trigger] old(scenarios)@[i]).0@,
                (#[trigger] old(scenarios)@[j]).0@,
            ),
    ensures
        exists|at: int|
            0 <= at <= old(scenarios)@.len() && final(scenarios)@ == old(scenarios)@.insert(
                at,
                (name, dirs),
            ) && #[trigger] belongs(old(scenarios)@, name@, at),
{
    let ghost before = scenarios@;
    let mut at: usize = scenarios.len();
    while at > 0 && comes_before(name.as_str(), scenarios[at - 1].0.as_str())
        invariant
            at <= scenarios@.len(),
            scenarios@ == before,
            forall|j: int|
                at <= j < scenarios@.len() ==> precedes(name@, (#[trigger] scenarios@[j]).0@),
        decreases at,
    {
        at = at - 1;
    }
    proof {
        assert forall|j: int| 0 <= j < at implies !precedes(name@, (#[trigger] before[j]).0@) by {
            let last = before[at - 1].0@;
            if j < at - 1 && precedes(name@, before[j].0@) {
                assert(precedes(before[j].0@, before[at - 1].0@));
                lemma_precedes(name@, before[j].0@, last);
            }
        }
        assert(belongs(before, name@, at as int));
    }
    scenarios.insert(at, (name, dirs));
}

/// Whether a name belongs at `at`: before it nothing comes later, behind it
/// everything does.
spec fn belongs(scenarios: Seq<(String, Vec<usize>)>, name: Seq<char>, at: int) -> bool {
    &&& forall|j: int| 0 <= j < at ==> !precedes(name, (#[trigger] scenarios[j]).0@)
    &&& forall|j: int| at <= j < scenarios.len() ==> precedes(name, (#[trigger] scenarios[j]).0@)
}

/// One more recording, put where its name belongs.
proof fn lemma_one_more(
    captures: Seq<CaptureView>,
    id: Seq<char>,
    names: Seq<Seq<char>>,
    before: Seq<(String, Vec<usize>)>,
    name: Seq<char>,
    after: Seq<(String, Vec<usize>)>,
)
    requires
        are_scenarios(captures, id, names, before),
        !names.contains(name),
        runs_on(run_of(captures, id, name), run_of(captures, id, name).len() as int),
        exists|at: int, new: (String, Vec<usize>)|
            0 <= at <= before.len() && new.0@ == name && new.1@ == captures_of(
                run_of(captures, id, name),
            ) && after == #[trigger] before.insert(at, new) && belongs(before, name, at),
    ensures
        are_scenarios(captures, id, names.push(name), after),
{
    let (at, new) = choose|at: int, new: (String, Vec<usize>)|
        0 <= at <= before.len() && new.0@ == name && new.1@ == captures_of(
            run_of(captures, id, name),
        ) && after == #[trigger] before.insert(at, new) && belongs(before, name, at);
    let all = names.push(name);
    assert forall|k: int| 0 <= k < after.len() implies #[trigger] after[k] == if k < at {
        before[k]
    } else if k == at {
        new
    } else {
        before[k - 1]
    } by {}
    assert forall|n: Seq<char>| names.contains(n) implies #[trigger] all.contains(n) by {
        let k = names.index_of(n);
        assert(all[k] == n);
    }
    assert(all[names.len() as int] == name);
    assert forall|k: int| 0 <= k < after.len() implies all.contains((#[trigger] after[k]).0@)
        && after[k].1@ == captures_of(run_of(captures, id, after[k].0@)) by {
        let b = if k < at {
            k
        } else {
            k - 1
        };
        if k != at {
            assert(names.contains(before[b].0@));
        }
    }
    assert forall|n: Seq<char>| #[trigger] all.contains(n) implies exists|k: int|
        0 <= k < after.len() && (#[trigger] after[k]).0@ == n by {
        if n == name {
            assert(after[at].0@ == n);
        } else {
            let m = all.index_of(n);
            assert(names[m] == n);
            assert(names.contains(n));
            let b = choose|k: int| 0 <= k < before.len() && (#[trigger] before[k]).0@ == n;
            assert(after[if b < at {
                b
            } else {
                b + 1
            }].0@ == n);
        }
    }
    assert forall|i: int, j: int| 0 <= i < j < after.len() implies precedes(
        (#[trigger] after[i]).0@,
        (#[trigger] after[j]).0@,
    ) by {
        let bi = if i < at {
            i
        } else {
            i - 1
        };
        let bj = if j < at {
            j
        } else {
            j - 1
        };
        if i != at && j != at {
            assert(precedes(before[bi].0@, before[bj].0@));
        } else if i == at {
            assert(precedes(name, before[bj].0@));
        } else {
            assert(!precedes(name, before[i].0@));
            assert(names.contains(before[i].0@));
            lemma_precedes_total(name, before[i].0@);
        }
    }
    assert forall|k: int| 0 <= k < all.len() implies {
        let run = run_of(captures, id, #[trigger] all[k]);
        runs_on(run, run.len() as int)
    } by {
        if k < names.len() {
            assert(all[k] == names[k]);
        }
    }
}

proof fn lemma_found(captures: Seq<CaptureView>, id: Seq<char>, n: int)
    requires
        n <= captures.len(),
        captures.len() <= usize::MAX,
    ensures
        forall|k: int|
            0 <= k < found(captures, id, n).len() ==> (#[trigger] found(captures, id, n)[k])
                < captures.len(),
    decreases n,
{
    if n > 0 {
        lemma_found(captures, id, n - 1);
        let before = found(captures, id, n - 1);
        let after = found(captures, id, n);
        assert forall|k: int| 0 <= k < after.len() implies (#[trigger] after[k])
            < captures.len() by {
            if k < before.len() {
                assert(after[k] == before[k]);
            }
        }
    }
}

proof fn lemma_recordings_distinct(captures: Seq<CaptureView>, which: Seq<usize>, n: int)
    ensures
        forall|i: int, j: int|
            0 <= i < j < recordings(captures, which, n).len() ==> #[trigger] recordings(
                captures,
                which,
                n,
            )[i] != #[trigger] recordings(captures, which, n)[j],
        forall|i: int|
            0 <= i < recordings(captures, which, n).len() ==> !(#[trigger] recordings(
                captures,
                which,
                n,
            ).take(i)).contains(recordings(captures, which, n)[i]),
    decreases n,
{
    let after = recordings(captures, which, n);
    if n > 0 {
        lemma_recordings_distinct(captures, which, n - 1);
        let before = recordings(captures, which, n - 1);
        if after != before {
            assert forall|i: int, j: int| 0 <= i < j < after.len() implies #[trigger] after[i]
                != #[trigger] after[j] by {
                assert(before[i] == after[i]);
                if j < before.len() {
                    assert(before[j] == after[j]);
                } else {
                    assert(before.contains(before[i]));
                }
            }
        }
    }
    assert forall|i: int| 0 <= i < after.len() implies !(#[trigger] after.take(i)).contains(
        after[i],
    ) by {
        if after.take(i).contains(after[i]) {
            let k = after.take(i).index_of(after[i]);
            assert(after[k] == after[i]);
        }
    }
}

proof fn lemma_moments_none(
    captures: Seq<CaptureView>,
    which: Seq<usize>,
    name: Seq<char>,
    n: int,
)
    requires
        !recordings(captures, which, n).contains(name),
    ensures
        moments(captures, which, name, n).len() == 0,
    decreases n,
{
    if n > 0 {
        let before = recordings(captures, which, n - 1);
        let after = recordings(captures, which, n);
        if before.contains(name) {
            let k = before.index_of(name);
            assert(after[k] == name);
        }
        lemma_moments_none(captures, which, name, n - 1);
        if recording(captures[which[n - 1] as int]) == Some(name) {
            assert(after.last() == name);
        }
    }
}

proof fn lemma_versions_distinct(captures: Seq<CaptureView>, which: Seq<usize>, n: int)
    ensures
        forall|i: int, j: int|
            0 <= i < versions(captures, which, n).len() && 0 <= j < versions(
                captures,
                which,
                n,
            ).len() && i != j ==> #[trigger] versions(captures, which, n)[i] != #[trigger] versions(
                captures,
                which,
                n,
            )[j],
    decreases n,
{
    if n > 0 {
        lemma_versions_distinct(captures, which, n - 1);
        let before = versions(captures, which, n - 1);
        let after = versions(captures, which, n);
        if after != before {
            assert forall|i: int, j: int|
                0 <= i < after.len() && 0 <= j < after.len() && i != j implies #[trigger] after[i]
                != #[trigger] after[j] by {
                if i < before.len() {
                    assert(before[i] == after[i]);
                    assert(before.contains(before[i]));
                }
                if j < before.len() {
                    assert(before[j] == after[j]);
                    assert(before.contains(before[j]));
                }
            }
        }
    }
}

proof fn lemma_best_none(captures: Seq<CaptureView>, which: Seq<usize>, version: Seq<char>, n: int)
    requires
        !versions(captures, which, n).contains(version),
    ensures
        best(captures, which, version, n) is None,
    decreases n,
{
    if n > 0 {
        let before = versions(captures, which, n - 1);
        let after = versions(captures, which, n);
        if before.contains(version) {
            let k = before.index_of(version);
            assert(after[k] == version);
        }
        lemma_best_none(captures, which, version, n - 1);
        if captures[which[n - 1] as int].metadata.game_version == version {
            if before.contains(version) {
            } else {
                assert(after.last() == version);
            }
        }
    }
}

/// What a lack says, of the captures in `store`, where it holds `directories`.
pub open spec fn explained(
    lack: LackView,
    store: Seq<char>,
    directories: int,
    captures: Seq<CaptureView>,
) -> Seq<char> {
    match lack {
        LackView::Unknown(id) => "no such requirement "@ + debugged(id) + ". Known states:\n"@
            + listed(CATALOGUE as int),
        LackView::Uncaptured(state) => instructed(state) + "\n\nLooked in "@ + store
            + ", which holds "@ + decimal_text(directories) + " capture(s)."@,
        LackView::Unrecorded(state) => "No recorded scenario satisfies "@ + debugged(state.id)
            + " ("@ + state.summary + ").\n\nTo record one:\n"@ + steps_text(
            state.reproduce,
            state.reproduce.len() as int,
        ) + "\n  - then, with the game running and the run about to be played:\n      tb-record --state "@
            + state.id + " --notes '<what you did>'\n\nSee snapshots/README.md."@,
        LackView::Gap(name, position, moment) => "the recording "@ + debugged(name)
            + " is missing step "@ + decimal_text(position) + ": it jumps to "@ + decimal_text(
            moment.index as int,
        ) + " at "@ + store + "/"@ + captures[moment.capture as int].dir
            + ". Replaying across the gap would show the splitter a change that never happened, so this is refused rather than patched over."@,
    }
}

impl Lack {
    /// The lack, as a message for a test that could not go on.
    pub fn text(&self, shelf: &Shelf) -> (text: String)
        requires
            self@ matches LackView::Gap(_, _, moment) ==> moment.capture < shelf@.len(),
        ensures
            text@ == explained(self@, shelf.store(), shelf.directories() as int, shelf@),
    {
        let mut text = String::new();
        match self {
            Lack::Unknown(id) => {
                text.append("no such requirement ");
                text.append(debug(id.as_str()).as_str());
                text.append(". Known states:\n");
                text.append(listing().as_str());
            },
            Lack::Uncaptured(requirement) => {
                text.append(requirement.instructions().as_str());
                text.append("\n\nLooked in ");
                text.append(shelf.store.as_str());
                text.append(", which holds ");
                push_decimal(&mut text, shelf.directories as u64);
                text.append(" capture(s).");
            },
            Lack::Unrecorded(requirement) => {
                text.append("No recorded scenario satisfies ");
                text.append(debug(requirement.id).as_str());
                text.append(" (");
                text.append(requirement.summary);
                text.append(").\n\nTo record one:\n");
                push_steps(&mut text, &requirement.reproduce);
                text.append(
                    "\n  - then, with the game running and the run about to be played:\n      tb-record --state ",
                );
                text.append(requirement.id);
                text.append(" --notes '<what you did>'\n\nSee snapshots/README.md.");
            },
            Lack::Gap { name, position, moment } => {
                text.append("the recording ");
                text.append(debug(name.as_str()).as_str());
                text.append(" is missing step ");
                push_decimal(&mut text, *position as u64);
                text.append(": it jumps to ");
                push_decimal(&mut text, moment.index as u64);
                text.append(" at ");
                text.append(shelf.store.as_str());
                text.append("/");
                assert(shelf@[moment.capture as int] == shelf.captures@[moment.capture as int]@);
                text.append(shelf.captures[moment.capture].dir.as_str());
                text.append(
                    ". Replaying across the gap would show the splitter a change that never happened, so this is refused rather than patched over.",
                );
            },
        }
        assert(text@ =~= explained(self@, shelf.store(), shelf.directories() as int, shelf@));
        text
    }
}

} // verus!
