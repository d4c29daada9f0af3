//! Looking for the game among the processes that are running.
//!
//! Attaching to a process and listing them is the host's. What is tried, in
//! what order, which process is taken for the game, and what is said about it,
//! is decided here: [`Attach::advance`] takes the host's reply to the last
//! request and makes the next.
use vstd::prelude::*;

use crate::note::{say, Action, Note};
use crate::text::{contains_text, occurs};

verus! {

/// Ticks per second asked for while a game is attached. Everything
/// timing-critical is calibrated against it: the splits are polled every tick,
/// so this is the resolution of a split.
pub const ATTACHED_TICK_RATE: u32 = 120;

/// Ticks per second asked for while there is no game to watch.
///
/// The search loop does nothing but list processes, and a game appears on a
/// human timescale.
pub const DETACHED_TICKS_PER_SEC: u32 = 1;

/// Seconds converted to ticks at the detached rate, for what is counted by the
/// search loop only.
pub fn detached_ticks(secs: u32) -> (ticks: u32)
    requires
        secs * DETACHED_TICKS_PER_SEC <= u32::MAX,
    ensures
        ticks == secs * DETACHED_TICKS_PER_SEC,
{
    secs * DETACHED_TICKS_PER_SEC
}

/// When to first say we are still looking, in seconds. Silence and failure
/// looked identical before this.
pub const FIRST_SEARCH_NOTICE_SECS: u32 = 15;

/// How often to repeat it, in seconds. Frequent enough to be visible in a log,
/// rare enough not to bury anything during a session with no game open.
pub const REPEAT_SEARCH_NOTICE_SECS: u32 = 300;

/// How long to wait after the game closes before looking again, in seconds. A
/// process on its way out stays attachable for several seconds.
pub const PROCESS_GONE_DELAY_SECS: u32 = 5;

/// How often to forget which candidates were ruled out, in seconds. Pids are
/// reused, and a process rejected once may since have mapped the game.
pub const FORGET_RULED_OUT_SECS: u32 = 10;

/// How often to re-examine ambiguous candidates, in seconds. Checking one means
/// attaching to it, which the runtime logs.
pub const AMBIGUOUS_RETRY_SECS: u32 = 1;

/// How many names identify the game on their own.
pub const EXACT_NAMES: usize = 2;

/// Names that identify the game on their own. Windows reports the executable
/// name, which is what runners will hit.
pub open spec fn exact_name(i: int) -> &'static str {
    if i == 0 {
        "Timberborn.exe"
    } else {
        "Timberborn.x86_64"
    }
}

fn name_at(i: usize) -> (name: &'static str)
    ensures
        name == exact_name(i as int),
{
    if i == 0 {
        "Timberborn.exe"
    } else {
        "Timberborn.x86_64"
    }
}

/// A name that is *not* specific to this game and must be confirmed before use.
///
/// The runtime matches on the name the OS reports, which on Linux is
/// `/proc/<pid>/comm`, capped at 15 characters. Unity 6.5 names its main thread
/// "Unity Main Thread", so a Proton install reports this and never matches the
/// executable name. Any Unity 6.5 game would match, so a candidate is only
/// accepted once we can see Timberborn's own module in it.
pub open spec fn ambiguous_name() -> &'static str {
    "Unity Main Thre"
}

/// Whether a process really is the game, for names that could be any Unity
/// title: the executable is mapped into it, or its path says so.
pub open spec fn confirmed(has_module: bool, path: Option<String>) -> bool {
    has_module || (path matches Some(path) && occurs(path@, "Timberborn"@))
}

/// Confirms a process really is the game. The executable is mapped into the
/// process even under Proton, where the process path itself points at the Wine
/// loader rather than the game.
pub fn is_timberborn(has_module: bool, path: &Option<String>) -> (is: bool)
    ensures
        is == confirmed(has_module, *path),
{
    if has_module {
        return true;
    }
    match path {
        Some(path) => contains_text(path.as_str(), "Timberborn"),
        None => false,
    }
}

/// What the host is to do next.
#[derive(Clone, Copy)]
pub enum Request {
    /// Attach to a process by its name.
    Attach(&'static str),
    /// List the processes of this name.
    List(&'static str),
    /// Attach to this process, and say what it looks like.
    AttachPid(u64),
    /// Wait for the next tick.
    NextTick,
    /// The process that was attached last is the game.
    Run,
}

/// What came of the last request.
pub enum Reply {
    /// A tick begins.
    Tick,
    /// Nothing came of it.
    Refused,
    /// The process is attached.
    Attached,
    /// These are the processes.
    Pids(Vec<u64>),
    /// The process is attached: whether the game's module is mapped in it, and
    /// its path.
    Candidate { has_module: bool, path: Option<String> },
}

/// Where the search is.
pub enum Place {
    /// Between ticks.
    Rest,
    /// This exact name was asked for.
    Name(usize),
    /// The processes of the ambiguous name were asked for.
    List,
    /// This one of those processes was asked for.
    Pid(Vec<u64>, usize),
    /// The game is found.
    Done,
}

/// The search for the game.
pub struct Attach {
    /// Ticks spent looking.
    pub waited: u32,
    pub next_notice: u32,
    /// Candidates already ruled out. A game on its way out lingers for seconds,
    /// and re-checking it means re-attaching to it, which the runtime logs.
    pub ruled_out: Vec<u64>,
    pub place: Place,
}

/// The first of `pids`, from `i` on, that is not ruled out.
pub open spec fn next_candidate(pids: Seq<u64>, ruled_out: Seq<u64>, i: int) -> int
    decreases pids.len() - i,
{
    if i >= pids.len() {
        pids.len() as int
    } else if ruled_out.contains(pids[i]) {
        next_candidate(pids, ruled_out, i + 1)
    } else {
        i
    }
}

/// The next tick count.
pub open spec fn counted(waited: u32) -> u32 {
    if waited == u32::MAX {
        0
    } else {
        (waited + 1) as u32
    }
}

/// Nothing but lines for the log.
pub open spec fn only_logs(actions: Seq<Action>) -> bool {
    forall|i: int| 0 <= i < actions.len() ==> #[trigger] actions[i] is Log
}

impl Attach {
    pub open spec fn wf(self) -> bool {
        match self.place {
            Place::Pid(pids, i) => i < pids@.len(),
            Place::Name(i) => i < EXACT_NAMES,
            _ => true,
        }
    }

    pub fn new() -> (attach: Self)
        ensures
            attach.wf(),
            attach.waited == 0,
            attach.next_notice == FIRST_SEARCH_NOTICE_SECS * DETACHED_TICKS_PER_SEC,
            attach.ruled_out@.len() == 0,
            attach.place is Rest,
    {
        Attach {
            waited: 0,
            next_notice: detached_ticks(FIRST_SEARCH_NOTICE_SECS),
            ruled_out: Vec::new(),
            place: Place::Rest,
        }
    }

    /// How much of a tick's search is still ahead: what is being tried, then how
    /// many candidates are left.
    pub open spec fn ahead(self) -> (int, int) {
        match self.place {
            Place::Rest => (4, 0),
            Place::Name(i) => (3 - i, 0),
            Place::List => (1, 0),
            Place::Pid(pids, i) => (0, pids@.len() - i),
            Place::Done => (0, 0),
        }
    }

    /// Whether `request` is what the search is waiting for an answer to.
    pub open spec fn awaits(self, request: Request) -> bool {
        match self.place {
            Place::Name(i) => request == Request::Attach(exact_name(i as int)),
            Place::List => request == Request::List(ambiguous_name()),
            Place::Pid(pids, i) => request == Request::AttachPid(pids@[i as int]),
            _ => false,
        }
    }

    /// Whether a request ends a tick's search.
    pub open spec fn ends(request: Request) -> bool {
        request is NextTick || request is Run
    }

    /// What the end of a tick's search leads to: the count goes on, what was
    /// ruled out is forgotten now and then, and it is said now and then that the
    /// game is still being looked for.
    pub open spec fn rested(
        self,
        after: Attach,
        request: Request,
        said: Seq<Action>,
    ) -> bool {
        let waited = counted(self.waited);
        let notices = waited >= self.next_notice;
        let again = waited + REPEAT_SEARCH_NOTICE_SECS * DETACHED_TICKS_PER_SEC;
        &&& request is NextTick
        &&& after.place is Rest
        &&& after.waited == waited
        &&& after.ruled_out@ == if waited % (FORGET_RULED_OUT_SECS * DETACHED_TICKS_PER_SEC) as u32
            == 0 {
            Seq::empty()
        } else {
            self.ruled_out@
        }
        &&& after.next_notice == if !notices {
            self.next_notice as int
        } else if again > u32::MAX {
            u32::MAX as int
        } else {
            again
        }
        &&& said == if notices {
            seq![Action::Log(Note::StillLooking)]
        } else {
            Seq::empty()
        }
    }

    /// What going on through the candidates from `i` on leads to.
    pub open spec fn examined(
        self,
        pids: Seq<u64>,
        i: int,
        after: Attach,
        request: Request,
        said: Seq<Action>,
    ) -> bool {
        let next = next_candidate(pids, self.ruled_out@, i);
        if next < pids.len() {
            &&& request == Request::AttachPid(pids[next])
            &&& after.place matches Place::Pid(list, at) && list@ == pids && at == next
            &&& after.waited == self.waited
            &&& after.next_notice == self.next_notice
            &&& after.ruled_out@ == self.ruled_out@
            &&& said == Seq::<Action>::empty()
        } else {
            self.rested(after, request, said)
        }
    }

    /// The search has come somewhere else, with nothing said.
    pub open spec fn moved(self, after: Attach, place: Place) -> bool {
        after == (Attach { place, ..self })
    }

    /// What a reply leads to: the search, the next request, and what is said.
    pub open spec fn advanced(
        self,
        reply: Reply,
        after: Attach,
        request: Request,
        said: Seq<Action>,
    ) -> bool {
        match self.place {
            Place::Rest => {
                &&& self.moved(after, Place::Name(0))
                &&& request == Request::Attach(exact_name(0))
                &&& said == Seq::<Action>::empty()
            },
            Place::Name(i) => if reply is Attached {
                &&& self.moved(after, Place::Done)
                &&& request is Run
                &&& said == seq![Action::Log(Note::AttachedTo { name: exact_name(i as int) })]
            } else if i + 1 < EXACT_NAMES {
                &&& self.moved(after, Place::Name((i + 1) as usize))
                &&& request == Request::Attach(exact_name(i + 1))
                &&& said == Seq::<Action>::empty()
            } else if self.waited % (AMBIGUOUS_RETRY_SECS * DETACHED_TICKS_PER_SEC) as u32 == 0 {
                &&& self.moved(after, Place::List)
                &&& request == Request::List(ambiguous_name())
                &&& said == Seq::<Action>::empty()
            } else {
                self.rested(after, request, said)
            },
            Place::List => match reply {
                Reply::Pids(pids) => self.examined(pids@, 0, after, request, said),
                _ => self.rested(after, request, said),
            },
            Place::Pid(pids, i) => match reply {
                Reply::Candidate { has_module, path } => if confirmed(has_module, path) {
                    &&& after == (Attach { place: Place::Done, ..self })
                    &&& request is Run
                    &&& said == seq![
                        Action::Log(
                            Note::AttachedToPid { pid: pids@[i as int], name: ambiguous_name() },
                        ),
                    ]
                } else {
                    exists|ruled: Attach|
                        {
                            &&& ruled.waited == self.waited
                            &&& ruled.next_notice == self.next_notice
                            &&& ruled.ruled_out@ == self.ruled_out@.push(pids@[i as int])
                            &&& #[trigger] ruled.examined(pids@, i + 1, after, request, said)
                        }
                },
                _ => self.examined(pids@, i + 1, after, request, said),
            },
            Place::Done => {
                &&& self.moved(after, Place::Done)
                &&& request is Run
                &&& said == Seq::<Action>::empty()
            },
        }
    }

    fn rest(&mut self, out: &mut Vec<Action>) -> (request: Request)
        ensures
            final(self).wf(),
            old(out)@.is_prefix_of(final(out)@),
            old(self).rested(
                *final(self),
                request,
                final(out)@.skip(old(out)@.len() as int),
            ),
    {
        self.waited = self.waited.wrapping_add(1);
        if self.waited % detached_ticks(FORGET_RULED_OUT_SECS) == 0 {
            self.ruled_out.clear();
            assert(self.ruled_out@ =~= Seq::<u64>::empty());
        }
        assert(out@.skip(old(out)@.len() as int) =~= Seq::<Action>::empty());
        if self.waited >= self.next_notice {
            say(out, Note::StillLooking);
            assert(out@.skip(old(out)@.len() as int) =~= seq![Action::Log(Note::StillLooking)]);
            self.next_notice = self.waited.saturating_add(
                detached_ticks(REPEAT_SEARCH_NOTICE_SECS),
            );
        }
        self.place = Place::Rest;
        Request::NextTick
    }

    fn is_ruled_out(&self, pid: u64) -> (ruled_out: bool)
        ensures
            ruled_out == self.ruled_out@.contains(pid),
    {
        let mut i: usize = 0;
        while i < self.ruled_out.len()
            invariant
                i <= self.ruled_out@.len(),
                forall|k: int| 0 <= k < i ==> self.ruled_out@[k] != pid,
            decreases self.ruled_out@.len() - i,
        {
            if self.ruled_out[i] == pid {
                return true;
            }
            i = i + 1;
        }
        false
    }

    fn examine(&mut self, pids: Vec<u64>, from: usize, out: &mut Vec<Action>) -> (request: Request)
        requires
            from <= pids@.len(),
        ensures
            final(self).wf(),
            old(out)@.is_prefix_of(final(out)@),
            old(self).examined(
                pids@,
                from as int,
                *final(self),
                request,
                final(out)@.skip(old(out)@.len() as int),
            ),
            Self::ends(request) || (final(self).ahead().0 == 0 && 0 <= final(self).ahead().1
                <= pids@.len() - from && final(self).awaits(request)),
    {
        let mut i: usize = from;
        while i < pids.len()
            invariant
                from <= i <= pids@.len(),
                *self == *old(self),
                out@ == old(out)@,
                next_candidate(pids@, self.ruled_out@, from as int) == next_candidate(
                    pids@,
                    self.ruled_out@,
                    i as int,
                ),
            decreases pids@.len() - i,
        {
            let pid: u64 = pids[i];
            if !self.is_ruled_out(pid) {
                assert(out@.skip(old(out)@.len() as int) =~= Seq::<Action>::empty());
                self.place = Place::Pid(pids, i);
                return Request::AttachPid(pid);
            }
            i = i + 1;
        }
        self.rest(out)
    }

    /// Takes the reply to the last request, and makes the next.
    pub fn advance(&mut self, reply: Reply, out: &mut Vec<Action>) -> (request: Request)
        requires
            old(self).wf(),
        ensures
            final(self).wf(),
            Self::ends(request) || final(self).ahead().0 < old(self).ahead().0 || (
            final(self).ahead().0 == old(self).ahead().0 && final(self).ahead().1 < old(
                self,
            ).ahead().1),
            !Self::ends(request) ==> final(self).ahead().0 >= 0 && final(self).ahead().1 >= 0
                && final(self).awaits(request),
            only_logs(final(out)@.skip(old(out)@.len() as int)),
            old(out)@.is_prefix_of(final(out)@),
            old(self).advanced(
                reply,
                *final(self),
                request,
                final(out)@.skip(old(out)@.len() as int),
            ),
    {
        assert(out@.skip(old(out)@.len() as int) =~= Seq::<Action>::empty());
        let mut place = Place::Done;
        core::mem::swap(&mut place, &mut self.place);
        match place {
            Place::Rest => {
                self.place = Place::Name(0);
                Request::Attach(name_at(0))
            },
            Place::Name(i) => {
                if matches!(reply, Reply::Attached) {
                    let note = Note::AttachedTo { name: name_at(i) };
                    say(out, note);
                    assert(out@.skip(old(out)@.len() as int) =~= seq![Action::Log(note)]);
                    return Request::Run;
                }
                if i + 1 < EXACT_NAMES {
                    self.place = Place::Name(i + 1);
                    return Request::Attach(name_at(i + 1));
                }
                if self.waited % detached_ticks(AMBIGUOUS_RETRY_SECS) == 0 {
                    self.place = Place::List;
                    return Request::List("Unity Main Thre");
                }
                self.rest(out)
            },
            Place::List => match reply {
                Reply::Pids(pids) => self.examine(pids, 0, out),
                _ => self.rest(out),
            },
            Place::Pid(pids, i) => {
                let pid: u64 = pids[i];
                let count: usize = pids.len();
                let next: usize = i + 1;
                match reply {
                Reply::Candidate { has_module, path } => {
                    if is_timberborn(has_module, &path) {
                        let note = Note::AttachedToPid { pid, name: "Unity Main Thre" };
                        say(out, note);
                        assert(out@.skip(old(out)@.len() as int) =~= seq![Action::Log(note)]);
                        return Request::Run;
                    }
                    self.ruled_out.push(pid);
                    let ghost ruled = *self;
                    let request = self.examine(pids, next, out);
                    assert(ruled.examined(
                        pids@,
                        i + 1,
                        *self,
                        request,
                        out@.skip(old(out)@.len() as int),
                    ));
                    request
                },
                _ => self.examine(pids, next, out),
                }
            },
            Place::Done => Request::Run,
        }
    }
}

/// A process that is not the game is not taken for it: under the ambiguous name
/// only one that the game's module or path confirms is run.
pub proof fn an_ambiguous_name_is_confirmed(
    attach: Attach,
    reply: Reply,
    after: Attach,
    said: Seq<Action>,
)
    requires
        attach.place is Pid,
        attach.wf(),
        attach.advanced(reply, after, Request::Run, said),
    ensures
        reply matches Reply::Candidate { has_module, path } && confirmed(has_module, path),
{
}

} // verus!
