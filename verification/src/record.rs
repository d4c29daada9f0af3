//! Recording a scenario: the splitter driven against the live game, with a
//! capture taken every time it does something worth reproducing.
//!
//! A single capture is one instant. It can say *the wonder was already
//! unlocked*, but never *the split fired when it became unlocked*, because a
//! split is a change and one frame has none.
//!
//! A moment is any tick in which the splitter **said something that was not
//! routine progress**, or touched the timer. Timer events alone are not enough:
//! they are the splitter's *conclusions*, and its correctness depends on the
//! states it passes through to reach them. So the trigger is the splitter's log
//! minus its own noise, a filter rather than a list of interesting phrases: a
//! list would have to be kept in step with messages that change, and the failure
//! mode of falling behind is a recording that looks complete and is not.
use vstd::prelude::*;
use vstd::slice::slice_subrange;
use vstd::string::StringExecFns;

use crate::live::Mapping;
use crate::memory::Memory;
use crate::requirement::{get, listed, listing, state_from, Requirement, CATALOGUE};
use crate::snapshot::manifest::{optional, said, Metadata, MetadataView, Step};
use crate::text::{
    chars_at, chars_of, contains_text, debug, debugged, decimal_text, number_of, occurs, owned,
    parse_number, past_white, push_decimal, same, skip_white, stands_at, string_of,
};
use crate::timer::TimerEvent;
use crate::world::{setting_in, World};

verus! {

/// Refuse to record more than this many steps. A future splitter that logs more
/// freely should stop a recording, not quietly fill the disk.
pub const MAX_STEPS: u32 = 80;

/// How many words of a log line name a step.
pub const WORDS: usize = 5;

/// Whether a line is of a dump of one class after another, which is progress,
/// not an event.
pub open spec fn is_dump(line: Seq<char>) -> bool {
    let from = past_white(line, 0);
    stands_at(line, "ok "@, from) || stands_at(line, "MISSING"@, from)
}

/// Whether a log line is progress rather than an event. The scans report every
/// slice, the entity walk reports its progress, and the probe dumps a line per
/// class: hundreds of lines that say only "still working". Capturing on those
/// would fill a disk without adding a state.
pub open spec fn is_noise(line: Seq<char>) -> bool {
    ||| occurs(line, "[scan]"@)
    ||| occurs(line, "[entities]"@)
    ||| occurs(line, "[collections]"@)
    ||| occurs(line, "--- probe"@)
    ||| is_dump(line)
}

/// A line of the probe's per-class dump, which is progress, not an event.
pub fn is_probe_body(line: &str) -> (is: bool)
    ensures
        is == is_dump(line@),
{
    let chars = chars_of(line);
    let from: usize = skip_white(chars.as_slice(), 0);
    let ok = chars_of("ok ");
    let missing = chars_of("MISSING");
    chars_at(chars.as_slice(), ok.as_slice(), from) || chars_at(
        chars.as_slice(),
        missing.as_slice(),
        from,
    )
}

/// Whether a log line is progress rather than an event.
pub fn noise(line: &str) -> (is: bool)
    ensures
        is == is_noise(line@),
{
    contains_text(line, "[scan]") || contains_text(line, "[entities]") || contains_text(
        line,
        "[collections]",
    ) || contains_text(line, "--- probe") || is_probe_body(line)
}

/// A letter or digit of ASCII.
pub open spec fn is_word_char(c: char) -> bool {
    'a' <= c <= 'z' || 'A' <= c <= 'Z' || '0' <= c <= '9'
}

/// The character in lower case, of ASCII.
pub open spec fn lowered(c: char) -> char {
    if 'A' <= c <= 'Z' {
        (c as int - 'A' as int + 'a' as int) as char
    } else {
        c
    }
}

/// Where the next word from `i` on begins, or the end of the line.
pub open spec fn word_from(line: Seq<char>, i: int) -> int
    decreases line.len() - i,
{
    if i < 0 || i >= line.len() || is_word_char(line[i]) {
        i
    } else {
        word_from(line, i + 1)
    }
}

/// Where the word at `i` ends.
pub open spec fn word_to(line: Seq<char>, i: int) -> int
    decreases line.len() - i,
{
    if i < 0 || i >= line.len() || !is_word_char(line[i]) {
        i
    } else {
        word_to(line, i + 1)
    }
}

/// Up to `n` words from `i` on, in lower case, each with a dash in front of it
/// that is not the first of the line.
pub open spec fn slug(line: Seq<char>, i: int, n: int, first: bool) -> Seq<char>
    decreases n,
{
    let from = word_from(line, i);
    if n <= 0 || from < 0 || from >= line.len() {
        Seq::empty()
    } else {
        let to = word_to(line, from);
        (if first {
            Seq::empty()
        } else {
            seq!['-']
        }) + line.subrange(from, to).map_values(|c: char| lowered(c)) + slug(line, to, n - 1, false)
    }
}

fn word_char(c: char) -> (is: bool)
    ensures
        is == is_word_char(c),
{
    ('a' <= c && c <= 'z') || ('A' <= c && c <= 'Z') || ('0' <= c && c <= '9')
}

fn lower(c: char) -> (low: char)
    ensures
        low == lowered(c),
{
    if 'A' <= c && c <= 'Z' {
        (c as u8 - 65u8 + 97u8) as char
    } else {
        c
    }
}

/// A log line, shortened enough to name a step by: its first words, in lower
/// case, with dashes between them.
pub fn summarise(line: &str) -> (name: String)
    ensures
        name@ == slug(line@, 0, WORDS as int, true),
{
    let chars = chars_of(line);
    let len: usize = chars.len();
    let mut name = String::new();
    let mut n: usize = WORDS;
    let mut at: usize = 0;
    let ghost whole = slug(line@, 0, WORDS as int, true);
    assert(name@ + whole =~= whole);
    while n > 0
        invariant
            n <= WORDS,
            at <= len,
            len == chars@.len(),
            chars@ == line@,
            whole == name@ + slug(line@, at as int, n as int, n == WORDS),
        ensures
            whole == name@,
        decreases n,
    {
        let mut from: usize = at;
        while from < len && !word_char(chars[from])
            invariant
                at <= from <= len,
                len == chars@.len(),
                chars@ == line@,
                word_from(line@, at as int) == word_from(line@, from as int),
            decreases len - from,
        {
            from = from + 1;
        }
        if from >= len {
            assert(name@ + Seq::<char>::empty() =~= name@);
            break;
        }
        let ghost before = name@;
        if n < WORDS {
            name.push('-');
        }
        let ghost begun = name@;
        let mut to: usize = from;
        assert(begun + line@.subrange(from as int, from as int).map_values(|c: char| lowered(c))
            =~= begun);
        while to < len && word_char(chars[to])
            invariant
                from <= to <= len,
                len == chars@.len(),
                chars@ == line@,
                word_to(line@, from as int) == word_to(line@, to as int),
                name@ == begun + line@.subrange(from as int, to as int).map_values(
                    |c: char| lowered(c),
                ),
            decreases len - to,
        {
            name.push(lower(chars[to]));
            to = to + 1;
            assert(name@ =~= begun + line@.subrange(from as int, to as int).map_values(
                |c: char| lowered(c),
            ));
        }
        proof {
            let rest = slug(line@, to as int, n - 1, false);
            assert(name@ + rest =~= before + slug(line@, at as int, n as int, n == WORDS));
        }
        at = to;
        n = n - 1;
    }
    assert(name@ + Seq::<char>::empty() =~= name@);
    name
}

/// What made a moment worth keeping, of an event.
pub open spec fn described(event: TimerEvent) -> Option<Seq<char>> {
    match event {
        TimerEvent::Start => Some("start"@),
        TimerEvent::Split => Some("split"@),
        TimerEvent::Reset => Some("reset"@),
        TimerEvent::UndoSplit => Some("undo-split"@),
        TimerEvent::SkipSplit => Some("skip-split"@),
        _ => None,
    }
}

/// What made a moment worth keeping. Writes to the status variable are the
/// splitter talking to the runner, not the run changing, so they are not one.
pub fn describe(event: &TimerEvent) -> (reason: Option<&'static str>)
    ensures
        described(*event) == match reason {
            Some(reason) => Some(reason@),
            None => None,
        },
{
    match event {
        TimerEvent::Start => Some("start"),
        TimerEvent::Split => Some("split"),
        TimerEvent::Reset => Some("reset"),
        TimerEvent::UndoSplit => Some("undo-split"),
        TimerEvent::SkipSplit => Some("skip-split"),
        _ => None,
    }
}

/// The first of `events` from `i` on that names a moment.
pub open spec fn done_from(events: Seq<TimerEvent>, i: int) -> Option<Seq<char>>
    decreases events.len() - i,
{
    if i < 0 || i >= events.len() {
        None
    } else if described(events[i]) is Some {
        described(events[i])
    } else {
        done_from(events, i + 1)
    }
}

/// The first of `log` from `i` on that is not noise, shortened.
pub open spec fn said_from(log: Seq<String>, i: int) -> Option<Seq<char>>
    decreases log.len() - i,
{
    if i < 0 || i >= log.len() {
        None
    } else if !is_noise(log[i]@) {
        Some(slug(log[i]@, 0, WORDS as int, true))
    } else {
        said_from(log, i + 1)
    }
}

/// Why a tick was a moment. What the splitter *did* names it in preference to
/// what it said, since a timer event is the thing a test will assert on.
pub open spec fn reason_of(
    log: Seq<String>,
    seen_log: int,
    events: Seq<TimerEvent>,
    seen_events: int,
) -> Option<Seq<char>> {
    match done_from(events, seen_events) {
        Some(did) => Some(did),
        None => said_from(log, seen_log),
    }
}

/// Whether a phrase was said from `i` on.
pub open spec fn was_said(log: Seq<String>, i: int, phrase: Seq<char>) -> bool {
    exists|k: int| i <= k < log.len() && occurs((#[trigger] log[k])@, phrase)
}

/// What is to be done after a tick.
pub enum Next {
    /// Nothing happened.
    Nothing,
    /// Capture the game: why, and whether this is where the run ends.
    Take { reason: String, ends: bool },
    /// There are too many steps already.
    Full,
}

/// A recording being made.
pub struct Recorder {
    pub requirement: Requirement,
    pub pid: u32,
    pub process_name: String,
    pub version: String,
    /// The recording's name, which its steps share.
    pub scenario: String,
    pub notes: String,
    /// How many steps there are.
    pub step: u32,
    /// How much of the timer's record was looked at.
    pub seen_events: usize,
    /// How much of the log was looked at.
    pub seen_log: usize,
}

/// Which states a step is a capture of: the recording's own; for the first, the
/// one that the recording has to be started from; for the last, the one that is
/// reached at the run's end.
pub open spec fn states_of(
    id: Seq<char>,
    begins_at: Option<Seq<char>>,
    ends_at: Option<Seq<char>>,
    step: u32,
    ends: bool,
) -> Seq<Seq<char>> {
    let own = seq![id];
    let first = if step == 0 && begins_at is Some {
        own.push(begins_at->0)
    } else {
        own
    };
    if ends && ends_at is Some {
        first.push(ends_at->0)
    } else {
        first
    }
}

/// A step's directory name, at least two digits wide.
pub open spec fn step_label(step: int) -> Seq<char> {
    "step"@ + (if 0 <= step < 10 {
        "0"@
    } else {
        Seq::empty()
    }) + decimal_text(step)
}

/// A step's directory name.
pub fn label(step: u32) -> (label: String)
    ensures
        label@ == step_label(step as int),
{
    let mut label = owned("step");
    if step < 10 {
        label.append("0");
    }
    push_decimal(&mut label, step as u64);
    assert(label@ =~= step_label(step as int));
    label
}

impl Recorder {
    /// Looks at what a tick added to the log and to the timer's record, and says
    /// whether it was a moment. One capture a tick at most.
    pub fn after_tick(&mut self, log: &Vec<String>, events: &Vec<TimerEvent>) -> (next: Next)
        requires
            old(self).seen_log <= log@.len(),
            old(self).seen_events <= events@.len(),
        ensures
            final(self).seen_log == log@.len(),
            final(self).seen_events == events@.len(),
            *final(self) == (Recorder {
                seen_log: final(self).seen_log,
                seen_events: final(self).seen_events,
                ..*old(self)
            }),
            match reason_of(
                log@,
                old(self).seen_log as int,
                events@,
                old(self).seen_events as int,
            ) {
                None => next is Nothing,
                Some(why) => if old(self).step >= MAX_STEPS {
                    next is Full
                } else {
                    match next {
                        Next::Take { reason, ends } => reason@ == why && ends == match old(
                            self,
                        )@.ends_when {
                            Some(phrase) => was_said(log@, old(self).seen_log as int, phrase),
                            None => false,
                        },
                        _ => false,
                    }
                },
            },
    {
        let mut did: Option<&'static str> = None;
        let mut i: usize = self.seen_events;
        let ghost first = i as int;
        while i < events.len() && did.is_none()
            invariant
                i <= events@.len(),
                match did {
                    Some(did) => done_from(events@, first) == Some(did@),
                    None => done_from(events@, first) == done_from(events@, i as int),
                },
            decreases events@.len() - i,
        {
            did = describe(&events[i]);
            i = i + 1;
        }
        let why: Option<String> = match did {
            Some(did) => Some(owned(did)),
            None => first_said(log, self.seen_log),
        };
        let ends = match &self.requirement.ends_when {
            Some(phrase) => any_says(log, self.seen_log, phrase),
            None => false,
        };
        self.seen_log = log.len();
        self.seen_events = events.len();
        match why {
            None => Next::Nothing,
            Some(reason) => if self.step >= MAX_STEPS {
                Next::Full
            } else {
                Next::Take { reason, ends }
            },
        }
    }

    /// What the recorder knows of the state being recorded.
    pub open spec fn view(&self) -> crate::requirement::RequirementView {
        self.requirement@
    }

    /// What the capture of the next step says of itself.
    pub open spec fn metadata_of(
        self,
        reason: Seq<char>,
        ends: bool,
        captured_at: Seq<char>,
    ) -> MetadataView {
        MetadataView {
            game_version: self.version@,
            build_id: Seq::empty(),
            label: step_label(self.step as int),
            captured_at,
            process_name: self.process_name@,
            process_path: None,
            pid: self.pid,
            notes: self.notes@,
            frozen: true,
            satisfies: states_of(
                self.requirement@.id,
                self.requirement@.begins_at,
                self.requirement@.ends_at,
                self.step,
                ends,
            ),
            base: None,
            scenario: Some(self.scenario@),
            step: Some((self.step, reason)),
        }
    }

    /// What the capture of the next step says of itself.
    pub fn metadata(&self, reason: &str, ends: bool, captured_at: &str) -> (metadata: Metadata)
        ensures
            metadata@ == self.metadata_of(reason@, ends, captured_at@),
    {
        let mut satisfies: Vec<String> = Vec::new();
        satisfies.push(owned(self.requirement.id));
        if self.step == 0 {
            match &self.requirement.begins_at {
                Some(state) => {
                    satisfies.push(owned(state));
                },
                None => {},
            }
        }
        if ends {
            match &self.requirement.ends_at {
                Some(state) => {
                    satisfies.push(owned(state));
                },
                None => {},
            }
        }
        assert(said(satisfies@) =~= states_of(
            self.requirement@.id,
            self.requirement@.begins_at,
            self.requirement@.ends_at,
            self.step,
            ends,
        ));
        let mut metadata = Metadata::default();
        metadata.game_version = owned(self.version.as_str());
        metadata.label = label(self.step);
        metadata.captured_at = owned(captured_at);
        metadata.process_name = owned(self.process_name.as_str());
        metadata.pid = self.pid;
        metadata.notes = owned(self.notes.as_str());
        metadata.frozen = true;
        metadata.satisfies = satisfies;
        metadata.scenario = Some(owned(self.scenario.as_str()));
        metadata.step = Some(Step { index: self.step, event: owned(reason) });
        metadata
    }

    /// The name of the directory that holds the recording, a step to a
    /// directory below it, so that it moves, is deleted, or is copied to another
    /// machine as a unit.
    pub fn recording(&self) -> (name: String)
        ensures
            name@ == self.version@ + "-"@ + self.scenario@,
    {
        let mut name = owned(self.version.as_str());
        name.append("-");
        name.append(self.scenario.as_str());
        name
    }

    /// One more step has been written.
    pub fn taken(&mut self)
        requires
            old(self).step < MAX_STEPS,
        ensures
            *final(self) == (Recorder { step: (old(self).step + 1) as u32, ..*old(self) }),
    {
        self.step = self.step + 1;
    }
}

/// The first line from `i` on that is not noise, shortened.
fn first_said(log: &Vec<String>, i: usize) -> (said: Option<String>)
    requires
        i <= log@.len(),
    ensures
        said_from(log@, i as int) == match said {
            Some(said) => Some(said@),
            None => None,
        },
{
    let mut k: usize = i;
    while k < log.len()
        invariant
            i <= k <= log@.len(),
            said_from(log@, i as int) == said_from(log@, k as int),
        decreases log@.len() - k,
    {
        if !noise(log[k].as_str()) {
            return Some(summarise(log[k].as_str()));
        }
        k = k + 1;
    }
    None
}

/// Whether a line from `i` on contains a phrase.
fn any_says(log: &Vec<String>, i: usize, phrase: &str) -> (says: bool)
    requires
        i <= log@.len(),
    ensures
        says == was_said(log@, i as int, phrase@),
{
    let mut k: usize = i;
    while k < log.len()
        invariant
            i <= k <= log@.len(),
            forall|j: int| i <= j < k ==> !occurs((#[trigger] log@[j])@, phrase@),
        decreases log@.len() - k,
    {
        if contains_text(log[k].as_str(), phrase) {
            assert(occurs(log@[k as int]@, phrase@));
            return true;
        }
        k = k + 1;
    }
    false
}

/// What a recording is asked to do.
pub struct Args {
    pub state: String,
    pub label: Option<String>,
    pub notes: String,
    pub pid: Option<u32>,
}

/// What [`Args`] say.
pub struct ArgsView {
    pub state: Option<Seq<char>>,
    pub label: Option<Seq<char>>,
    pub notes: Seq<char>,
    pub pid: Option<u32>,
}

/// What is wrong with the arguments.
pub enum Wrong {
    /// Help was asked for.
    Help,
    /// The last argument needs a value.
    NoValue(&'static str),
    /// The pid is not a number.
    NotANumber,
    /// There is no such argument.
    Unknown(String),
    /// No state was given.
    NoState,
    /// The state given is none.
    NoSuchState(String),
}

/// What [`Wrong`] says.
pub enum WrongView {
    Help,
    NoValue(Seq<char>),
    NotANumber,
    Unknown(Seq<char>),
    NoState,
    NoSuchState(Seq<char>),
}

impl View for Wrong {
    type V = WrongView;

    open spec fn view(&self) -> WrongView {
        match *self {
            Wrong::Help => WrongView::Help,
            Wrong::NoValue(name) => WrongView::NoValue(name@),
            Wrong::NotANumber => WrongView::NotANumber,
            Wrong::Unknown(argument) => WrongView::Unknown(argument@),
            Wrong::NoState => WrongView::NoState,
            Wrong::NoSuchState(state) => WrongView::NoSuchState(state@),
        }
    }
}

/// The process id that a text is.
pub open spec fn pid_of(text: Seq<char>) -> Option<u32> {
    match number_of(text, 10) {
        Some(n) => if n <= u32::MAX {
            Some(n as u32)
        } else {
            None
        },
        None => None,
    }
}

/// What the arguments from `i` on make of those before.
pub open spec fn parsed_from(argv: Seq<String>, i: int, so_far: ArgsView) -> Result<
    ArgsView,
    WrongView,
>
    decreases argv.len() - i,
{
    if i < 0 || i >= argv.len() {
        Ok(so_far)
    } else if argv[i]@ == "--state"@ {
        if i + 1 >= argv.len() {
            Err(WrongView::NoValue("--state"@))
        } else {
            parsed_from(argv, i + 2, ArgsView { state: Some(argv[i + 1]@), ..so_far })
        }
    } else if argv[i]@ == "--label"@ {
        if i + 1 >= argv.len() {
            Err(WrongView::NoValue("--label"@))
        } else {
            parsed_from(argv, i + 2, ArgsView { label: Some(argv[i + 1]@), ..so_far })
        }
    } else if argv[i]@ == "--notes"@ {
        if i + 1 >= argv.len() {
            Err(WrongView::NoValue("--notes"@))
        } else {
            parsed_from(argv, i + 2, ArgsView { notes: argv[i + 1]@, ..so_far })
        }
    } else if argv[i]@ == "--pid"@ {
        if i + 1 >= argv.len() {
            Err(WrongView::NoValue("--pid"@))
        } else {
            match pid_of(argv[i + 1]@) {
                Some(pid) => parsed_from(argv, i + 2, ArgsView { pid: Some(pid), ..so_far }),
                None => Err(WrongView::NotANumber),
            }
        }
    } else if argv[i]@ == "--help"@ || argv[i]@ == "-h"@ {
        Err(WrongView::Help)
    } else {
        Err(WrongView::Unknown(argv[i]@))
    }
}

/// What the arguments say, where they say what is needed.
pub open spec fn parsed(argv: Seq<String>) -> Result<ArgsView, WrongView> {
    match parsed_from(
        argv,
        0,
        ArgsView { state: None, label: None, notes: Seq::empty(), pid: None },
    ) {
        Err(wrong) => Err(wrong),
        Ok(args) => match args.state {
            None => Err(WrongView::NoState),
            Some(state) => if state_from(state, 0) is None {
                Err(WrongView::NoSuchState(state))
            } else {
                Ok(args)
            },
        },
    }
}

impl View for Args {
    type V = ArgsView;

    open spec fn view(&self) -> ArgsView {
        ArgsView {
            state: Some(self.state@),
            label: optional(self.label),
            notes: self.notes@,
            pid: self.pid,
        }
    }
}

/// Reads the arguments, those behind the program's name.
pub fn parse_args(argv: &Vec<String>) -> (result: Result<Args, Wrong>)
    ensures
        match result {
            Ok(args) => parsed(argv@) == Ok::<ArgsView, WrongView>(args@),
            Err(wrong) => parsed(argv@) == Err::<ArgsView, WrongView>(wrong@),
        },
{
    let mut state: Option<String> = None;
    let mut label: Option<String> = None;
    let mut notes = String::new();
    let mut pid: Option<u32> = None;
    let ghost start = ArgsView { state: None, label: None, notes: Seq::empty(), pid: None };
    assert(notes@ =~= Seq::<char>::empty());
    let mut i: usize = 0;
    let count: usize = argv.len();
    while i < count
        invariant
            i <= count,
            count == argv@.len(),
            start == (ArgsView { state: None, label: None, notes: Seq::empty(), pid: None }),
            parsed_from(argv@, 0, start) == parsed_from(
                argv@,
                i as int,
                ArgsView {
                    state: optional(state),
                    label: optional(label),
                    notes: notes@,
                    pid,
                },
            ),
        decreases count - i,
    {
        let arg: &str = argv[i].as_str();
        let more = i + 1 < count;
        if same(arg, "--state") {
            if !more {
                return Err(Wrong::NoValue("--state"));
            }
            state = Some(owned(argv[i + 1].as_str()));
        } else if same(arg, "--label") {
            if !more {
                return Err(Wrong::NoValue("--label"));
            }
            label = Some(owned(argv[i + 1].as_str()));
        } else if same(arg, "--notes") {
            if !more {
                return Err(Wrong::NoValue("--notes"));
            }
            notes = owned(argv[i + 1].as_str());
        } else if same(arg, "--pid") {
            if !more {
                return Err(Wrong::NoValue("--pid"));
            }
            let chars = chars_of(argv[i + 1].as_str());
            match parse_number(chars.as_slice(), 10) {
                Some(n) => {
                    if n > u32::MAX as u64 {
                        return Err(Wrong::NotANumber);
                    }
                    pid = Some(n as u32);
                },
                None => {
                    return Err(Wrong::NotANumber);
                },
            }
        } else if same(arg, "--help") || same(arg, "-h") {
            return Err(Wrong::Help);
        } else {
            return Err(Wrong::Unknown(owned(arg)));
        }
        i = i + 2;
    }
    match state {
        None => Err(Wrong::NoState),
        Some(state) => match get(state.as_str()) {
            None => Err(Wrong::NoSuchState(state)),
            Some(_) => Ok(Args { state, label, notes, pid }),
        },
    }
}

/// What is said of arguments that are wrong.
pub open spec fn complaint(wrong: WrongView) -> Seq<char> {
    match wrong {
        WrongView::Help => "help"@,
        WrongView::NoValue(name) => name + " needs a value"@,
        WrongView::NotANumber => "--pid must be a number"@,
        WrongView::Unknown(argument) => "unknown argument "@ + argument,
        WrongView::NoState => "--state is required: it says what scenario is being recorded, and is how a test finds it.\nKnown states:\n"@
            + listed(CATALOGUE as int),
        WrongView::NoSuchState(state) => "no such state "@ + debugged(state) + ". Known states:\n"@
            + listed(CATALOGUE as int),
    }
}

impl Wrong {
    /// What is said of the arguments.
    pub fn text(&self) -> (text: String)
        ensures
            text@ == complaint(self@),
    {
        match self {
            Wrong::Help => owned("help"),
            Wrong::NoValue(name) => {
                let mut text = owned(name);
                text.append(" needs a value");
                text
            },
            Wrong::NotANumber => owned("--pid must be a number"),
            Wrong::Unknown(argument) => {
                let mut text = owned("unknown argument ");
                text.append(argument.as_str());
                text
            },
            Wrong::NoState => {
                let mut text = owned(
                    "--state is required: it says what scenario is being recorded, and is how a test finds it.\nKnown states:\n",
                );
                text.append(listing().as_str());
                text
            },
            Wrong::NoSuchState(state) => {
                let mut text = owned("no such state ");
                text.append(debug(state.as_str()).as_str());
                text.append(". Known states:\n");
                text.append(listing().as_str());
                text
            },
        }
    }
}

/// The processes among the first `n` that have the game's files mapped, each
/// once, in order.
pub open spec fn games(candidates: Seq<(u32, bool)>, n: int) -> Seq<u32>
    decreases n,
{
    if n <= 0 {
        Seq::empty()
    } else {
        let before = games(candidates, n - 1);
        let (pid, is_game) = candidates[n - 1];
        if is_game && !before.contains(pid) {
            before.push(pid)
        } else {
            before
        }
    }
}

/// Which process is the game, out of those of the right names and whether each
/// has the game's files mapped. Where that does not settle it, all that might be.
pub fn find_game(candidates: &Vec<(u32, bool)>) -> (result: Result<u32, Vec<u32>>)
    ensures
        ({
            let all = games(candidates@, candidates@.len() as int);
            match result {
                Ok(pid) => all == seq![pid],
                Err(several) => several@ == all && all.len() != 1,
            }
        }),
{
    let mut all: Vec<u32> = Vec::new();
    let mut i: usize = 0;
    while i < candidates.len()
        invariant
            i <= candidates@.len(),
            all@ == games(candidates@, i as int),
        decreases candidates@.len() - i,
    {
        let (pid, is_game) = candidates[i];
        if is_game {
            let mut k: usize = 0;
            while k < all.len() && all[k] != pid
                invariant
                    k <= all@.len(),
                    forall|j: int| 0 <= j < k ==> all@[j] != pid,
                decreases all@.len() - k,
            {
                k = k + 1;
            }
            if k >= all.len() {
                assert(!all@.contains(pid));
                all.push(pid);
            } else {
                assert(all@[k as int] == pid);
            }
        }
        i = i + 1;
    }
    if all.len() == 1 {
        assert(all@ =~= seq![all@[0]]);
        Ok(all[0])
    } else {
        Err(all)
    }
}

/// Numbers with commas between them.
pub open spec fn listed_pids(pids: Seq<u32>, n: int) -> Seq<char>
    decreases n,
{
    if n <= 0 {
        Seq::empty()
    } else {
        listed_pids(pids, n - 1) + (if n > 1 {
            ", "@
        } else {
            Seq::empty()
        }) + decimal_text(pids[n - 1] as int)
    }
}

/// Why no process could be settled on.
pub fn undecided(pids: &Vec<u32>) -> (text: String)
    ensures
        text@ == if pids@.len() == 0 {
            "no Timberborn process found. Start the game first, or pass --pid."@
        } else {
            "several candidates (["@ + listed_pids(pids@, pids@.len() as int)
                + "]); pass --pid to choose"@
        },
{
    if pids.len() == 0 {
        return owned("no Timberborn process found. Start the game first, or pass --pid.");
    }
    let mut text = owned("several candidates ([");
    let ghost begun = text@;
    let mut i: usize = 0;
    assert(text@ =~= begun + listed_pids(pids@, 0));
    while i < pids.len()
        invariant
            i <= pids@.len(),
            text@ == begun + listed_pids(pids@, i as int),
        decreases pids@.len() - i,
    {
        if i > 0 {
            text.append(", ");
        }
        push_decimal(&mut text, pids[i] as u64);
        i = i + 1;
        assert(text@ =~= begun + listed_pids(pids@, i as int));
    }
    text.append("]); pass --pid to choose");
    text
}

/// The first place from `i` on at which `part` stands in `whole`.
pub open spec fn place_from(whole: Seq<char>, part: Seq<char>, i: int) -> Option<int>
    decreases whole.len() + 1 - i,
{
    if i < 0 || i > whole.len() {
        None
    } else if stands_at(whole, part, i) {
        Some(i)
    } else {
        place_from(whole, part, i + 1)
    }
}

/// The game's directory, from the path of one of its data files.
pub open spec fn dir_in(path: Option<Seq<char>>) -> Option<Seq<char>> {
    match path {
        Some(path) => match place_from(path, "/Timberborn_Data/"@, 0) {
            Some(at) => Some(path.take(at)),
            None => None,
        },
        None => None,
    }
}

/// The game's directory, from the first of the mappings from `i` on that is of
/// one of its data files.
pub open spec fn dir_from(mappings: Seq<Mapping>, i: int) -> Option<Seq<char>>
    decreases mappings.len() - i,
{
    if i < 0 || i >= mappings.len() {
        None
    } else {
        match dir_in(mappings[i]@.path) {
            Some(dir) => Some(dir),
            None => dir_from(mappings, i + 1),
        }
    }
}

/// Where the game is installed, by what a process has mapped. `None` where the
/// process is not the game.
pub fn game_dir(mappings: &[Mapping]) -> (dir: Option<String>)
    ensures
        dir_from(mappings@, 0) == match dir {
            Some(dir) => Some(dir@),
            None => None,
        },
{
    let wanted = chars_of("/Timberborn_Data/");
    let mut i: usize = 0;
    while i < mappings.len()
        invariant
            i <= mappings@.len(),
            wanted@ == "/Timberborn_Data/"@,
            dir_from(mappings@, 0) == dir_from(mappings@, i as int),
        decreases mappings@.len() - i,
    {
        match &mappings[i].path {
            Some(path) => {
                let chars = chars_of(path.as_str());
                let len: usize = chars.len();
                let mut at: usize = 0;
                let mut found = false;
                while at < len && !found
                    invariant
                        at <= len,
                        len == chars@.len(),
                        wanted@ == "/Timberborn_Data/"@,
                        found ==> place_from(chars@, wanted@, 0) == Some(at as int),
                        !found ==> place_from(chars@, wanted@, 0) == place_from(
                            chars@,
                            wanted@,
                            at as int,
                        ),
                    decreases len - at,
                        (if found {
                            0int
                        } else {
                            1int
                        }),
                {
                    if chars_at(chars.as_slice(), wanted.as_slice(), at) {
                        found = true;
                    } else {
                        at = at + 1;
                    }
                }
                if found {
                    let dir = string_of(slice_subrange(chars.as_slice(), 0, at));
                    assert(dir@ =~= chars@.take(at as int));
                    return Some(dir);
                }
                proof {
                    reveal_strlit("/Timberborn_Data/");
                    assert(!stands_at(chars@, wanted@, len as int));
                    assert(place_from(chars@, wanted@, len + 1) is None);
                    assert(place_from(chars@, wanted@, len as int) is None);
                }
            },
            None => {},
        }
        i = i + 1;
    }
    None
}

/// The world that a state is recorded in: with every setting forced that it
/// names.
pub fn forced<M: Memory>(world: World<M>, requirement: &Requirement) -> (forced: World<M>)
    requires
        world.wf(),
    ensures
        forced.wf(),
        forced == (World { settings: forced.settings, ..world }),
        forall|key: Seq<char>|
            setting_in(forced.settings@, key) == match last_value(
                requirement@.settings,
                key,
                requirement@.settings.len() as int,
            ) {
                Some(value) => Some(value),
                None => #[trigger] setting_in(world.settings@, key),
            },
{
    let mut forced = world;
    let mut i: usize = 0;
    while i < requirement.settings.len()
        invariant
            i <= requirement.settings@.len(),
            forced.wf(),
            forced == (World { settings: forced.settings, ..world }),
            forall|key: Seq<char>|
                setting_in(forced.settings@, key) == match last_value(
                    requirement@.settings,
                    key,
                    i as int,
                ) {
                    Some(value) => Some(value),
                    None => #[trigger] setting_in(world.settings@, key),
                },
        decreases requirement.settings@.len() - i,
    {
        let (key, value) = requirement.settings[i];
        let ghost before = forced.settings@;
        assert(requirement@.settings[i as int] == (key@, value));
        forced = forced.with_setting(key, value);
        assert forall|name: Seq<char>|
            setting_in(forced.settings@, name) == match last_value(
                requirement@.settings,
                name,
                i + 1,
            ) {
                Some(value) => Some(value),
                None => #[trigger] setting_in(world.settings@, name),
            } by {
            assert(setting_in(world.settings@, name) == setting_in(world.settings@, name));
            if name != key@ {
                assert(setting_in(forced.settings@, name) == setting_in(before, name));
            }
        }
        i = i + 1;
    }
    forced
}

/// What the last of the first `n` settings under a key says.
pub open spec fn last_value(settings: Seq<(Seq<char>, bool)>, key: Seq<char>, n: int) -> Option<
    bool,
>
    decreases n,
{
    if n <= 0 {
        None
    } else if settings[n - 1].0 == key {
        Some(settings[n - 1].1)
    } else {
        last_value(settings, key, n - 1)
    }
}

} // verus!
