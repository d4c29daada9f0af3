//! A snapshot's manifest: what was captured, as text.
//!
//! One entry to a line, a key and what follows the first space. Keys that are
//! not known are passed over.
use vstd::prelude::*;
use vstd::slice::slice_subrange;
use vstd::string::StringExecFns;

use crate::memory::{MemoryRange, ModuleInfo};
use crate::text::{
    a_line_in_front, a_number_reads_back, chars_of, chomped, copy_part, decimal_text, digits,
    find_char, is_white, lemma_place_is, lemma_place_of, lines, lines_from, lines_of, number_of,
    parse_number, past_white, place_of, push_decimal, push_digits, runs, same_chars, string_of,
    trim, trimmed, trimmed_end,
};

verus! {

/// The version of the format.
pub const FORMAT_VERSION: u32 = 2;

/// What was captured, alongside enough provenance to know what it is a snapshot
/// *of*. A snapshot with no build id is worthless a month later.
pub struct Metadata {
    /// The game's own version, e.g. `1.1.2.4-52e959e-sw`. What identifies a
    /// capture.
    pub game_version: String,
    /// Steam's build id, where it could be established. Provenance only: a
    /// version run outside Steam has none that Steam knows about.
    pub build_id: String,
    pub label: String,
    pub captured_at: String,
    pub process_name: String,
    pub process_path: Option<String>,
    pub pid: u32,
    /// Free text: which faction, how far into the run, what was on screen.
    pub notes: String,
    /// Whether the game was stopped for the read. A capture that cannot say
    /// whether it is consistent is one nobody can trust later.
    pub frozen: bool,
    /// Which requirements this capture is of. What tests search on, rather than
    /// the directory name.
    pub satisfies: Vec<String>,
    /// The capture this one stores differences against, by directory name.
    /// `None` for a full capture.
    pub base: Option<String>,
    /// The recording this capture is a step of. Steps of one scenario share it,
    /// which is what gathers them back into an ordered sequence.
    pub scenario: Option<String>,
    /// Position in a recorded sequence, and what happened at it. Empty for a
    /// capture that is not part of one.
    pub step: Option<Step>,
}

/// One moment in a recorded sequence, and why it was captured.
#[derive(Clone, Debug, PartialEq)]
pub struct Step {
    pub index: u32,
    /// What the splitter did that made this a moment worth keeping, or `begin`
    /// for the state before anything happened.
    pub event: String,
}

/// What a [`Metadata`] says.
pub struct MetadataView {
    pub game_version: Seq<char>,
    pub build_id: Seq<char>,
    pub label: Seq<char>,
    pub captured_at: Seq<char>,
    pub process_name: Seq<char>,
    pub process_path: Option<Seq<char>>,
    pub pid: u32,
    pub notes: Seq<char>,
    pub frozen: bool,
    pub satisfies: Seq<Seq<char>>,
    pub base: Option<Seq<char>>,
    pub scenario: Option<Seq<char>>,
    pub step: Option<(u32, Seq<char>)>,
}

/// What a text that may be absent says.
pub open spec fn optional(text: Option<String>) -> Option<Seq<char>> {
    match text {
        Some(text) => Some(text@),
        None => None,
    }
}

/// What several texts say.
pub open spec fn said(texts: Seq<String>) -> Seq<Seq<char>> {
    texts.map_values(|text: String| text@)
}

impl View for Metadata {
    type V = MetadataView;

    open spec fn view(&self) -> MetadataView {
        MetadataView {
            game_version: self.game_version@,
            build_id: self.build_id@,
            label: self.label@,
            captured_at: self.captured_at@,
            process_name: self.process_name@,
            process_path: optional(self.process_path),
            pid: self.pid,
            notes: self.notes@,
            frozen: self.frozen,
            satisfies: said(self.satisfies@),
            base: optional(self.base),
            scenario: optional(self.scenario),
            step: match self.step {
                Some(step) => Some((step.index, step.event@)),
                None => None,
            },
        }
    }
}

/// Nothing known yet.
pub open spec fn blank() -> MetadataView {
    MetadataView {
        game_version: Seq::empty(),
        build_id: Seq::empty(),
        label: Seq::empty(),
        captured_at: Seq::empty(),
        process_name: Seq::empty(),
        process_path: None,
        pid: 0,
        notes: Seq::empty(),
        frozen: false,
        satisfies: Seq::empty(),
        base: None,
        scenario: None,
        step: None,
    }
}

impl Default for Metadata {
    fn default() -> (metadata: Self)
        ensures
            metadata@ == blank(),
    {
        let metadata = Metadata {
            game_version: String::new(),
            build_id: String::new(),
            label: String::new(),
            captured_at: String::new(),
            process_name: String::new(),
            process_path: None,
            pid: 0,
            notes: String::new(),
            frozen: false,
            satisfies: Vec::new(),
            base: None,
            scenario: None,
            step: None,
        };
        assert(metadata@.satisfies =~= Seq::<Seq<char>>::empty());
        metadata
    }
}

/// Everything a manifest says.
pub struct Manifest {
    pub metadata: Metadata,
    pub modules: Vec<ModuleInfo>,
    /// The ranges, as the runtime should report them.
    pub ranges: Vec<MemoryRange>,
    /// For each of the ranges, whether it could be read.
    pub readable: Vec<bool>,
}

/// What a [`Manifest`] says, with the notes line by line.
pub struct ManifestView {
    pub metadata: MetadataView,
    pub modules: Seq<(Seq<char>, u64, u64)>,
    pub ranges: Seq<MemoryRange>,
    pub readable: Seq<bool>,
    pub notes: Seq<Seq<char>>,
}

/// What several modules say of where they are.
pub open spec fn placed_modules(modules: Seq<ModuleInfo>) -> Seq<(Seq<char>, u64, u64)> {
    modules.map_values(|module: ModuleInfo| (module.name@, module.address, module.size))
}

/// Whether no path is known of any of the modules, which a manifest does not hold.
pub open spec fn are_pathless(modules: Seq<ModuleInfo>) -> bool {
    forall|i: int| 0 <= i < modules.len() ==> (#[trigger] modules[i]).path is None
}

/// Where the `k`th piece of `text` between single spaces begins; past the end
/// where there are not so many.
pub open spec fn piece_start(text: Seq<char>, k: int) -> int
    decreases k,
{
    if k <= 0 {
        0
    } else if piece_start(text, k - 1) > text.len() {
        text.len() as int + 1
    } else {
        place_of(text, ' ', piece_start(text, k - 1)) + 1
    }
}

/// The `k`th piece of `text` between single spaces, if there is one.
pub open spec fn piece(text: Seq<char>, k: int) -> Option<Seq<char>> {
    let start = piece_start(text, k);
    if start > text.len() {
        None
    } else {
        Some(text.subrange(start, place_of(text, ' ', start)))
    }
}

/// What a piece is, or nothing.
pub open spec fn or_nothing(piece: Option<Seq<char>>) -> Seq<char> {
    match piece {
        Some(piece) => piece,
        None => Seq::empty(),
    }
}

/// The number a text is, or zero.
pub open spec fn number_or_zero(text: Seq<char>, base: int) -> u64 {
    match number_of(text, base) {
        Some(number) => number,
        None => 0,
    }
}

/// The 32-bit number a text is, or zero.
pub open spec fn small_or_zero(text: Seq<char>) -> u32 {
    match number_of(text, 10) {
        Some(number) => if number <= u32::MAX {
            number as u32
        } else {
            0
        },
        None => 0,
    }
}

/// The step that an entry describes.
pub open spec fn step_of(value: Seq<char>) -> (u32, Seq<char>) {
    let text = trimmed(value, 0);
    let space = place_of(text, ' ', 0);
    if space < text.len() {
        (small_or_zero(text.take(space)), text.skip(space + 1))
    } else {
        (small_or_zero(text), Seq::empty())
    }
}

/// The module that an entry describes.
pub open spec fn module_of(value: Seq<char>) -> (Seq<char>, u64, u64) {
    let name = piece_start(value, 2);
    (
        if name <= value.len() {
            value.skip(name)
        } else {
            Seq::empty()
        },
        number_or_zero(or_nothing(piece(value, 0)), 16),
        number_or_zero(or_nothing(piece(value, 1)), 16),
    )
}

/// The range that an entry describes, and whether it could be read.
pub open spec fn range_of(value: Seq<char>) -> (MemoryRange, bool) {
    (
        MemoryRange {
            address: number_or_zero(or_nothing(piece(value, 0)), 16),
            size: number_or_zero(or_nothing(piece(value, 1)), 16),
            flags: number_or_zero(or_nothing(piece(value, 2)), 10),
        },
        piece(value, 3) matches Some(mark) && mark != "-"@,
    )
}

/// What an entry of a known key makes of what is known so far, or the version
/// it names where that is another.
pub open spec fn applied(so_far: ManifestView, key: Seq<char>, value: Seq<char>) -> Result<
    ManifestView,
    u32,
> {
    let m = so_far.metadata;
    if key == "version"@ {
        let found = small_or_zero(trimmed(value, 0));
        if found != FORMAT_VERSION {
            Err(found)
        } else {
            Ok(so_far)
        }
    } else if key == "game_version"@ {
        Ok(so_far.with(MetadataView { game_version: value, ..m }))
    } else if key == "build_id"@ {
        Ok(so_far.with(MetadataView { build_id: value, ..m }))
    } else if key == "label"@ {
        Ok(so_far.with(MetadataView { label: value, ..m }))
    } else if key == "captured_at"@ {
        Ok(so_far.with(MetadataView { captured_at: value, ..m }))
    } else if key == "pid"@ {
        Ok(so_far.with(MetadataView { pid: small_or_zero(trimmed(value, 0)), ..m }))
    } else if key == "process_name"@ {
        Ok(so_far.with(MetadataView { process_name: value, ..m }))
    } else if key == "frozen"@ {
        Ok(so_far.with(MetadataView { frozen: trimmed(value, 0) == "yes"@, ..m }))
    } else if key == "satisfies"@ {
        Ok(so_far.with(MetadataView { satisfies: m.satisfies.push(trimmed(value, 0)), ..m }))
    } else if key == "base"@ {
        Ok(so_far.with(MetadataView { base: Some(trimmed(value, 0)), ..m }))
    } else if key == "scenario"@ {
        Ok(so_far.with(MetadataView { scenario: Some(trimmed(value, 0)), ..m }))
    } else if key == "step"@ {
        Ok(so_far.with(MetadataView { step: Some(step_of(value)), ..m }))
    } else if key == "process_path"@ {
        Ok(so_far.with(MetadataView { process_path: Some(value), ..m }))
    } else if key == "note"@ {
        Ok(ManifestView { notes: so_far.notes.push(value), ..so_far })
    } else if key == "module"@ {
        Ok(ManifestView { modules: so_far.modules.push(module_of(value)), ..so_far })
    } else if key == "range"@ {
        Ok(
            ManifestView {
                ranges: so_far.ranges.push(range_of(value).0),
                readable: so_far.readable.push(range_of(value).1),
                ..so_far
            },
        )
    } else {
        Ok(so_far)
    }
}

impl ManifestView {
    pub open spec fn with(self, metadata: MetadataView) -> Self {
        ManifestView { metadata, ..self }
    }

    /// Nothing read yet.
    pub open spec fn empty() -> Self {
        ManifestView {
            metadata: blank(),
            modules: Seq::empty(),
            ranges: Seq::empty(),
            readable: Seq::empty(),
            notes: Seq::empty(),
        }
    }
}

/// What a line makes of what is known so far. One without a space is no entry.
pub open spec fn applied_line(so_far: ManifestView, line: Seq<char>) -> Result<ManifestView, u32> {
    let space = place_of(line, ' ', 0);
    if space >= line.len() {
        Ok(so_far)
    } else {
        applied(so_far, line.take(space), line.skip(space + 1))
    }
}

/// What lines make of what is known so far.
pub open spec fn applied_all(so_far: ManifestView, lines: Seq<Seq<char>>) -> Result<
    ManifestView,
    u32,
>
    decreases lines.len(),
{
    if lines.len() == 0 {
        Ok(so_far)
    } else {
        match applied_line(so_far, lines[0]) {
            Ok(next) => applied_all(next, lines.drop_first()),
            Err(found) => Err(found),
        }
    }
}

/// Texts with line feeds between them.
pub open spec fn joined(lines: Seq<Seq<char>>) -> Seq<char>
    decreases lines.len(),
{
    if lines.len() == 0 {
        Seq::empty()
    } else if lines.len() == 1 {
        lines[0]
    } else {
        joined(lines.drop_last()) + seq!['\n'] + lines.last()
    }
}

/// A manifest that is being read.
struct Reading {
    manifest: Manifest,
    notes: Vec<Vec<char>>,
}

impl Reading {
    spec fn so_far(self) -> ManifestView {
        ManifestView {
            metadata: self.manifest.metadata@,
            modules: placed_modules(self.manifest.modules@),
            ranges: self.manifest.ranges@,
            readable: self.manifest.readable@,
            notes: runs(self.notes@),
        }
    }
}

fn key_is(key: &[char], name: &str) -> (is: bool)
    ensures
        is == (key@ == name@),
{
    let wanted = chars_of(name);
    same_chars(key, wanted.as_slice())
}

fn small(text: &[char]) -> (number: u32)
    ensures
        number == small_or_zero(text@),
{
    match parse_number(text, 10) {
        Some(number) => if number <= 0xffff_ffff {
            number as u32
        } else {
            0
        },
        None => 0,
    }
}

fn start_of_piece(text: &[char], k: usize) -> (start: usize)
    requires
        k <= 4,
        text@.len() < usize::MAX,
    ensures
        start == piece_start(text@, k as int),
        start <= text@.len() + 1,
    decreases k,
{
    if k == 0 {
        return 0;
    }
    let before: usize = start_of_piece(text, k - 1);
    if before > text.len() {
        return text.len() + 1;
    }
    find_char(text, ' ', before) + 1
}

fn nth_piece(text: &[char], k: usize) -> (found: Option<&[char]>)
    requires
        k <= 4,
        text@.len() < usize::MAX,
    ensures
        piece(text@, k as int) == match found {
            Some(found) => Some(found@),
            None => None,
        },
{
    let start: usize = start_of_piece(text, k);
    if start > text.len() {
        return None;
    }
    let end: usize = find_char(text, ' ', start);
    Some(slice_subrange(text, start, end))
}

fn number_in_piece(text: &[char], k: usize, base: u64) -> (number: u64)
    requires
        k <= 4,
        text@.len() < usize::MAX,
        2 <= base <= 16,
    ensures
        number == number_or_zero(or_nothing(piece(text@, k as int)), base as int),
{
    match nth_piece(text, k) {
        Some(found) => match parse_number(found, base) {
            Some(number) => number,
            None => 0,
        },
        None => {
            assert(number_of(Seq::<char>::empty(), base as int) is None);
            0
        },
    }
}

impl Reading {
    /// Takes in an entry. Returns the version it names, where that is another.
    fn apply(&mut self, key: &[char], value: &[char]) -> (refused: Option<u32>)
        requires
            value@.len() < usize::MAX,
        ensures
            applied(old(self).so_far(), key@, value@) == match refused {
                Some(found) => Err::<ManifestView, u32>(found),
                None => Ok(final(self).so_far()),
            },
            are_pathless(old(self).manifest.modules@) ==> are_pathless(
                final(self).manifest.modules@,
            ),
    {
        if key_is(key, "version") {
            let found: u32 = small(trim(value, 0));
            if found != FORMAT_VERSION {
                return Some(found);
            }
        } else if key_is(key, "game_version") {
            self.manifest.metadata.game_version = string_of(value);
        } else if key_is(key, "build_id") {
            self.manifest.metadata.build_id = string_of(value);
        } else if key_is(key, "label") {
            self.manifest.metadata.label = string_of(value);
        } else if key_is(key, "captured_at") {
            self.manifest.metadata.captured_at = string_of(value);
        } else if key_is(key, "pid") {
            self.manifest.metadata.pid = small(trim(value, 0));
        } else if key_is(key, "process_name") {
            self.manifest.metadata.process_name = string_of(value);
        } else if key_is(key, "frozen") {
            self.manifest.metadata.frozen = key_is(trim(value, 0), "yes");
        } else if key_is(key, "satisfies") {
            self.manifest.metadata.satisfies.push(string_of(trim(value, 0)));
            assert(self.so_far().metadata.satisfies =~= old(
                self,
            ).so_far().metadata.satisfies.push(trimmed(value@, 0)));
        } else if key_is(key, "base") {
            self.manifest.metadata.base = Some(string_of(trim(value, 0)));
        } else if key_is(key, "scenario") {
            self.manifest.metadata.scenario = Some(string_of(trim(value, 0)));
        } else if key_is(key, "step") {
            let text = trim(value, 0);
            let space: usize = find_char(text, ' ', 0);
            if space < text.len() {
                let index = slice_subrange(text, 0, space);
                let event = slice_subrange(text, space + 1, text.len());
                assert(index@ =~= text@.take(space as int));
                assert(event@ =~= text@.skip(space + 1));
                self.manifest.metadata.step = Some(
                    Step { index: small(index), event: string_of(event) },
                );
            } else {
                self.manifest.metadata.step = Some(
                    Step { index: small(text), event: String::new() },
                );
            }
        } else if key_is(key, "process_path") {
            self.manifest.metadata.process_path = Some(string_of(value));
        } else if key_is(key, "note") {
            let note = copy_part(value, 0, value.len());
            assert(note@ =~= value@);
            self.notes.push(note);
            assert(self.so_far().notes =~= old(self).so_far().notes.push(value@));
        } else if key_is(key, "module") {
            let start: usize = start_of_piece(value, 2);
            let name = if start <= value.len() {
                let rest = slice_subrange(value, start, value.len());
                assert(rest@ =~= value@.skip(start as int));
                string_of(rest)
            } else {
                String::new()
            };
            let address: u64 = number_in_piece(value, 0, 16);
            let size: u64 = number_in_piece(value, 1, 16);
            self.manifest.modules.push(ModuleInfo { name, address, size, path: None });
            assert(self.so_far().modules =~= old(self).so_far().modules.push(module_of(value@)));
        } else if key_is(key, "range") {
            let address: u64 = number_in_piece(value, 0, 16);
            let size: u64 = number_in_piece(value, 1, 16);
            let flags: u64 = number_in_piece(value, 2, 10);
            let readable = match nth_piece(value, 3) {
                Some(mark) => !key_is(mark, "-"),
                None => false,
            };
            self.manifest.ranges.push(MemoryRange { address, size, flags });
            self.manifest.readable.push(readable);
        }
        None
    }
}

fn join(lines: &Vec<Vec<char>>) -> (text: String)
    ensures
        text@ == joined(runs(lines@)),
{
    let mut text = String::new();
    let mut i: usize = 0;
    assert(runs(lines@).take(0) =~= Seq::<Seq<char>>::empty());
    while i < lines.len()
        invariant
            i <= lines@.len(),
            text@ == joined(runs(lines@).take(i as int)),
        decreases lines@.len() - i,
    {
        let ghost next = runs(lines@).take(i + 1);
        assert(next.drop_last() =~= runs(lines@).take(i as int));
        assert(next.last() == lines@[i as int]@);
        if i > 0 {
            text.push('\n');
        }
        let line = string_of(lines[i].as_slice());
        text.append(line.as_str());
        assert(text@ =~= joined(next));
        i = i + 1;
    }
    assert(runs(lines@).take(i as int) =~= runs(lines@));
    text
}

/// What a manifest's text says, or the version it is of where that is another.
pub open spec fn manifest_in(text: Seq<char>) -> Result<ManifestView, u32> {
    applied_all(ManifestView::empty(), lines_of(text))
}

impl Manifest {
    /// What the manifest says, given its notes line by line.
    pub open spec fn says(self, view: ManifestView) -> bool {
        &&& self.metadata@ == (MetadataView { notes: joined(view.notes), ..view.metadata })
        &&& placed_modules(self.modules@) == view.modules
        &&& are_pathless(self.modules@)
        &&& self.ranges@ == view.ranges
        &&& self.readable@ == view.readable
    }

    /// Reads a manifest. One of another version is refused, with that version:
    /// it is to be recaptured rather than guessed at.
    pub fn parse(text: &str) -> (result: Result<Self, u32>)
        ensures
            match (result, manifest_in(text@)) {
                (Ok(manifest), Ok(view)) => manifest.says(view),
                (Err(found), Err(version)) => found == version,
                _ => false,
            },
    {
        let chars = chars_of(text);
        let all = lines(chars.as_slice());
        let mut reading = Reading {
            manifest: Manifest {
                metadata: Metadata::default(),
                modules: Vec::new(),
                ranges: Vec::new(),
                readable: Vec::new(),
            },
            notes: Vec::new(),
        };
        proof {
            let so_far = reading.so_far();
            assert(so_far.modules =~= Seq::empty());
            assert(so_far.ranges =~= Seq::empty());
            assert(so_far.readable =~= Seq::empty());
            assert(so_far.notes =~= Seq::empty());
            assert(so_far == ManifestView::empty());
            assert(runs(all@).skip(0) =~= runs(all@));
        }
        let mut i: usize = 0;
        while i < all.len()
            invariant
                i <= all@.len(),
                runs(all@) == lines_of(text@),
                are_pathless(reading.manifest.modules@),
                manifest_in(text@) == applied_all(reading.so_far(), runs(all@).skip(i as int)),
            decreases all@.len() - i,
        {
            let line: &[char] = all[i].as_slice();
            proof {
                let rest = runs(all@).skip(i as int);
                assert(rest[0] == line@);
                assert(rest.drop_first() =~= runs(all@).skip(i + 1));
            }
            let len: usize = line.len();
            let space: usize = find_char(line, ' ', 0);
            if space < len {
                let key = slice_subrange(line, 0, space);
                let value = slice_subrange(line, space + 1, len);
                assert(key@ =~= line@.take(space as int));
                assert(value@ =~= line@.skip(space + 1));
                if let Some(found) = reading.apply(key, value) {
                    return Err(found);
                }
            }
            i = i + 1;
        }
        assert(runs(all@).skip(i as int) =~= Seq::<Seq<char>>::empty());
        let notes = join(&reading.notes);
        let mut manifest = reading.manifest;
        let ghost view = reading.so_far();
        manifest.metadata.notes = notes;
        assert(manifest.says(view));
        Ok(manifest)
    }
}

/// An entry, as a line.
pub open spec fn entry(key: Seq<char>, value: Seq<char>) -> Seq<char> {
    key + " "@ + value
}

/// An entry that may be absent, as a line or none.
pub open spec fn optional_entry(key: Seq<char>, value: Option<Seq<char>>) -> Seq<Seq<char>> {
    match value {
        Some(value) => seq![entry(key, value)],
        None => Seq::empty(),
    }
}

/// Entries of one key, as lines.
pub open spec fn entries(key: Seq<char>, values: Seq<Seq<char>>) -> Seq<Seq<char>> {
    values.map_values(|value: Seq<char>| entry(key, value))
}

/// A step, as it is written.
pub open spec fn step_text(step: (u32, Seq<char>)) -> Seq<char> {
    decimal_text(step.0 as int) + " "@ + step.1
}

/// A module, as it is written.
pub open spec fn module_text(module: (Seq<char>, u64, u64)) -> Seq<char> {
    digits(module.1 as nat, 16) + " "@ + digits(module.2 as nat, 16) + " "@ + module.0
}

/// A range, as it is written. The mark is presence, not a location: where the
/// bytes are is the chunk index's business, and in a delta most of them are not
/// here at all.
pub open spec fn range_text(range: MemoryRange, readable: bool) -> Seq<char> {
    digits(range.address as nat, 16) + " "@ + digits(range.size as nat, 16) + " "@ + decimal_text(
        range.flags as int,
    ) + " "@ + (if readable {
        "y"@
    } else {
        "-"@
    })
}

/// The modules, as they are written.
pub open spec fn module_texts(modules: Seq<(Seq<char>, u64, u64)>) -> Seq<Seq<char>> {
    modules.map_values(|module: (Seq<char>, u64, u64)| module_text(module))
}

/// The ranges, as they are written.
pub open spec fn range_texts(ranges: Seq<MemoryRange>, readable: Seq<bool>) -> Seq<Seq<char>> {
    Seq::new(ranges.len(), |i: int| range_text(ranges[i], readable[i]))
}

/// The entries that every manifest has.
pub open spec fn head_lines(m: MetadataView) -> Seq<Seq<char>> {
    seq![
        entry("version"@, decimal_text(FORMAT_VERSION as int)),
        entry("game_version"@, m.game_version),
        entry("build_id"@, m.build_id),
        entry("label"@, m.label),
        entry("captured_at"@, m.captured_at),
        entry("pid"@, decimal_text(m.pid as int)),
        entry("process_name"@, m.process_name),
        entry(
            "frozen"@,
            if m.frozen {
                "yes"@
            } else {
                "no"@
            },
        ),
    ]
}

/// The step entry's value, where there is one.
pub open spec fn step_value(step: Option<(u32, Seq<char>)>) -> Option<Seq<char>> {
    match step {
        Some(step) => Some(step_text(step)),
        None => None,
    }
}

/// A manifest's lines.
pub open spec fn manifest_lines(view: ManifestView) -> Seq<Seq<char>> {
    let m = view.metadata;
    head_lines(m) + optional_entry("base"@, m.base) + optional_entry("scenario"@, m.scenario)
        + optional_entry("step"@, step_value(m.step)) + entries("satisfies"@, m.satisfies)
        + optional_entry("process_path"@, m.process_path) + entries("note"@, view.notes) + entries(
        "module"@,
        module_texts(view.modules),
    ) + entries("range"@, range_texts(view.ranges, view.readable))
}

/// Lines, each with a line feed behind it.
pub open spec fn flattened(lines: Seq<Seq<char>>) -> Seq<char>
    decreases lines.len(),
{
    if lines.len() == 0 {
        Seq::empty()
    } else {
        flattened(lines.drop_last()) + lines.last() + "\n"@
    }
}

proof fn lemma_flattened_push(lines: Seq<Seq<char>>, line: Seq<char>)
    ensures
        flattened(lines.push(line)) == flattened(lines) + line + "\n"@,
{
    assert(lines.push(line).drop_last() =~= lines);
}

impl Manifest {
    /// What the manifest says, with its notes line by line.
    pub open spec fn lined(self) -> ManifestView {
        ManifestView {
            metadata: self.metadata@,
            modules: placed_modules(self.modules@),
            ranges: self.ranges@,
            readable: self.readable@,
            notes: lines_of(self.metadata@.notes),
        }
    }

    fn push_entry(out: &mut String, key: &str, value: &str, Ghost(lines): Ghost<Seq<Seq<char>>>)
        requires
            old(out)@ == flattened(lines),
        ensures
            final(out)@ == flattened(lines.push(entry(key@, value@))),
    {
        out.append(key);
        out.append(" ");
        out.append(value);
        out.append("\n");
        proof {
            lemma_flattened_push(lines, entry(key@, value@));
            assert(out@ =~= flattened(lines) + entry(key@, value@) + "\n"@);
        }
    }

    fn push_optional(
        out: &mut String,
        key: &str,
        value: &Option<String>,
        Ghost(lines): Ghost<Seq<Seq<char>>>,
    )
        requires
            old(out)@ == flattened(lines),
        ensures
            final(out)@ == flattened(lines + optional_entry(key@, optional(*value))),
    {
        match value {
            Some(value) => {
                Self::push_entry(out, key, value.as_str(), Ghost(lines));
                assert(lines.push(entry(key@, value@)) =~= lines + seq![entry(key@, value@)]);
            },
            None => {
                assert(lines + Seq::<Seq<char>>::empty() =~= lines);
            },
        }
    }

    fn push_satisfies(&self, out: &mut String, Ghost(lines): Ghost<Seq<Seq<char>>>)
        requires
            old(out)@ == flattened(lines),
        ensures
            final(out)@ == flattened(lines + entries("satisfies"@, self.metadata@.satisfies)),
    {
        let ghost values = self.metadata@.satisfies;
        let ghost all = entries("satisfies"@, values);
        let mut i: usize = 0;
        assert(lines + all.take(0) =~= lines);
        while i < self.metadata.satisfies.len()
            invariant
                i <= self.metadata.satisfies@.len(),
                values == self.metadata@.satisfies,
                all == entries("satisfies"@, values),
                out@ == flattened(lines + all.take(i as int)),
            decreases self.metadata.satisfies@.len() - i,
        {
            Self::push_entry(
                out,
                "satisfies",
                self.metadata.satisfies[i].as_str(),
                Ghost(lines + all.take(i as int)),
            );
            assert((lines + all.take(i as int)).push(all[i as int]) =~= lines + all.take(i + 1));
            i = i + 1;
        }
        assert(all.take(i as int) =~= all);
    }

    fn push_notes(&self, out: &mut String, Ghost(before): Ghost<Seq<Seq<char>>>)
        requires
            old(out)@ == flattened(before),
        ensures
            final(out)@ == flattened(before + entries("note"@, lines_of(self.metadata@.notes))),
    {
        let chars = chars_of(self.metadata.notes.as_str());
        let notes = lines(chars.as_slice());
        let ghost all = entries("note"@, runs(notes@));
        let mut i: usize = 0;
        assert(before + all.take(0) =~= before);
        while i < notes.len()
            invariant
                i <= notes@.len(),
                all == entries("note"@, runs(notes@)),
                out@ == flattened(before + all.take(i as int)),
            decreases notes@.len() - i,
        {
            let note = string_of(notes[i].as_slice());
            Self::push_entry(out, "note", note.as_str(), Ghost(before + all.take(i as int)));
            assert(all[i as int] == entry("note"@, note@));
            assert((before + all.take(i as int)).push(all[i as int]) =~= before + all.take(i + 1));
            i = i + 1;
        }
        assert(all.take(i as int) =~= all);
    }

    fn push_modules(&self, out: &mut String, Ghost(before): Ghost<Seq<Seq<char>>>)
        requires
            old(out)@ == flattened(before),
        ensures
            final(out)@ == flattened(
                before + entries("module"@, module_texts(placed_modules(self.modules@))),
            ),
    {
        let ghost all = entries("module"@, module_texts(placed_modules(self.modules@)));
        let mut i: usize = 0;
        assert(before + all.take(0) =~= before);
        while i < self.modules.len()
            invariant
                i <= self.modules@.len(),
                all == entries("module"@, module_texts(placed_modules(self.modules@))),
                out@ == flattened(before + all.take(i as int)),
            decreases self.modules@.len() - i,
        {
            let module: &ModuleInfo = &self.modules[i];
            let mut value = String::new();
            push_digits(&mut value, module.address, 16);
            value.append(" ");
            push_digits(&mut value, module.size, 16);
            value.append(" ");
            value.append(module.name.as_str());
            assert(value@ =~= module_text((module.name@, module.address, module.size)));
            Self::push_entry(out, "module", value.as_str(), Ghost(before + all.take(i as int)));
            assert(all[i as int] == entry("module"@, value@));
            assert((before + all.take(i as int)).push(all[i as int]) =~= before + all.take(i + 1));
            i = i + 1;
        }
        assert(all.take(i as int) =~= all);
    }

    fn push_ranges(&self, out: &mut String, Ghost(before): Ghost<Seq<Seq<char>>>)
        requires
            old(out)@ == flattened(before),
            self.readable@.len() == self.ranges@.len(),
        ensures
            final(out)@ == flattened(
                before + entries("range"@, range_texts(self.ranges@, self.readable@)),
            ),
    {
        let ghost all = entries("range"@, range_texts(self.ranges@, self.readable@));
        let mut i: usize = 0;
        assert(before + all.take(0) =~= before);
        while i < self.ranges.len()
            invariant
                i <= self.ranges@.len(),
                self.readable@.len() == self.ranges@.len(),
                all == entries("range"@, range_texts(self.ranges@, self.readable@)),
                out@ == flattened(before + all.take(i as int)),
            decreases self.ranges@.len() - i,
        {
            let range: MemoryRange = self.ranges[i];
            let mut value = String::new();
            push_digits(&mut value, range.address, 16);
            value.append(" ");
            push_digits(&mut value, range.size, 16);
            value.append(" ");
            push_decimal(&mut value, range.flags);
            value.append(" ");
            value.append(
                if self.readable[i] {
                    "y"
                } else {
                    "-"
                },
            );
            assert(value@ =~= range_text(range, self.readable@[i as int]));
            Self::push_entry(out, "range", value.as_str(), Ghost(before + all.take(i as int)));
            assert(all[i as int] == entry("range"@, value@));
            assert((before + all.take(i as int)).push(all[i as int]) =~= before + all.take(i + 1));
            i = i + 1;
        }
        assert(all.take(i as int) =~= all);
    }

    fn push_head(&self, out: &mut String)
        requires
            old(out)@ == Seq::<char>::empty(),
        ensures
            final(out)@ == flattened(head_lines(self.metadata@)),
    {
        let m: &Metadata = &self.metadata;
        let ghost lines = head_lines(m@);
        let mut version = String::new();
        push_decimal(&mut version, FORMAT_VERSION as u64);
        assert(version@ =~= decimal_text(FORMAT_VERSION as int));
        let mut pid = String::new();
        push_decimal(&mut pid, m.pid as u64);
        assert(pid@ =~= decimal_text(m.pid as int));
        assert(lines.take(0) =~= Seq::<Seq<char>>::empty());
        Self::push_entry(out, "version", version.as_str(), Ghost(lines.take(0)));
        assert(lines.take(0).push(lines[0]) =~= lines.take(1));
        Self::push_entry(out, "game_version", m.game_version.as_str(), Ghost(lines.take(1)));
        assert(lines.take(1).push(lines[1]) =~= lines.take(2));
        Self::push_entry(out, "build_id", m.build_id.as_str(), Ghost(lines.take(2)));
        assert(lines.take(2).push(lines[2]) =~= lines.take(3));
        Self::push_entry(out, "label", m.label.as_str(), Ghost(lines.take(3)));
        assert(lines.take(3).push(lines[3]) =~= lines.take(4));
        Self::push_entry(out, "captured_at", m.captured_at.as_str(), Ghost(lines.take(4)));
        assert(lines.take(4).push(lines[4]) =~= lines.take(5));
        Self::push_entry(out, "pid", pid.as_str(), Ghost(lines.take(5)));
        assert(lines.take(5).push(lines[5]) =~= lines.take(6));
        Self::push_entry(out, "process_name", m.process_name.as_str(), Ghost(lines.take(6)));
        assert(lines.take(6).push(lines[6]) =~= lines.take(7));
        let frozen = if m.frozen {
            "yes"
        } else {
            "no"
        };
        Self::push_entry(out, "frozen", frozen, Ghost(lines.take(7)));
        assert(lines.take(7).push(lines[7]) =~= lines);
    }

    /// The manifest, as text.
    pub fn text(&self) -> (text: String)
        requires
            self.readable@.len() == self.ranges@.len(),
        ensures
            text@ == flattened(manifest_lines(self.lined())),
    {
        let m: &Metadata = &self.metadata;
        let mut out = String::new();
        self.push_head(&mut out);
        let ghost so_far = head_lines(m@);
        Self::push_optional(&mut out, "base", &m.base, Ghost(so_far));
        let ghost so_far = so_far + optional_entry("base"@, m@.base);
        Self::push_optional(&mut out, "scenario", &m.scenario, Ghost(so_far));
        let ghost so_far = so_far + optional_entry("scenario"@, m@.scenario);
        let step = match &m.step {
            Some(step) => {
                let mut value = String::new();
                push_decimal(&mut value, step.index as u64);
                value.append(" ");
                value.append(step.event.as_str());
                assert(value@ =~= step_text((step.index, step.event@)));
                Some(value)
            },
            None => None,
        };
        Self::push_optional(&mut out, "step", &step, Ghost(so_far));
        let ghost so_far = so_far + optional_entry("step"@, step_value(m@.step));
        self.push_satisfies(&mut out, Ghost(so_far));
        let ghost so_far = so_far + entries("satisfies"@, m@.satisfies);
        Self::push_optional(&mut out, "process_path", &m.process_path, Ghost(so_far));
        let ghost so_far = so_far + optional_entry("process_path"@, m@.process_path);
        self.push_notes(&mut out, Ghost(so_far));
        let ghost so_far = so_far + entries("note"@, lines_of(m@.notes));
        self.push_modules(&mut out, Ghost(so_far));
        let ghost so_far = so_far + entries(
            "module"@,
            module_texts(placed_modules(self.modules@)),
        );
        self.push_ranges(&mut out, Ghost(so_far));
        out
    }
}

proof fn lemma_keys_differ()
    ensures
        "game_version"@ != "version"@,
        "build_id"@ != "version"@,
        "build_id"@ != "game_version"@,
        "label"@ != "version"@,
        "label"@ != "game_version"@,
        "label"@ != "build_id"@,
        "captured_at"@ != "version"@,
        "captured_at"@ != "game_version"@,
        "captured_at"@ != "build_id"@,
        "captured_at"@ != "label"@,
        "pid"@ != "version"@,
        "pid"@ != "game_version"@,
        "pid"@ != "build_id"@,
        "pid"@ != "label"@,
        "pid"@ != "captured_at"@,
        "process_name"@ != "version"@,
        "process_name"@ != "game_version"@,
        "process_name"@ != "build_id"@,
        "process_name"@ != "label"@,
        "process_name"@ != "captured_at"@,
        "process_name"@ != "pid"@,
        "frozen"@ != "version"@,
        "frozen"@ != "game_version"@,
        "frozen"@ != "build_id"@,
        "frozen"@ != "label"@,
        "frozen"@ != "captured_at"@,
        "frozen"@ != "pid"@,
        "frozen"@ != "process_name"@,
        "satisfies"@ != "version"@,
        "satisfies"@ != "game_version"@,
        "satisfies"@ != "build_id"@,
        "satisfies"@ != "label"@,
        "satisfies"@ != "captured_at"@,
        "satisfies"@ != "pid"@,
        "satisfies"@ != "process_name"@,
        "satisfies"@ != "frozen"@,
        "base"@ != "version"@,
        "base"@ != "game_version"@,
        "base"@ != "build_id"@,
        "base"@ != "label"@,
        "base"@ != "captured_at"@,
        "base"@ != "pid"@,
        "base"@ != "process_name"@,
        "base"@ != "frozen"@,
        "base"@ != "satisfies"@,
        "scenario"@ != "version"@,
        "scenario"@ != "game_version"@,
        "scenario"@ != "build_id"@,
        "scenario"@ != "label"@,
        "scenario"@ != "captured_at"@,
        "scenario"@ != "pid"@,
        "scenario"@ != "process_name"@,
        "scenario"@ != "frozen"@,
        "scenario"@ != "satisfies"@,
        "scenario"@ != "base"@,
        "step"@ != "version"@,
        "step"@ != "game_version"@,
        "step"@ != "build_id"@,
        "step"@ != "label"@,
        "step"@ != "captured_at"@,
        "step"@ != "pid"@,
        "step"@ != "process_name"@,
        "step"@ != "frozen"@,
        "step"@ != "satisfies"@,
        "step"@ != "base"@,
        "step"@ != "scenario"@,
        "process_path"@ != "version"@,
        "process_path"@ != "game_version"@,
        "process_path"@ != "build_id"@,
        "process_path"@ != "label"@,
        "process_path"@ != "captured_at"@,
        "process_path"@ != "pid"@,
        "process_path"@ != "process_name"@,
        "process_path"@ != "frozen"@,
        "process_path"@ != "satisfies"@,
        "process_path"@ != "base"@,
        "process_path"@ != "scenario"@,
        "process_path"@ != "step"@,
        "note"@ != "version"@,
        "note"@ != "game_version"@,
        "note"@ != "build_id"@,
        "note"@ != "label"@,
        "note"@ != "captured_at"@,
        "note"@ != "pid"@,
        "note"@ != "process_name"@,
        "note"@ != "frozen"@,
        "note"@ != "satisfies"@,
        "note"@ != "base"@,
        "note"@ != "scenario"@,
        "note"@ != "step"@,
        "note"@ != "process_path"@,
        "module"@ != "version"@,
        "module"@ != "game_version"@,
        "module"@ != "build_id"@,
        "module"@ != "label"@,
        "module"@ != "captured_at"@,
        "module"@ != "pid"@,
        "module"@ != "process_name"@,
        "module"@ != "frozen"@,
        "module"@ != "satisfies"@,
        "module"@ != "base"@,
        "module"@ != "scenario"@,
        "module"@ != "step"@,
        "module"@ != "process_path"@,
        "module"@ != "note"@,
        "range"@ != "version"@,
        "range"@ != "game_version"@,
        "range"@ != "build_id"@,
        "range"@ != "label"@,
        "range"@ != "captured_at"@,
        "range"@ != "pid"@,
        "range"@ != "process_name"@,
        "range"@ != "frozen"@,
        "range"@ != "satisfies"@,
        "range"@ != "base"@,
        "range"@ != "scenario"@,
        "range"@ != "step"@,
        "range"@ != "process_path"@,
        "range"@ != "note"@,
        "range"@ != "module"@,
{
    reveal_strlit("version");
    reveal_strlit("game_version");
    reveal_strlit("build_id");
    reveal_strlit("label");
    reveal_strlit("captured_at");
    reveal_strlit("pid");
    reveal_strlit("process_name");
    reveal_strlit("frozen");
    reveal_strlit("satisfies");
    reveal_strlit("base");
    reveal_strlit("scenario");
    reveal_strlit("step");
    reveal_strlit("process_path");
    reveal_strlit("note");
    reveal_strlit("module");
    reveal_strlit("range");
    assert("version"@.len() == 7);
    assert("game_version"@.len() == 12);
    assert("build_id"@.len() == 8);
    assert("label"@.len() == 5);
    assert("captured_at"@.len() == 11);
    assert("pid"@.len() == 3);
    assert("process_name"@.len() == 12);
    assert("frozen"@.len() == 6);
    assert("satisfies"@.len() == 9);
    assert("base"@.len() == 4);
    assert("scenario"@.len() == 8);
    assert("step"@.len() == 4);
    assert("process_path"@.len() == 12);
    assert("note"@.len() == 4);
    assert("module"@.len() == 6);
    assert("range"@.len() == 5);
    assert("process_name"@[0] != "game_version"@[0]);
    assert("scenario"@[0] != "build_id"@[0]);
    assert("step"@[0] != "base"@[0]);
    assert("process_path"@[0] != "game_version"@[0]);
    assert("process_path"@[8] != "process_name"@[8]);
    assert("note"@[0] != "base"@[0]);
    assert("note"@[0] != "step"@[0]);
    assert("module"@[0] != "frozen"@[0]);
    assert("range"@[0] != "label"@[0]);
}

proof fn lemma_keys_plain()
    ensures
        !"version"@.contains(' '),
        !"version"@.contains('\n'),
        !"game_version"@.contains(' '),
        !"game_version"@.contains('\n'),
        !"build_id"@.contains(' '),
        !"build_id"@.contains('\n'),
        !"label"@.contains(' '),
        !"label"@.contains('\n'),
        !"captured_at"@.contains(' '),
        !"captured_at"@.contains('\n'),
        !"pid"@.contains(' '),
        !"pid"@.contains('\n'),
        !"process_name"@.contains(' '),
        !"process_name"@.contains('\n'),
        !"frozen"@.contains(' '),
        !"frozen"@.contains('\n'),
        !"satisfies"@.contains(' '),
        !"satisfies"@.contains('\n'),
        !"base"@.contains(' '),
        !"base"@.contains('\n'),
        !"scenario"@.contains(' '),
        !"scenario"@.contains('\n'),
        !"step"@.contains(' '),
        !"step"@.contains('\n'),
        !"process_path"@.contains(' '),
        !"process_path"@.contains('\n'),
        !"note"@.contains(' '),
        !"note"@.contains('\n'),
        !"module"@.contains(' '),
        !"module"@.contains('\n'),
        !"range"@.contains(' '),
        !"range"@.contains('\n'),
{
    reveal_strlit("version");
    reveal_strlit("game_version");
    reveal_strlit("build_id");
    reveal_strlit("label");
    reveal_strlit("captured_at");
    reveal_strlit("pid");
    reveal_strlit("process_name");
    reveal_strlit("frozen");
    reveal_strlit("satisfies");
    reveal_strlit("base");
    reveal_strlit("scenario");
    reveal_strlit("step");
    reveal_strlit("process_path");
    reveal_strlit("note");
    reveal_strlit("module");
    reveal_strlit("range");
    assert(forall|i: int| 0 <= i < "version"@.len() ==> "version"@[i] != ' ' && "version"@[i] != '\n');
    assert(forall|i: int| 0 <= i < "game_version"@.len() ==> "game_version"@[i] != ' ' && "game_version"@[i] != '\n');
    assert(forall|i: int| 0 <= i < "build_id"@.len() ==> "build_id"@[i] != ' ' && "build_id"@[i] != '\n');
    assert(forall|i: int| 0 <= i < "label"@.len() ==> "label"@[i] != ' ' && "label"@[i] != '\n');
    assert(forall|i: int| 0 <= i < "captured_at"@.len() ==> "captured_at"@[i] != ' ' && "captured_at"@[i] != '\n');
    assert(forall|i: int| 0 <= i < "pid"@.len() ==> "pid"@[i] != ' ' && "pid"@[i] != '\n');
    assert(forall|i: int| 0 <= i < "process_name"@.len() ==> "process_name"@[i] != ' ' && "process_name"@[i] != '\n');
    assert(forall|i: int| 0 <= i < "frozen"@.len() ==> "frozen"@[i] != ' ' && "frozen"@[i] != '\n');
    assert(forall|i: int| 0 <= i < "satisfies"@.len() ==> "satisfies"@[i] != ' ' && "satisfies"@[i] != '\n');
    assert(forall|i: int| 0 <= i < "base"@.len() ==> "base"@[i] != ' ' && "base"@[i] != '\n');
    assert(forall|i: int| 0 <= i < "scenario"@.len() ==> "scenario"@[i] != ' ' && "scenario"@[i] != '\n');
    assert(forall|i: int| 0 <= i < "step"@.len() ==> "step"@[i] != ' ' && "step"@[i] != '\n');
    assert(forall|i: int| 0 <= i < "process_path"@.len() ==> "process_path"@[i] != ' ' && "process_path"@[i] != '\n');
    assert(forall|i: int| 0 <= i < "note"@.len() ==> "note"@[i] != ' ' && "note"@[i] != '\n');
    assert(forall|i: int| 0 <= i < "module"@.len() ==> "module"@[i] != ' ' && "module"@[i] != '\n');
    assert(forall|i: int| 0 <= i < "range"@.len() ==> "range"@[i] != ' ' && "range"@[i] != '\n');
}

/// A text that a line can hold as it is.
pub open spec fn is_plain(text: Seq<char>) -> bool {
    !text.contains('\n') && (text.len() > 0 ==> text.last() != '\r')
}

/// A plain text without white space around it.
pub open spec fn is_bare(text: Seq<char>) -> bool {
    is_plain(text) && trimmed(text, 0) == text
}

/// A manifest that its text can hold as it is: no line feeds inside an entry,
/// and no white space around those that are trimmed.
pub open spec fn is_writable(view: ManifestView) -> bool {
    let m = view.metadata;
    &&& is_plain(m.game_version) && is_plain(m.build_id) && is_plain(m.label)
    &&& is_plain(m.captured_at) && is_plain(m.process_name)
    &&& m.process_path matches Some(path) ==> is_plain(path)
    &&& m.base matches Some(base) ==> is_bare(base)
    &&& m.scenario matches Some(scenario) ==> is_bare(scenario)
    &&& m.step matches Some(step) ==> is_bare(step.1)
    &&& forall|i: int| 0 <= i < m.satisfies.len() ==> is_bare(#[trigger] m.satisfies[i])
    &&& forall|i: int| 0 <= i < view.notes.len() ==> is_plain(#[trigger] view.notes[i])
    &&& forall|i: int| 0 <= i < view.modules.len() ==> is_plain((#[trigger] view.modules[i]).0)
    &&& view.readable.len() == view.ranges.len()
}

proof fn lemma_flattened_front(lines: Seq<Seq<char>>)
    requires
        lines.len() > 0,
    ensures
        flattened(lines) == lines[0] + seq!['\n'] + flattened(lines.drop_first()),
    decreases lines.len(),
{
    reveal_strlit("\n");
    assert("\n"@ =~= seq!['\n']);
    if lines.len() == 1 {
        assert(lines.drop_last() =~= Seq::<Seq<char>>::empty());
        assert(lines.drop_first() =~= Seq::<Seq<char>>::empty());
        assert(flattened(lines.drop_last()) =~= Seq::<char>::empty());
        assert(flattened(lines.drop_first()) =~= Seq::<char>::empty());
        assert(flattened(lines) =~= lines[0] + seq!['\n'] + flattened(lines.drop_first()));
    } else {
        let init = lines.drop_last();
        lemma_flattened_front(init);
        assert(init.drop_first() =~= lines.drop_first().drop_last());
        assert(lines.drop_first().last() == lines.last());
        assert(flattened(lines) =~= lines[0] + seq!['\n'] + flattened(lines.drop_first()));
    }
}

proof fn lemma_lines_back(lines: Seq<Seq<char>>)
    requires
        forall|i: int| 0 <= i < lines.len() ==> is_plain(#[trigger] lines[i]),
    ensures
        lines_of(flattened(lines)) == lines,
    decreases lines.len(),
{
    if lines.len() == 0 {
        assert(lines_of(Seq::<char>::empty()) =~= lines);
    } else {
        lemma_flattened_front(lines);
        let rest = lines.drop_first();
        assert forall|i: int| 0 <= i < rest.len() implies is_plain(#[trigger] rest[i]) by {
            assert(rest[i] == lines[i + 1]);
        }
        lemma_lines_back(rest);
        assert(is_plain(lines[0]));
        a_line_in_front(lines[0], flattened(rest));
        assert(seq![lines[0]] + rest =~= lines);
    }
}

proof fn lemma_applied_split(so_far: ManifestView, one: Seq<Seq<char>>, two: Seq<Seq<char>>)
    ensures
        applied_all(so_far, one + two) == match applied_all(so_far, one) {
            Ok(mid) => applied_all(mid, two),
            Err(found) => Err(found),
        },
    decreases one.len(),
{
    if one.len() == 0 {
        assert(one + two =~= two);
    } else {
        assert((one + two)[0] == one[0]);
        assert((one + two).drop_first() =~= one.drop_first() + two);
        match applied_line(so_far, one[0]) {
            Ok(next) => lemma_applied_split(next, one.drop_first(), two),
            Err(_) => {},
        }
    }
}

proof fn lemma_one(so_far: ManifestView, line: Seq<char>)
    ensures
        applied_all(so_far, seq![line]) == applied_line(so_far, line),
{
    assert(seq![line].drop_first() =~= Seq::<Seq<char>>::empty());
    match applied_line(so_far, line) {
        Ok(next) => {
            assert(applied_all(next, Seq::<Seq<char>>::empty()) == Ok::<ManifestView, u32>(next));
        },
        Err(_) => {},
    }
}

proof fn lemma_entry(so_far: ManifestView, key: Seq<char>, value: Seq<char>)
    requires
        !key.contains(' '),
    ensures
        applied_line(so_far, entry(key, value)) == applied(so_far, key, value),
{
    reveal_strlit(" ");
    let line = entry(key, value);
    let n = key.len() as int;
    assert forall|k: int| 0 <= k < n implies line[k] != ' ' by {
        assert(line[k] == key[k]);
        assert(key.contains(key[k]));
    }
    assert(line[n] == ' ');
    lemma_place_is(line, ' ', 0, n);
    assert(line.take(n) =~= key);
    assert(line.skip(n + 1) =~= value);
}

proof fn lemma_plain_entry(key: Seq<char>, value: Seq<char>)
    requires
        !key.contains('\n'),
        is_plain(value),
    ensures
        is_plain(entry(key, value)),
{
    reveal_strlit(" ");
    let line = entry(key, value);
    if line.contains('\n') {
        let k = line.index_of('\n');
        if k < key.len() {
            assert(key[k] == '\n');
        } else if k > key.len() {
            assert(value[k - key.len() - 1] == '\n');
        }
    }
    if value.len() == 0 {
        assert(line.last() == ' ');
    } else {
        assert(line.last() == value.last());
    }
}

proof fn lemma_digits_plain(n: nat, base: nat)
    requires
        2 <= base <= 16,
    ensures
        digits(n, base).len() > 0,
        forall|i: int|
            0 <= i < digits(n, base).len() ==> {
                let c = #[trigger] digits(n, base)[i];
                c != ' ' && c != '\n' && c != '\r' && !is_white(c)
            },
    decreases n,
{
    if n >= base {
        assert(n / base < n) by (nonlinear_arith)
            requires
                n >= base >= 2,
        ;
        lemma_digits_plain(n / base, base);
        let r = (n % base) as int;
        assert(0 <= r < base) by (nonlinear_arith)
            requires
                r == n % base,
                base >= 2,
        ;
    }
}

/// Text without white space in it, or behind something that is not, trims to
/// itself.
proof fn lemma_trimmed(text: Seq<char>)
    requires
        text.len() > 0,
        !is_white(text[0]),
        !is_white(text.last()),
    ensures
        trimmed(text, 0) == text,
{
    assert(past_white(text, 0) == 0);
    assert(trimmed_end(text, 0, text.len() as int) == text.len());
    assert(text.subrange(0, text.len() as int) =~= text);
}

proof fn lemma_bare_ends(text: Seq<char>)
    requires
        text.len() > 0,
        trimmed(text, 0) == text,
    ensures
        !is_white(text[0]),
        !is_white(text.last()),
{
    let from = past_white(text, 0);
    lemma_past_white(text, 0);
    lemma_trimmed_end(text, from, text.len() as int);
    if is_white(text[0]) {
        assert(from > 0);
    }
}

proof fn lemma_past_white(text: Seq<char>, i: int)
    requires
        0 <= i <= text.len(),
    ensures
        i <= past_white(text, i) <= text.len(),
        i < text.len() && is_white(text[i]) ==> past_white(text, i) > i,
    decreases text.len() - i,
{
    if i < text.len() && is_white(text[i]) {
        lemma_past_white(text, i + 1);
    }
}

proof fn lemma_trimmed_end(text: Seq<char>, i: int, n: int)
    requires
        0 <= i <= n <= text.len(),
    ensures
        i <= trimmed_end(text, i, n) <= n,
        i < n && is_white(text[n - 1]) ==> trimmed_end(text, i, n) < n,
    decreases n - i,
{
    if i < n && is_white(text[n - 1]) {
        lemma_trimmed_end(text, i, n - 1);
    }
}

proof fn lemma_small_back(n: u32)
    ensures
        small_or_zero(decimal_text(n as int)) == n,
        trimmed(decimal_text(n as int), 0) == decimal_text(n as int),
        is_plain(decimal_text(n as int)),
{
    a_number_reads_back(n as u64, 10);
    let text = digits(n as nat, 10);
    lemma_digits_plain(n as nat, 10);
    lemma_trimmed(text);
    if text.contains('\n') {
        let k = text.index_of('\n');
        assert(text[k] != '\n');
    }
}

proof fn lemma_step_back(step: (u32, Seq<char>))
    requires
        is_bare(step.1),
    ensures
        step_of(step_text(step)) == step,
        is_plain(step_text(step)),
{
    reveal_strlit(" ");
    let text = step_text(step);
    let number = digits(step.0 as nat, 10);
    let n = number.len() as int;
    lemma_small_back(step.0);
    lemma_digits_plain(step.0 as nat, 10);
    assert(text[0] == number[0]);
    assert forall|k: int| 0 <= k < n implies text[k] != ' ' by {
        assert(text[k] == number[k]);
    }
    assert(text[n] == ' ');
    if step.1.len() > 0 {
        lemma_bare_ends(step.1);
        assert(text.last() == step.1.last());
        lemma_trimmed(text);
        lemma_place_is(text, ' ', 0, n);
        assert(text.take(n) =~= number);
        assert(text.skip(n + 1) =~= step.1);
    } else {
        // The space in front of the event is trimmed away with it.
        assert(text[n - 1] == number[n - 1]);
        assert(past_white(text, 0) == 0);
        assert(trimmed_end(text, 0, n) == n);
        assert(trimmed_end(text, 0, n + 1) == n);
        assert(text.subrange(0, n) =~= number);
        lemma_place_is(number, ' ', 0, n);
        assert(step.1 =~= Seq::<char>::empty());
    }
    if text.contains('\n') {
        let k = text.index_of('\n');
        if k < n {
            assert(number[k] != '\n');
        } else if k > n {
            assert(step.1[k - n - 1] == '\n');
            assert(step.1.contains('\n'));
        }
    }
}

/// Two texts with a space between them, the first without one, come apart there.
proof fn lemma_first_piece(front: Seq<char>, rest: Seq<char>)
    requires
        !front.contains(' '),
    ensures
        place_of(front + seq![' '] + rest, ' ', 0) == front.len(),
{
    let text = front + seq![' '] + rest;
    assert forall|k: int| 0 <= k < front.len() implies text[k] != ' ' by {
        assert(text[k] == front[k]);
        assert(front.contains(front[k]));
    }
    lemma_place_is(text, ' ', 0, front.len() as int);
}

/// Where a space stands does not depend on what is in front of the search.
proof fn lemma_place_shift(front: Seq<char>, rest: Seq<char>, i: int)
    requires
        0 <= i <= rest.len(),
    ensures
        place_of(front + rest, ' ', front.len() + i) == front.len() + place_of(rest, ' ', i),
    decreases rest.len() - i,
{
    let text = front + rest;
    if i < rest.len() {
        assert(text[front.len() + i] == rest[i]);
        if rest[i] != ' ' {
            lemma_place_shift(front, rest, i + 1);
        }
    }
}

proof fn lemma_no_space(n: nat, base: nat)
    requires
        2 <= base <= 16,
    ensures
        !digits(n, base).contains(' '),
        !digits(n, base).contains('\n'),
{
    lemma_digits_plain(n, base);
    let text = digits(n, base);
    if text.contains(' ') {
        assert(text[text.index_of(' ')] != ' ');
    }
    if text.contains('\n') {
        assert(text[text.index_of('\n')] != '\n');
    }
}

proof fn lemma_module_back(module: (Seq<char>, u64, u64))
    requires
        is_plain(module.0),
    ensures
        module_of(module_text(module)) == module,
        is_plain(module_text(module)),
{
    reveal_strlit(" ");
    assert(" "@ =~= seq![' ']);
    let a = digits(module.1 as nat, 16);
    let b = digits(module.2 as nat, 16);
    let rest = b + seq![' '] + module.0;
    let text = module_text(module);
    assert(text =~= a + seq![' '] + rest);
    lemma_no_space(module.1 as nat, 16);
    lemma_no_space(module.2 as nat, 16);
    lemma_first_piece(a, rest);
    lemma_first_piece(b, module.0);
    let front = a + seq![' '];
    assert(text =~= front + rest);
    lemma_place_shift(front, rest, 0);
    let n = a.len() as int;
    let m = b.len() as int;
    assert(piece_start(text, 0) == 0);
    assert(piece_start(text, 1) == n + 1);
    assert(piece_start(text, 2) == n + 1 + m + 1);
    assert(text.subrange(0, n) =~= a);
    assert(text.subrange(n + 1, n + 1 + m) =~= b);
    assert(text.skip(n + 1 + m + 1) =~= module.0);
    a_number_reads_back(module.1, 16);
    a_number_reads_back(module.2, 16);
    if text.contains('\n') {
        let k = text.index_of('\n');
        if k < n {
            assert(a[k] == '\n');
            assert(a.contains('\n'));
        } else if n < k < n + 1 + m {
            assert(b[k - n - 1] == '\n');
            assert(b.contains('\n'));
        } else if k > n + 1 + m {
            assert(module.0[k - (n + m + 2)] == '\n');
            assert(module.0.contains('\n'));
        }
    }
    if module.0.len() > 0 {
        assert(text.last() == module.0.last());
    } else {
        assert(text.last() == ' ');
    }
}

/// Four texts with spaces between them, none with one inside, come apart there.
proof fn lemma_four_pieces(a: Seq<char>, b: Seq<char>, c: Seq<char>, d: Seq<char>, text: Seq<char>)
    requires
        !a.contains(' '),
        !b.contains(' '),
        !c.contains(' '),
        !d.contains(' '),
        text == a + seq![' '] + (b + seq![' '] + (c + seq![' '] + d)),
    ensures
        piece(text, 0) == Some(a),
        piece(text, 1) == Some(b),
        piece(text, 2) == Some(c),
        piece(text, 3) == Some(d),
{
    let three = c + seq![' '] + d;
    let two = b + seq![' '] + three;
    lemma_first_piece(a, two);
    lemma_first_piece(b, three);
    lemma_first_piece(c, d);
    let n = a.len() as int;
    let m = b.len() as int;
    let l = c.len() as int;
    let front1 = a + seq![' '];
    assert(text =~= front1 + two);
    lemma_place_shift(front1, two, 0);
    assert(piece_start(text, 0) == 0);
    assert(piece_start(text, 1) == n + 1);
    let front2 = front1 + b + seq![' '];
    assert(text =~= front2 + three);
    lemma_place_shift(front2, three, 0);
    assert(piece_start(text, 2) == n + 1 + m + 1);
    let front3 = front2 + c + seq![' '];
    assert(text =~= front3 + d);
    lemma_place_shift(front3, d, 0);
    assert forall|k: int| 0 <= k < d.len() implies d[k] != ' ' by {
        assert(d.contains(d[k]));
    }
    lemma_place_is(d, ' ', 0, d.len() as int);
    assert(piece_start(text, 3) == n + 1 + m + 1 + l + 1);
    assert(text.subrange(0, n) =~= a);
    assert(text.subrange(n + 1, n + 1 + m) =~= b);
    assert(text.subrange(n + m + 2, n + m + 2 + l) =~= c);
    assert(text.subrange(n + m + l + 3, n + m + l + 3 + d.len()) =~= d);
}

proof fn lemma_two_plain(a: Seq<char>, b: Seq<char>)
    requires
        !a.contains('\n'),
        !b.contains('\n'),
    ensures
        !(a + seq![' '] + b).contains('\n'),
{
    let text = a + seq![' '] + b;
    if text.contains('\n') {
        let k = text.index_of('\n');
        if k < a.len() {
            assert(a[k] == '\n');
        } else if k > a.len() {
            assert(b[k - a.len() - 1] == '\n');
        }
    }
}

proof fn lemma_range_back(range: MemoryRange, readable: bool)
    ensures
        range_of(range_text(range, readable)) == (range, readable),
        is_plain(range_text(range, readable)),
{
    reveal_strlit(" ");
    reveal_strlit("y");
    reveal_strlit("-");
    assert(" "@ =~= seq![' ']);
    let a = digits(range.address as nat, 16);
    let b = digits(range.size as nat, 16);
    let c = digits(range.flags as nat, 10);
    let d = if readable {
        "y"@
    } else {
        "-"@
    };
    assert("y"@[0] != "-"@[0]);
    assert(d.len() == 1);
    assert(!d.contains(' ') && !d.contains('\n')) by {
        assert(d[0] != ' ' && d[0] != '\n');
    }
    lemma_no_space(range.address as nat, 16);
    lemma_no_space(range.size as nat, 16);
    lemma_no_space(range.flags as nat, 10);
    let three = c + seq![' '] + d;
    let two = b + seq![' '] + three;
    let text = range_text(range, readable);
    assert(text =~= a + seq![' '] + two);
    lemma_four_pieces(a, b, c, d, text);
    a_number_reads_back(range.address, 16);
    a_number_reads_back(range.size, 16);
    a_number_reads_back(range.flags, 10);
    lemma_two_plain(c, d);
    lemma_two_plain(b, three);
    lemma_two_plain(a, two);
    assert(text.last() == d[0]);
}

proof fn lemma_satisfies(so_far: ManifestView, values: Seq<Seq<char>>)
    requires
        forall|i: int| 0 <= i < values.len() ==> is_bare(#[trigger] values[i]),
    ensures
        applied_all(so_far, entries("satisfies"@, values)) == Ok::<ManifestView, u32>(
            so_far.with(
                MetadataView {
                    satisfies: so_far.metadata.satisfies + values,
                    ..so_far.metadata
                },
            ),
        ),
    decreases values.len(),
{
    let all = entries("satisfies"@, values);
    if values.len() == 0 {
        assert(so_far.metadata.satisfies + values =~= so_far.metadata.satisfies);
    } else {
        lemma_keys_differ();
        lemma_keys_plain();
        let rest = values.drop_first();
        assert(all.drop_first() =~= entries("satisfies"@, rest));
        lemma_entry(so_far, "satisfies"@, values[0]);
        assert(is_bare(values[0]));
        let m = so_far.metadata;
        let next = so_far.with(MetadataView { satisfies: m.satisfies.push(values[0]), ..m });
        assert forall|i: int| 0 <= i < rest.len() implies is_bare(#[trigger] rest[i]) by {
            assert(rest[i] == values[i + 1]);
        }
        lemma_satisfies(next, rest);
        assert(m.satisfies.push(values[0]) + rest =~= m.satisfies + values);
    }
}

proof fn lemma_notes(so_far: ManifestView, values: Seq<Seq<char>>)
    ensures
        applied_all(so_far, entries("note"@, values)) == Ok::<ManifestView, u32>(
            ManifestView { notes: so_far.notes + values, ..so_far },
        ),
    decreases values.len(),
{
    let all = entries("note"@, values);
    if values.len() == 0 {
        assert(so_far.notes + values =~= so_far.notes);
    } else {
        lemma_keys_differ();
        lemma_keys_plain();
        let rest = values.drop_first();
        assert(all.drop_first() =~= entries("note"@, rest));
        lemma_entry(so_far, "note"@, values[0]);
        let next = ManifestView { notes: so_far.notes.push(values[0]), ..so_far };
        lemma_notes(next, rest);
        assert(so_far.notes.push(values[0]) + rest =~= so_far.notes + values);
    }
}

proof fn lemma_modules(so_far: ManifestView, modules: Seq<(Seq<char>, u64, u64)>)
    requires
        forall|i: int| 0 <= i < modules.len() ==> is_plain((#[trigger] modules[i]).0),
    ensures
        applied_all(so_far, entries("module"@, module_texts(modules))) == Ok::<ManifestView, u32>(
            ManifestView { modules: so_far.modules + modules, ..so_far },
        ),
    decreases modules.len(),
{
    let all = entries("module"@, module_texts(modules));
    if modules.len() == 0 {
        assert(so_far.modules + modules =~= so_far.modules);
    } else {
        lemma_keys_differ();
        lemma_keys_plain();
        let rest = modules.drop_first();
        assert(all.drop_first() =~= entries("module"@, module_texts(rest)));
        assert(all[0] == entry("module"@, module_text(modules[0])));
        lemma_entry(so_far, "module"@, module_text(modules[0]));
        lemma_module_back(modules[0]);
        let next = ManifestView { modules: so_far.modules.push(modules[0]), ..so_far };
        assert forall|i: int| 0 <= i < rest.len() implies is_plain((#[trigger] rest[i]).0) by {
            assert(rest[i] == modules[i + 1]);
        }
        lemma_modules(next, rest);
        assert(so_far.modules.push(modules[0]) + rest =~= so_far.modules + modules);
    }
}

proof fn lemma_ranges(so_far: ManifestView, ranges: Seq<MemoryRange>, readable: Seq<bool>)
    requires
        ranges.len() == readable.len(),
    ensures
        applied_all(so_far, entries("range"@, range_texts(ranges, readable))) == Ok::<
            ManifestView,
            u32,
        >(
            ManifestView {
                ranges: so_far.ranges + ranges,
                readable: so_far.readable + readable,
                ..so_far
            },
        ),
    decreases ranges.len(),
{
    let all = entries("range"@, range_texts(ranges, readable));
    if ranges.len() == 0 {
        assert(so_far.ranges + ranges =~= so_far.ranges);
        assert(so_far.readable + readable =~= so_far.readable);
    } else {
        lemma_keys_differ();
        lemma_keys_plain();
        let rest = ranges.drop_first();
        let marks = readable.drop_first();
        assert(all.drop_first() =~= entries("range"@, range_texts(rest, marks)));
        assert(all[0] == entry("range"@, range_text(ranges[0], readable[0])));
        lemma_entry(so_far, "range"@, range_text(ranges[0], readable[0]));
        lemma_range_back(ranges[0], readable[0]);
        let next = ManifestView {
            ranges: so_far.ranges.push(ranges[0]),
            readable: so_far.readable.push(readable[0]),
            ..so_far
        };
        lemma_ranges(next, rest, marks);
        assert(so_far.ranges.push(ranges[0]) + rest =~= so_far.ranges + ranges);
        assert(so_far.readable.push(readable[0]) + marks =~= so_far.readable + readable);
    }
}

proof fn lemma_head(m: MetadataView)
    ensures
        applied_all(ManifestView::empty(), head_lines(m)) == Ok::<ManifestView, u32>(
            ManifestView::empty().with(
                MetadataView {
                    game_version: m.game_version,
                    build_id: m.build_id,
                    label: m.label,
                    captured_at: m.captured_at,
                    pid: m.pid,
                    process_name: m.process_name,
                    frozen: m.frozen,
                    ..blank()
                },
            ),
        ),
{
    lemma_keys_differ();
    lemma_keys_plain();
    reveal_strlit("yes");
    reveal_strlit("no");
    let v0 = ManifestView::empty();
    let lines = head_lines(m);
    lemma_small_back(FORMAT_VERSION);
    lemma_small_back(m.pid);
    lemma_entry(v0, "version"@, decimal_text(FORMAT_VERSION as int));
    let v2 = v0.with(MetadataView { game_version: m.game_version, ..v0.metadata });
    lemma_entry(v0, "game_version"@, m.game_version);
    let v3 = v2.with(MetadataView { build_id: m.build_id, ..v2.metadata });
    lemma_entry(v2, "build_id"@, m.build_id);
    let v4 = v3.with(MetadataView { label: m.label, ..v3.metadata });
    lemma_entry(v3, "label"@, m.label);
    let v5 = v4.with(MetadataView { captured_at: m.captured_at, ..v4.metadata });
    lemma_entry(v4, "captured_at"@, m.captured_at);
    let v6 = v5.with(MetadataView { pid: m.pid, ..v5.metadata });
    lemma_entry(v5, "pid"@, decimal_text(m.pid as int));
    let v7 = v6.with(MetadataView { process_name: m.process_name, ..v6.metadata });
    lemma_entry(v6, "process_name"@, m.process_name);
    let frozen = if m.frozen {
        "yes"@
    } else {
        "no"@
    };
    lemma_trimmed(frozen);
    assert("yes"@.len() != "no"@.len());
    let v8 = v7.with(MetadataView { frozen: m.frozen, ..v7.metadata });
    lemma_entry(v7, "frozen"@, frozen);
    assert(lines.skip(8) =~= Seq::<Seq<char>>::empty());
    assert(lines.drop_first() =~= lines.skip(1));
    assert(lines.skip(1).drop_first() =~= lines.skip(2));
    assert(lines.skip(2).drop_first() =~= lines.skip(3));
    assert(lines.skip(3).drop_first() =~= lines.skip(4));
    assert(lines.skip(4).drop_first() =~= lines.skip(5));
    assert(lines.skip(5).drop_first() =~= lines.skip(6));
    assert(lines.skip(6).drop_first() =~= lines.skip(7));
    assert(lines.skip(7).drop_first() =~= lines.skip(8));
    assert(applied_all(v8, lines.skip(8)) == Ok::<ManifestView, u32>(v8));
    assert(applied_all(v7, lines.skip(7)) == Ok::<ManifestView, u32>(v8));
    assert(applied_all(v6, lines.skip(6)) == Ok::<ManifestView, u32>(v8));
    assert(applied_all(v5, lines.skip(5)) == Ok::<ManifestView, u32>(v8));
    assert(applied_all(v4, lines.skip(4)) == Ok::<ManifestView, u32>(v8));
    assert(applied_all(v3, lines.skip(3)) == Ok::<ManifestView, u32>(v8));
    assert(applied_all(v2, lines.skip(2)) == Ok::<ManifestView, u32>(v8));
    assert(applied_all(v0, lines.skip(1)) == Ok::<ManifestView, u32>(v8));
}

proof fn lemma_optional(so_far: ManifestView, key: Seq<char>, value: Option<Seq<char>>)
    requires
        !key.contains(' '),
    ensures
        applied_all(so_far, optional_entry(key, value)) == match value {
            Some(value) => applied(so_far, key, value),
            None => Ok::<ManifestView, u32>(so_far),
        },
{
    if value is Some {
        lemma_entry(so_far, key, value->0);
        lemma_one(so_far, entry(key, value->0));
    }
}

proof fn lemma_all_plain(view: ManifestView)
    requires
        is_writable(view),
    ensures
        forall|i: int|
            0 <= i < manifest_lines(view).len() ==> is_plain(#[trigger] manifest_lines(view)[i]),
{
    lemma_keys_plain();
    reveal_strlit("yes");
    reveal_strlit("no");
    let m = view.metadata;
    lemma_small_back(FORMAT_VERSION);
    lemma_small_back(m.pid);
    let frozen = if m.frozen {
        "yes"@
    } else {
        "no"@
    };
    assert(!frozen.contains('\n')) by {
        if frozen.contains('\n') {
            assert(frozen[frozen.index_of('\n')] == '\n');
        }
    }
    lemma_plain_entry("version"@, decimal_text(FORMAT_VERSION as int));
    lemma_plain_entry("game_version"@, m.game_version);
    lemma_plain_entry("build_id"@, m.build_id);
    lemma_plain_entry("label"@, m.label);
    lemma_plain_entry("captured_at"@, m.captured_at);
    lemma_plain_entry("pid"@, decimal_text(m.pid as int));
    lemma_plain_entry("process_name"@, m.process_name);
    lemma_plain_entry("frozen"@, frozen);
    if m.base is Some {
        lemma_plain_entry("base"@, m.base->0);
    }
    if m.scenario is Some {
        lemma_plain_entry("scenario"@, m.scenario->0);
    }
    if m.step is Some {
        lemma_step_back(m.step->0);
        lemma_plain_entry("step"@, step_text(m.step->0));
    }
    if m.process_path is Some {
        lemma_plain_entry("process_path"@, m.process_path->0);
    }
    let one = head_lines(m);
    let two = optional_entry("base"@, m.base);
    let three = optional_entry("scenario"@, m.scenario);
    let four = optional_entry("step"@, step_value(m.step));
    let five = entries("satisfies"@, m.satisfies);
    let six = optional_entry("process_path"@, m.process_path);
    let seven = entries("note"@, view.notes);
    let eight = entries("module"@, module_texts(view.modules));
    let nine = entries("range"@, range_texts(view.ranges, view.readable));
    assert forall|i: int| 0 <= i < five.len() implies is_plain(#[trigger] five[i]) by {
        assert(is_bare(m.satisfies[i]));
        lemma_plain_entry("satisfies"@, m.satisfies[i]);
    }
    assert forall|i: int| 0 <= i < seven.len() implies is_plain(#[trigger] seven[i]) by {
        lemma_plain_entry("note"@, view.notes[i]);
    }
    assert forall|i: int| 0 <= i < eight.len() implies is_plain(#[trigger] eight[i]) by {
        lemma_module_back(view.modules[i]);
        lemma_plain_entry("module"@, module_text(view.modules[i]));
    }
    assert forall|i: int| 0 <= i < nine.len() implies is_plain(#[trigger] nine[i]) by {
        lemma_range_back(view.ranges[i], view.readable[i]);
        lemma_plain_entry("range"@, range_text(view.ranges[i], view.readable[i]));
    }
    lemma_all_of(one, two);
    lemma_all_of(one + two, three);
    lemma_all_of(one + two + three, four);
    lemma_all_of(one + two + three + four, five);
    lemma_all_of(one + two + three + four + five, six);
    lemma_all_of(one + two + three + four + five + six, seven);
    lemma_all_of(one + two + three + four + five + six + seven, eight);
    lemma_all_of(one + two + three + four + five + six + seven + eight, nine);
}

spec fn all_plain(lines: Seq<Seq<char>>) -> bool {
    forall|i: int| 0 <= i < lines.len() ==> is_plain(#[trigger] lines[i])
}

proof fn lemma_all_of(one: Seq<Seq<char>>, two: Seq<Seq<char>>)
    requires
        all_plain(one),
        all_plain(two),
    ensures
        all_plain(one + two),
{
    assert forall|i: int| 0 <= i < (one + two).len() implies is_plain(#[trigger] (one + two)[i]) by {
        if i < one.len() {
            assert((one + two)[i] == one[i]);
        } else {
            assert((one + two)[i] == two[i - one.len()]);
        }
    }
}

/// What a manifest was written from, it reads back as: every entry, in order,
/// with the notes line by line.
pub proof fn a_manifest_reads_back(view: ManifestView)
    requires
        is_writable(view),
    ensures
        manifest_in(flattened(manifest_lines(view))) == Ok::<ManifestView, u32>(
            view.with(MetadataView { notes: Seq::empty(), ..view.metadata }),
        ),
{
    lemma_all_plain(view);
    lemma_lines_back(manifest_lines(view));
    lemma_keys_differ();
    lemma_keys_plain();
    let m = view.metadata;
    let one = head_lines(m);
    let two = optional_entry("base"@, m.base);
    let three = optional_entry("scenario"@, m.scenario);
    let four = optional_entry("step"@, step_value(m.step));
    let five = entries("satisfies"@, m.satisfies);
    let six = optional_entry("process_path"@, m.process_path);
    let seven = entries("note"@, view.notes);
    let eight = entries("module"@, module_texts(view.modules));
    let nine = entries("range"@, range_texts(view.ranges, view.readable));
    let v0 = ManifestView::empty();
    lemma_applied_split(v0, one + two + three + four + five + six + seven + eight, nine);
    lemma_applied_split(v0, one + two + three + four + five + six + seven, eight);
    lemma_applied_split(v0, one + two + three + four + five + six, seven);
    lemma_applied_split(v0, one + two + three + four + five, six);
    lemma_applied_split(v0, one + two + three + four, five);
    lemma_applied_split(v0, one + two + three, four);
    lemma_applied_split(v0, one + two, three);
    lemma_applied_split(v0, one, two);
    lemma_head(m);
    let m1 = MetadataView {
        game_version: m.game_version,
        build_id: m.build_id,
        label: m.label,
        captured_at: m.captured_at,
        pid: m.pid,
        process_name: m.process_name,
        frozen: m.frozen,
        ..blank()
    };
    let v1 = v0.with(m1);
    lemma_optional(v1, "base"@, m.base);
    let m2 = MetadataView { base: m.base, ..m1 };
    let v2 = v0.with(m2);
    assert(applied_all(v1, two) == Ok::<ManifestView, u32>(v2));
    lemma_optional(v2, "scenario"@, m.scenario);
    let m3 = MetadataView { scenario: m.scenario, ..m2 };
    let v3 = v0.with(m3);
    assert(applied_all(v2, three) == Ok::<ManifestView, u32>(v3));
    lemma_optional(v3, "step"@, step_value(m.step));
    if m.step is Some {
        lemma_step_back(m.step->0);
    }
    let m4 = MetadataView { step: m.step, ..m3 };
    let v4 = v0.with(m4);
    assert(applied_all(v3, four) == Ok::<ManifestView, u32>(v4));
    lemma_satisfies(v4, m.satisfies);
    assert(Seq::<Seq<char>>::empty() + m.satisfies =~= m.satisfies);
    let m5 = MetadataView { satisfies: m.satisfies, ..m4 };
    let v5 = v0.with(m5);
    lemma_optional(v5, "process_path"@, m.process_path);
    let m6 = MetadataView { process_path: m.process_path, ..m5 };
    let v6 = v0.with(m6);
    assert(applied_all(v5, six) == Ok::<ManifestView, u32>(v6));
    lemma_notes(v6, view.notes);
    assert(Seq::<Seq<char>>::empty() + view.notes =~= view.notes);
    let v7 = ManifestView { notes: view.notes, ..v6 };
    lemma_modules(v7, view.modules);
    assert(Seq::<(Seq<char>, u64, u64)>::empty() + view.modules =~= view.modules);
    let v8 = ManifestView { modules: view.modules, ..v7 };
    lemma_ranges(v8, view.ranges, view.readable);
    assert(Seq::<MemoryRange>::empty() + view.ranges =~= view.ranges);
    assert(Seq::<bool>::empty() + view.readable =~= view.readable);
}

proof fn lemma_joined_front(line: Seq<char>, rest: Seq<Seq<char>>)
    requires
        rest.len() > 0,
    ensures
        joined(seq![line] + rest) == line + seq!['\n'] + joined(rest),
    decreases rest.len(),
{
    let all = seq![line] + rest;
    assert(all.last() == rest.last());
    if rest.len() == 1 {
        assert(all.drop_last() =~= seq![line]);
        assert(joined(seq![line]) == line);
    } else {
        assert(all.drop_last() =~= seq![line] + rest.drop_last());
        lemma_joined_front(line, rest.drop_last());
        assert(joined(all) =~= line + seq!['\n'] + joined(rest));
    }
}

/// A text that does not end in a line break, and whose line breaks are line feeds
/// alone.
pub open spec fn is_lines(text: Seq<char>) -> bool {
    &&& text.len() > 0 ==> text.last() != '\n'
    &&& forall|i: int, j: int|
        0 <= i && j == i + 1 && j < text.len() && #[trigger] text[i] == '\r' ==> #[trigger] text[j]
            != '\n'
}

/// The lines of such a text, put together again, are the text.
pub proof fn lines_join_again(text: Seq<char>)
    requires
        is_lines(text),
    ensures
        joined(lines_of(text)) == text,
{
    if text.len() == 0 {
        assert(joined(lines_of(text)) =~= text);
    } else {
        lemma_lines_join(text, 0);
        assert(text.skip(0) =~= text);
    }
}

proof fn lemma_lines_join(text: Seq<char>, i: int)
    requires
        is_lines(text),
        0 <= i < text.len(),
    ensures
        lines_from(text, i).len() > 0,
        joined(lines_from(text, i)) == text.skip(i),
    decreases text.len() - i,
{
    lemma_place_of(text, '\n', i);
    let end = place_of(text, '\n', i);
    if end < text.len() {
        assert(end + 1 < text.len());
        lemma_lines_join(text, end + 1);
        let line = text.subrange(i, end);
        assert(chomped(line) == line) by {
            if line.len() > 0 {
                assert(line.last() == text[end - 1]);
                assert(text[end] == '\n');
            }
        }
        lemma_joined_front(line, lines_from(text, end + 1));
        assert(line + seq!['\n'] + text.skip(end + 1) =~= text.skip(i));
    }
}

/// A manifest gives back the metadata it was written from, the notes included,
/// where their line breaks are line feeds and they do not end in one.
pub proof fn a_manifest_gives_its_metadata_back(view: ManifestView)
    requires
        is_writable(view),
        view.notes == lines_of(view.metadata.notes),
        is_lines(view.metadata.notes),
    ensures
        manifest_in(flattened(manifest_lines(view))) matches Ok(read) && (MetadataView {
            notes: joined(read.notes),
            ..read.metadata
        }) == view.metadata,
{
    a_manifest_reads_back(view);
    lines_join_again(view.metadata.notes);
}

} // verus!
