//! What a running process has mapped, as `/proc/<pid>/maps` says.
use vstd::prelude::*;
use vstd::slice::slice_subrange;

use crate::memory::flags::{EXECUTE, PATH, READ, WRITE};
use crate::memory::{MemoryRange, ModuleInfo};
use crate::text::{
    begins_with, chars_at, chars_of, contains_text, find_char, lines, lines_of, number_of, occurs,
    owned, parse_number, past_white, place_of, runs, same, same_chars, skip_white, skip_word,
    stands_at, starts_with, string_of, trim, trimmed, trimmed_end, white, word_end,
};

verus! {

/// One line of `/proc/<pid>/maps`.
pub struct Mapping {
    pub address: u64,
    pub size: u64,
    pub flags: u64,
    /// Offset into the backing file, meaningless without `path`.
    pub file_offset: u64,
    pub path: Option<String>,
}

/// What a [`Mapping`] says.
pub struct MappingView {
    pub address: u64,
    pub size: u64,
    pub flags: u64,
    pub file_offset: u64,
    pub path: Option<Seq<char>>,
}

impl View for Mapping {
    type V = MappingView;

    open spec fn view(&self) -> MappingView {
        MappingView {
            address: self.address,
            size: self.size,
            flags: self.flags,
            file_offset: self.file_offset,
            path: match self.path {
                Some(path) => Some(path@),
                None => None,
            },
        }
    }
}

/// The path without the slashes behind it.
pub open spec fn without_slashes(path: Seq<char>) -> Seq<char>
    decreases path.len(),
{
    if path.len() > 0 && path.last() == '/' {
        without_slashes(path.drop_last())
    } else {
        path
    }
}

/// The place just past the last slash, or the start.
pub open spec fn past_slash(path: Seq<char>, n: int) -> int
    decreases n,
{
    if n <= 0 {
        0
    } else if path[n - 1] == '/' {
        n
    } else {
        past_slash(path, n - 1)
    }
}

pub proof fn lemma_without_slashes(path: Seq<char>)
    ensures
        without_slashes(path).len() <= path.len(),
        without_slashes(path) == path.take(without_slashes(path).len() as int),
        without_slashes(path).len() > 0 ==> without_slashes(path).last() != '/',
    decreases path.len(),
{
    if path.len() > 0 && path.last() == '/' {
        lemma_without_slashes(path.drop_last());
        assert(path.drop_last().take(without_slashes(path).len() as int) =~= path.take(
            without_slashes(path).len() as int,
        ));
    } else {
        assert(path.take(path.len() as int) =~= path);
    }
}

pub proof fn lemma_past_slash(path: Seq<char>, n: int)
    requires
        0 <= n <= path.len(),
    ensures
        0 <= past_slash(path, n) <= n,
    decreases n,
{
    if n > 0 && path[n - 1] != '/' {
        lemma_past_slash(path, n - 1);
    }
}

/// The last component of a path, if it is a name: slashes behind it and `.`
/// components do not count, and `..` is no name.
pub open spec fn file_name_of(path: Seq<char>) -> Option<Seq<char>>
    decreases path.len(),
{
    let kept = without_slashes(path);
    let from = past_slash(kept, kept.len() as int);
    let last = kept.skip(from);
    proof {
        lemma_without_slashes(path);
        lemma_past_slash(kept, kept.len() as int);
    }
    if last.len() == 0 || last == seq!['.', '.'] {
        None
    } else if last == seq!['.'] {
        if from == 0 {
            None
        } else {
            file_name_of(kept.take(from))
        }
    } else {
        Some(last)
    }
}

/// The last component of a path, if it is a name.
pub fn file_name(path: &[char]) -> (name: Option<&[char]>)
    ensures
        file_name_of(path@) == match name {
            Some(name) => Some(name@),
            None => None,
        },
    decreases path@.len(),
{
    let mut n: usize = path.len();
    assert(path@.take(n as int) =~= path@);
    while n > 0 && path[n - 1] == '/'
        invariant
            n <= path@.len(),
            without_slashes(path@) == without_slashes(path@.take(n as int)),
        decreases n,
    {
        assert(path@.take(n as int).drop_last() =~= path@.take(n - 1));
        n = n - 1;
    }
    let ghost kept = path@.take(n as int);
    assert(without_slashes(path@) == kept);
    let mut from: usize = n;
    while from > 0 && path[from - 1] != '/'
        invariant
            from <= n <= path@.len(),
            kept == path@.take(n as int),
            past_slash(kept, n as int) == past_slash(kept, from as int),
        decreases from,
    {
        from = from - 1;
    }
    let last = slice_subrange(path, from, n);
    assert(last@ =~= kept.skip(from as int));
    if last.len() == 0 {
        return None;
    }
    if last.len() == 2 && last[0] == '.' && last[1] == '.' {
        assert(last@ =~= seq!['.', '.']);
        return None;
    }
    assert(last@ != seq!['.', '.']) by {
        if last@ == seq!['.', '.'] {
            assert(last@[0] == '.');
            assert(last@[1] == '.');
        }
    }
    if last.len() == 1 && last[0] == '.' {
        assert(last@ =~= seq!['.']);
        if from == 0 {
            return None;
        }
        let rest = slice_subrange(path, 0, from);
        assert(rest@ =~= kept.take(from as int));
        return file_name(rest);
    }
    assert(last@ != seq!['.']) by {
        if last@ == seq!['.'] {
            assert(last@[0] == '.');
        }
    }
    Some(last)
}

impl MappingView {
    /// Mappings that cannot be read as ordinary memory, or that hang when tried.
    pub open spec fn special(self) -> bool {
        match self.path {
            Some(path) => {
                ||| begins_with(path, "/dev/"@)
                ||| begins_with(path, "[vvar"@)
                ||| path == "[vsyscall]"@
                ||| begins_with(path, "/memfd:wine"@)
            },
            None => false,
        }
    }

    /// The name of the file behind the mapping.
    pub open spec fn file(self) -> Option<Seq<char>> {
        match self.path {
            Some(path) => file_name_of(path),
            None => None,
        }
    }

    pub open spec fn range(self) -> MemoryRange {
        MemoryRange { address: self.address, size: self.size, flags: self.flags }
    }
}

impl Mapping {
    pub fn readable(&self) -> (readable: bool)
        ensures
            readable == (self.flags & READ != 0),
    {
        self.flags & READ != 0
    }

    /// Mappings that cannot be read as ordinary memory, or that hang when
    /// tried. Device mappings are the game's GPU buffers under Proton.
    pub fn is_special(&self) -> (special: bool)
        ensures
            special == self@.special(),
    {
        match &self.path {
            Some(path) => {
                let path = path.as_str();
                starts_with(path, "/dev/") || starts_with(path, "[vvar") || same(
                    path,
                    "[vsyscall]",
                ) || starts_with(path, "/memfd:wine")
            },
            None => false,
        }
    }

    /// The name of the file behind the mapping.
    pub fn file_name(&self) -> (name: Option<String>)
        ensures
            self@.file() == match name {
                Some(name) => Some(name@),
                None => None,
            },
    {
        match &self.path {
            Some(path) => {
                let chars = chars_of(path.as_str());
                match file_name(chars.as_slice()) {
                    Some(name) => Some(string_of(name)),
                    None => None,
                }
            },
            None => None,
        }
    }

    /// The range as the runtime would report it.
    pub fn to_range(&self) -> (range: MemoryRange)
        ensures
            range == self@.range(),
    {
        MemoryRange { address: self.address, size: self.size, flags: self.flags }
    }
}

/// Where the `k`th field of a line begins.
pub open spec fn field_start(line: Seq<char>, k: int) -> int
    decreases k, 0int,
{
    if k <= 0 {
        past_white(line, 0)
    } else {
        past_white(line, field_end(line, k - 1))
    }
}

/// Where the `k`th field of a line ends.
pub open spec fn field_end(line: Seq<char>, k: int) -> int
    decreases k, 1int,
{
    word_end(line, field_start(line, k))
}

/// The `k`th field of a line, which is empty where there are not so many.
pub open spec fn field(line: Seq<char>, k: int) -> Seq<char> {
    line.subrange(field_start(line, k), field_end(line, k))
}

/// Whether the permissions have `c` in place `k`.
pub open spec fn permits(permissions: Seq<char>, k: int, c: char) -> bool {
    &&& k < permissions.len()
    &&& permissions[k] == c
    &&& forall|j: int| 0 <= j < k ==> (#[trigger] permissions[j] as u32) < 0x80
}

/// The bits that the permissions come to.
pub open spec fn permission_bits(permissions: Seq<char>, has_path: bool) -> u64 {
    let r: u64 = if permits(permissions, 0, 'r') {
        READ
    } else {
        0
    };
    let w: u64 = if permits(permissions, 1, 'w') {
        WRITE
    } else {
        0
    };
    let x: u64 = if permits(permissions, 2, 'x') {
        EXECUTE
    } else {
        0
    };
    let p: u64 = if has_path {
        PATH
    } else {
        0
    };
    r | w | x | p
}

/// The two addresses of a mapping, where the field is two of them with a hyphen
/// between.
pub open spec fn bounds_of(field: Seq<char>) -> Option<(u64, u64)> {
    let dash = place_of(field, '-', 0);
    if dash >= field.len() {
        None
    } else {
        match (number_of(field.take(dash), 16), number_of(field.skip(dash + 1), 16)) {
            (Some(start), Some(end)) => Some((start, end)),
            _ => None,
        }
    }
}

/// The mapping that a line describes, if it does.
///
/// The path is the sixth field and may itself contain spaces, so it is whatever
/// remains of the line.
pub open spec fn mapping_of(line: Seq<char>) -> Option<MappingView> {
    if field_start(line, 1) >= line.len() || field_start(line, 2) >= line.len() {
        None
    } else {
        match (bounds_of(field(line, 0)), number_of(field(line, 2), 16)) {
            (Some((start, end)), Some(file_offset)) => {
                let path = trimmed(line, field_end(line, 4));
                Some(
                    MappingView {
                        address: start,
                        size: if end < start {
                            0
                        } else {
                            (end - start) as u64
                        },
                        flags: permission_bits(field(line, 1), path.len() > 0),
                        file_offset,
                        path: if path.len() > 0 {
                            Some(path)
                        } else {
                            None
                        },
                    },
                )
            },
            _ => None,
        }
    }
}

fn parse_bounds(field: &[char]) -> (bounds: Option<(u64, u64)>)
    ensures
        bounds == bounds_of(field@),
{
    let dash: usize = find_char(field, '-', 0);
    if dash >= field.len() {
        return None;
    }
    let before = slice_subrange(field, 0, dash);
    let behind = slice_subrange(field, dash + 1, field.len());
    assert(before@ =~= field@.take(dash as int));
    assert(behind@ =~= field@.skip(dash + 1));
    match (parse_number(before, 16), parse_number(behind, 16)) {
        (Some(start), Some(end)) => Some((start, end)),
        _ => None,
    }
}

fn is_plain(c: char) -> (plain: bool)
    ensures
        plain == ((c as u32) < 0x80),
{
    (c as u32) < 0x80
}

fn parse_bits(permissions: &[char], has_path: bool) -> (bits: u64)
    ensures
        bits == permission_bits(permissions@, has_path),
{
    let len: usize = permissions.len();
    let plain0 = len > 0 && is_plain(permissions[0]);
    let plain1 = plain0 && len > 1 && is_plain(permissions[1]);
    let r: u64 = if len > 0 && permissions[0] == 'r' {
        READ
    } else {
        0
    };
    let w: u64 = if len > 1 && plain0 && permissions[1] == 'w' {
        WRITE
    } else {
        0
    };
    let x: u64 = if len > 2 && plain1 && permissions[2] == 'x' {
        EXECUTE
    } else {
        0
    };
    let p: u64 = if has_path {
        PATH
    } else {
        0
    };
    proof {
        let s = permissions@;
        if len > 1 && !plain0 {
            assert(s[0] as u32 >= 0x80);
        }
        if len > 2 && !plain1 {
            assert(s[0] as u32 >= 0x80 || s[1] as u32 >= 0x80);
        }
    }
    r | w | x | p
}

/// Parses a line of `/proc/<pid>/maps`.
pub fn parse_mapping(line: &str) -> (mapping: Option<Mapping>)
    ensures
        mapping_of(line@) == match mapping {
            Some(mapping) => Some(mapping@),
            None => None,
        },
{
    let chars = chars_of(line);
    let text: &[char] = chars.as_slice();
    let mut starts: Vec<usize> = Vec::new();
    let mut ends: Vec<usize> = Vec::new();
    let mut at: usize = 0;
    let mut k: usize = 0;
    while k < 5
        invariant
            k <= 5,
            text@ == line@,
            at <= text@.len(),
            starts@.len() == k,
            ends@.len() == k,
            at == if k == 0 {
                0
            } else {
                field_end(line@, k - 1)
            },
            forall|j: int|
                0 <= j < k ==> #[trigger] starts@[j] == field_start(line@, j) && ends@[j]
                    == field_end(line@, j) && starts@[j] <= ends@[j] <= text@.len(),
        decreases 5 - k,
    {
        let start: usize = skip_white(text, at);
        let end: usize = skip_word(text, start);
        assert(start == field_start(line@, k as int));
        assert(end == field_end(line@, k as int));
        starts.push(start);
        ends.push(end);
        at = end;
        k = k + 1;
    }
    assert(starts@[0] == field_start(line@, 0));
    assert(starts@[1] == field_start(line@, 1));
    assert(starts@[2] == field_start(line@, 2));
    assert(starts@[4] == field_start(line@, 4));
    if starts[1] >= text.len() || starts[2] >= text.len() {
        return None;
    }
    let (start, end) = match parse_bounds(slice_subrange(text, starts[0], ends[0])) {
        Some(bounds) => bounds,
        None => {
            return None;
        },
    };
    let file_offset: u64 = match parse_number(slice_subrange(text, starts[2], ends[2]), 16) {
        Some(number) => number,
        None => {
            return None;
        },
    };
    let rest = trim(text, ends[4]);
    let flags: u64 = parse_bits(slice_subrange(text, starts[1], ends[1]), rest.len() > 0);
    Some(
        Mapping {
            address: start,
            size: if end < start {
                0
            } else {
                end - start
            },
            flags,
            file_offset,
            path: if rest.len() > 0 {
                Some(string_of(rest))
            } else {
                None
            },
        },
    )
}

/// What a [`ModuleInfo`] says.
pub struct ModuleView {
    pub name: Seq<char>,
    pub address: u64,
    pub size: int,
    pub path: Option<Seq<char>>,
}

/// What several modules say.
pub open spec fn module_views(modules: Seq<ModuleInfo>) -> Seq<ModuleView> {
    modules.map_values(
        |module: ModuleInfo|
            ModuleView {
                name: module.name@,
                address: module.address,
                size: module.size as int,
                path: match module.path {
                    Some(path) => Some(path@),
                    None => None,
                },
            },
    )
}

/// Whether the last of some mappings goes on with the run that the one in front
/// of it is of: both have a file behind them, of one name.
pub open spec fn goes_on(mappings: Seq<Mapping>) -> bool {
    mappings.len() > 1 && mappings.last()@.file() is Some && mappings[mappings.len() - 2]@.file()
        == mappings.last()@.file()
}

/// The modules that mappings come to: a run of consecutive ones that have a file
/// behind them, all of one name, is one. Its address is the first one's, and its
/// size the sum of them. A mapping without a file name ends the run.
pub open spec fn modules_of(mappings: Seq<Mapping>) -> Seq<ModuleView>
    decreases mappings.len(),
{
    if mappings.len() == 0 {
        Seq::empty()
    } else {
        let rest = modules_of(mappings.drop_last());
        let mapping = mappings.last()@;
        match mapping.file() {
            None => rest,
            Some(name) => if goes_on(mappings) {
                rest.drop_last().push(
                    ModuleView { size: rest.last().size + mapping.size, ..rest.last() },
                )
            } else {
                rest.push(
                    ModuleView {
                        name,
                        address: mapping.address,
                        size: mapping.size as int,
                        path: mapping.path,
                    },
                )
            },
        }
    }
}

/// Whether the size of every module fits.
pub open spec fn sizes_fit(modules: Seq<ModuleView>) -> bool {
    forall|i: int| 0 <= i < modules.len() ==> (#[trigger] modules[i]).size <= u64::MAX
}

/// The module that a run goes on in is the last one.
proof fn lemma_run(mappings: Seq<Mapping>)
    requires
        mappings.len() > 0,
        mappings.last()@.file() is Some,
    ensures
        modules_of(mappings).len() > 0,
        Some(modules_of(mappings).last().name) == mappings.last()@.file(),
    decreases mappings.len(),
{
    if goes_on(mappings) {
        assert(mappings.drop_last().last() == mappings[mappings.len() - 2]);
        lemma_run(mappings.drop_last());
    }
}

/// What is in front of a mapping comes to no larger modules.
proof fn lemma_sizes_fit(mappings: Seq<Mapping>, n: int)
    requires
        0 <= n <= mappings.len(),
        sizes_fit(modules_of(mappings)),
    ensures
        sizes_fit(modules_of(mappings.take(n))),
    decreases mappings.len() - n,
{
    if n < mappings.len() {
        lemma_sizes_fit(mappings, n + 1);
        let longer = mappings.take(n + 1);
        let rest = modules_of(mappings.take(n));
        let all = modules_of(longer);
        assert(longer.drop_last() =~= mappings.take(n));
        if longer.last()@.file() is Some && goes_on(longer) {
            assert(mappings.take(n).last() == longer[longer.len() - 2]);
            lemma_run(mappings.take(n));
        }
        assert forall|i: int| 0 <= i < rest.len() implies (#[trigger] rest[i]).size
            <= u64::MAX by {
            assert(all[i].size <= u64::MAX);
        }
    } else {
        assert(mappings.take(n) =~= mappings);
    }
}

/// Groups mappings into modules the way the real runtime reports them.
///
/// A module is a run of *consecutive entries in the maps list* sharing a
/// filename. Under Proton every module comes out one page long: Wine maps only a
/// PE's header page from the file, and the sections that follow are anonymous
/// mappings with no path at all. That is what the runtime shows the splitter
/// too.
pub fn modules(mappings: &[Mapping]) -> (modules: Vec<ModuleInfo>)
    requires
        sizes_fit(modules_of(mappings@)),
    ensures
        module_views(modules@) == modules_of(mappings@),
{
    let mut modules: Vec<ModuleInfo> = Vec::new();
    let mut running = false;
    let mut i: usize = 0;
    assert(mappings@.take(0) =~= Seq::<Mapping>::empty());
    assert(module_views(modules@) =~= Seq::<ModuleView>::empty());
    while i < mappings.len()
        invariant
            i <= mappings@.len(),
            sizes_fit(modules_of(mappings@)),
            running == (i > 0 && mappings@[i - 1]@.file() is Some),
            module_views(modules@) == modules_of(mappings@.take(i as int)),
        decreases mappings@.len() - i,
    {
        let mapping: &Mapping = &mappings[i];
        let ghost before = modules@;
        let ghost rest = modules_of(mappings@.take(i as int));
        let ghost longer = mappings@.take(i + 1);
        proof {
            assert(longer.drop_last() =~= mappings@.take(i as int));
            assert(longer.last() == mappings@[i as int]);
            lemma_sizes_fit(mappings@, i + 1);
            assert(module_views(before).len() == before.len());
            if running {
                assert(mappings@.take(i as int).last() == mappings@[i - 1]);
                assert(longer[longer.len() - 2] == mappings@[i - 1]);
                lemma_run(mappings@.take(i as int));
                assert(module_views(before)[before.len() - 1] == rest.last());
            }
        }
        match mapping.file_name() {
            Some(name) => {
                let n: usize = modules.len();
                if running && n > 0 && same(modules[n - 1].name.as_str(), name.as_str()) {
                    let mut last = match modules.pop() {
                        Some(last) => last,
                        None => {
                            return modules;
                        },
                    };
                    assert(goes_on(longer));
                    assert(modules_of(longer)[n - 1].size <= u64::MAX);
                    last.size = last.size + mapping.size;
                    modules.push(last);
                    assert(module_views(modules@) =~= modules_of(longer));
                } else {
                    assert(!goes_on(longer));
                    let path = match &mapping.path {
                        Some(path) => Some(owned(path.as_str())),
                        None => None,
                    };
                    modules.push(
                        ModuleInfo { name, address: mapping.address, size: mapping.size, path },
                    );
                    assert(module_views(modules@) =~= modules_of(longer));
                }
                running = true;
            },
            None => {
                running = false;
            },
        }
        i = i + 1;
    }
    assert(mappings@.take(i as int) =~= mappings@);
    modules
}

/// The ranges of the readable mappings, in order.
pub open spec fn ranges_of(mappings: Seq<Mapping>) -> Seq<MemoryRange>
    decreases mappings.len(),
{
    if mappings.len() == 0 {
        Seq::empty()
    } else {
        let rest = ranges_of(mappings.drop_last());
        if mappings.last().flags & READ != 0 {
            rest.push(mappings.last()@.range())
        } else {
            rest
        }
    }
}

/// The ranges the runtime would report, which is every readable mapping.
pub fn ranges(mappings: &[Mapping]) -> (ranges: Vec<MemoryRange>)
    ensures
        ranges@ == ranges_of(mappings@),
{
    let mut ranges: Vec<MemoryRange> = Vec::new();
    let mut i: usize = 0;
    assert(mappings@.take(0) =~= Seq::<Mapping>::empty());
    while i < mappings.len()
        invariant
            i <= mappings@.len(),
            ranges@ == ranges_of(mappings@.take(i as int)),
        decreases mappings@.len() - i,
    {
        assert(mappings@.take(i + 1).drop_last() =~= mappings@.take(i as int));
        if mappings[i].readable() {
            ranges.push(mappings[i].to_range());
        }
        i = i + 1;
    }
    assert(mappings@.take(i as int) =~= mappings@);
    ranges
}

/// Whether what `/proc/<pid>/comm` holds is `name`, with the white space behind
/// it left out. `comm` is what the runtime matches on, and it is capped at 15
/// characters.
pub fn comm_matches(comm: &str, name: &str) -> (matches: bool)
    ensures
        matches == is_called(comm@, name@),
{
    let text = chars_of(comm);
    let wanted = chars_of(name);
    let mut n: usize = text.len();
    while n > 0 && white(text[n - 1])
        invariant
            n <= text@.len(),
            text@ == comm@,
            trimmed_end(comm@, 0, comm@.len() as int) == trimmed_end(comm@, 0, n as int),
        decreases n,
    {
        n = n - 1;
    }
    let kept = slice_subrange(text.as_slice(), 0, n);
    assert(kept@ =~= comm@.take(n as int));
    same_chars(kept, wanted.as_slice())
}

/// The mappings that the first `n` lines say.
pub open spec fn mappings_of(lines: Seq<Seq<char>>, n: int) -> Seq<MappingView>
    decreases n,
{
    if n <= 0 {
        Seq::empty()
    } else {
        match mapping_of(lines[n - 1]) {
            Some(mapping) => mappings_of(lines, n - 1).push(mapping),
            None => mappings_of(lines, n - 1),
        }
    }
}

/// What several mappings say.
pub open spec fn mapping_views(mappings: Seq<Mapping>) -> Seq<MappingView> {
    mappings.map_values(|mapping: Mapping| mapping@)
}

/// The mappings in what `/proc/<pid>/maps` holds: one a line, and a line that is
/// not one is passed over.
pub fn mappings(text: &str) -> (mappings: Vec<Mapping>)
    ensures
        mapping_views(mappings@) == mappings_of(lines_of(text@), lines_of(text@).len() as int),
{
    let chars = chars_of(text);
    let lines = lines(chars.as_slice());
    let ghost all = lines_of(text@);
    let mut mappings: Vec<Mapping> = Vec::new();
    let mut i: usize = 0;
    assert(mapping_views(mappings@) =~= mappings_of(all, 0));
    while i < lines.len()
        invariant
            i <= lines@.len(),
            all == runs(lines@),
            mapping_views(mappings@) == mappings_of(all, i as int),
        decreases lines@.len() - i,
    {
        let ghost before = mapping_views(mappings@);
        let line = string_of(lines[i].as_slice());
        assert(all[i as int] == line@);
        match parse_mapping(line.as_str()) {
            Some(mapping) => {
                mappings.push(mapping);
                assert(mapping_views(mappings@) =~= before.push(mapping@));
            },
            None => {},
        }
        i = i + 1;
    }
    mappings
}

/// Whether a line of `/proc/<pid>/maps` names one of the game's files.
pub open spec fn names_the_game(line: Seq<char>) -> bool {
    let exe = "/Timberborn.exe"@;
    occurs(line, "/Timberborn_Data/"@) || (line.len() >= exe.len() && stands_at(
        line,
        exe,
        line.len() - exe.len(),
    ))
}

/// Whether a process is the game, by what `/proc/<pid>/maps` holds.
///
/// `/proc/<pid>/exe` is no use under Proton -- it points at Wine's preloader --
/// so the signal is that the game's own files are mapped.
pub fn has_game_mapped(text: &str) -> (has_it: bool)
    ensures
        has_it == exists|i: int|
            0 <= i < lines_of(text@).len() && #[trigger] names_the_game(lines_of(text@)[i]),
{
    let chars = chars_of(text);
    let lines = lines(chars.as_slice());
    let exe = chars_of("/Timberborn.exe");
    let ghost all = lines_of(text@);
    let mut i: usize = 0;
    while i < lines.len()
        invariant
            i <= lines@.len(),
            all == runs(lines@),
            all == lines_of(text@),
            exe@ == "/Timberborn.exe"@,
            forall|k: int| 0 <= k < i ==> !#[trigger] names_the_game(all[k]),
        decreases lines@.len() - i,
    {
        let line = string_of(lines[i].as_slice());
        assert(all[i as int] == line@);
        if contains_text(line.as_str(), "/Timberborn_Data/") || (lines[i].len() >= exe.len()
            && chars_at(lines[i].as_slice(), exe.as_slice(), lines[i].len() - exe.len())) {
            assert(names_the_game(all[i as int]));
            return true;
        }
        i = i + 1;
    }
    false
}

/// Whether a process's `comm` is `name`.
pub open spec fn is_called(comm: Seq<char>, name: Seq<char>) -> bool {
    comm.take(trimmed_end(comm, 0, comm.len() as int)) == name
}

/// The processes among the first `n` that are called `name`.
pub open spec fn called(comms: Seq<(u32, String)>, name: Seq<char>, n: int) -> Seq<u32>
    decreases n,
{
    if n <= 0 {
        Seq::empty()
    } else if is_called(comms[n - 1].1@, name) {
        called(comms, name, n - 1).push(comms[n - 1].0)
    } else {
        called(comms, name, n - 1)
    }
}

/// Process ids in order.
pub open spec fn ordered(pids: Seq<u32>) -> bool {
    forall|i: int, j: int| 0 <= i < j < pids.len() ==> #[trigger] pids[i] <= #[trigger] pids[j]
}

/// The processes whose `/proc/<pid>/comm` matches `name`, in order, out of all
/// there are.
pub fn find_by_comm(comms: &Vec<(u32, String)>, name: &str) -> (pids: Vec<u32>)
    ensures
        ordered(pids@),
        pids@.to_multiset() == called(comms@, name@, comms@.len() as int).to_multiset(),
{
    broadcast use vstd::seq_lib::group_to_multiset_ensures;

    let mut pids: Vec<u32> = Vec::new();
    let mut i: usize = 0;
    assert(pids@ =~= called(comms@, name@, 0));
    while i < comms.len()
        invariant
            i <= comms@.len(),
            ordered(pids@),
            pids@.to_multiset() == called(comms@, name@, i as int).to_multiset(),
        decreases comms@.len() - i,
    {
        broadcast use vstd::seq_lib::group_to_multiset_ensures;

        if comm_matches(comms[i].1.as_str(), name) {
            insert_pid(&mut pids, comms[i].0);
        }
        i = i + 1;
    }
    pids
}

/// Puts a process id where it belongs among ids that are in order.
fn insert_pid(pids: &mut Vec<u32>, pid: u32)
    requires
        ordered(old(pids)@),
    ensures
        ordered(final(pids)@),
        final(pids)@.to_multiset() == old(pids)@.to_multiset().insert(pid),
{
    let mut at: usize = pids.len();
    while at > 0 && pids[at - 1] > pid
        invariant
            at <= pids@.len(),
            pids@ == old(pids)@,
            ordered(pids@),
            forall|j: int| at <= j < pids@.len() ==> pid <= #[trigger] pids@[j],
        decreases at,
    {
        at = at - 1;
    }
    broadcast use vstd::seq_lib::group_to_multiset_ensures;

    pids.insert(at, pid);
    assert(forall|k: int|
        0 <= k < pids@.len() ==> #[trigger] pids@[k] == (if k < at {
            old(pids)@[k]
        } else if k == at {
            pid
        } else {
            old(pids)@[k - 1]
        }));
}

} // verus!
