//! The manifest: which table file belongs to which level.
//!
//! It is a text of one line per table, `L<level>:<filename>`, with the level
//! 0 or 1. Blank lines and lines that start with `#` are ignored. Within a
//! level the newest table comes first.

use vstd::prelude::*;
use vstd::string::{StringExecFns, StrSliceExecFns};

pub mod laws;

verus! {

/// A table file with its level.
#[derive(Debug, Clone, PartialEq, Eq)]
pub struct SstMeta {
    /// The file's name, without its directory.
    pub filename: String,
    /// The level: 0 for a flushed table, 1 for a compacted one.
    pub level: u32,
}

/// What an [`SstMeta`] holds, as mathematical values.
pub struct SstMetaView {
    pub filename: Seq<char>,
    pub level: u32,
}

impl View for SstMeta {
    type V = SstMetaView;

    open spec fn view(&self) -> SstMetaView {
        SstMetaView { filename: self.filename@, level: self.level }
    }
}

/// Why a manifest cannot be loaded. Lines are counted from 1.
#[derive(Debug, Clone, Copy, PartialEq, Eq, Structural)]
pub enum ManifestError {
    /// The line holds no `:`.
    InvalidFormat { line: usize },
    /// What stands before the `:` is neither `L0` nor `L1`.
    UnknownLevel { line: usize },
}

impl ManifestError {
    /// The number of the line that cannot be read, counted from 1.
    pub open spec fn line(self) -> usize {
        match self {
            ManifestError::InvalidFormat { line } => line,
            ManifestError::UnknownLevel { line } => line,
        }
    }

    /// What the error says.
    pub open spec fn message(self) -> Seq<char> {
        "manifest line "@ + crate::engine::naming::decimal(self.line() as nat) + (match self {
            ManifestError::InvalidFormat { line } => ": invalid format (expected 'L<n>:<filename>')"@,
            ManifestError::UnknownLevel { line } => ": unknown level (expected L0 or L1)"@,
        })
    }

    /// What the error says.
    pub fn to_string(&self) -> (r: String)
        ensures
            r@ == self.message(),
    {
        let mut out: String = String::from_str("manifest line ");
        match self {
            ManifestError::InvalidFormat { line } => {
                crate::engine::naming::push_decimal(&mut out, *line as u128);
                out.append(": invalid format (expected 'L<n>:<filename>')");
            },
            ManifestError::UnknownLevel { line } => {
                crate::engine::naming::push_decimal(&mut out, *line as u128);
                out.append(": unknown level (expected L0 or L1)");
            },
        }
        out
    }
}

/// The list of table files with their levels, in the order of the file.
#[derive(Debug, Clone)]
pub struct Manifest {
    /// All entries, in the order in which they appear in the file.
    pub entries: Vec<SstMeta>,
}

/// The views of a sequence of entries.
pub open spec fn meta_views(entries: Seq<SstMeta>) -> Seq<SstMetaView> {
    Seq::new(entries.len(), |i: int| entries[i]@)
}

impl View for Manifest {
    type V = Seq<SstMetaView>;

    open spec fn view(&self) -> Seq<SstMetaView> {
        meta_views(self.entries@)
    }
}

/// White space, as `char::is_whitespace` defines it.
pub open spec fn is_space(c: char) -> bool {
    let u = c as u32;
    (0x09 <= u <= 0x0d) || u == 0x20 || u == 0x85 || u == 0xa0 || u == 0x1680 || (0x2000 <= u
        <= 0x200a) || u == 0x2028 || u == 0x2029 || u == 0x202f || u == 0x205f || u == 0x3000
}

/// The number of characters from `from` on that come before the first `c`,
/// or before the end of the text.
pub open spec fn run_len(text: Seq<char>, c: char, from: int) -> nat
    decreases text.len() - from,
{
    if from < 0 || from >= text.len() || text[from] == c {
        0
    } else {
        1 + run_len(text, c, from + 1)
    }
}

/// The first position from `from` on that holds `c`, or the length of the
/// text.
pub open spec fn find_char(text: Seq<char>, c: char, from: int) -> int {
    from + run_len(text, c, from)
}

/// The first position in `from..to` that holds no white space, or `to`.
pub open spec fn trim_start(text: Seq<char>, from: int, to: int) -> int
    decreases to - from,
{
    if from >= to || from < 0 || to > text.len() {
        to
    } else if is_space(text[from]) {
        trim_start(text, from + 1, to)
    } else {
        from
    }
}

/// The end of the last run in `from..to` that holds no white space, or
/// `from`.
pub open spec fn trim_end(text: Seq<char>, from: int, to: int) -> int
    decreases to - from,
{
    if from >= to || from < 0 || to > text.len() {
        from
    } else if is_space(text[to - 1]) {
        trim_end(text, from, to - 1)
    } else {
        to
    }
}

/// The text without the white space at its ends.
pub open spec fn trimmed(text: Seq<char>) -> Seq<char> {
    let start = trim_start(text, 0, text.len() as int);
    text.subrange(start, trim_end(text, start, text.len() as int))
}

/// What a line of the manifest says.
pub enum Line {
    /// Nothing: it is blank or a comment.
    Skip,
    /// A table with its level.
    Entry(SstMetaView),
    /// It holds no `:`.
    Invalid,
    /// Its level is neither `L0` nor `L1`.
    UnknownLevel,
}

/// Reads one line.
pub open spec fn parse_line(line: Seq<char>) -> Line {
    let t = trimmed(line);
    if t.len() == 0 || t[0] == '#' {
        Line::Skip
    } else {
        let colon = find_char(t, ':', 0);
        if colon >= t.len() {
            Line::Invalid
        } else {
            let filename = t.subrange(colon + 1, t.len() as int);
            if t.subrange(0, colon) == seq!['L', '0'] {
                Line::Entry(SstMetaView { filename, level: 0 })
            } else if t.subrange(0, colon) == seq!['L', '1'] {
                Line::Entry(SstMetaView { filename, level: 1 })
            } else {
                Line::UnknownLevel
            }
        }
    }
}

/// Reads the lines of `text` from `from` on; `before` is the number of
/// lines before them. The first line that cannot be read is the error.
pub open spec fn parse_from(text: Seq<char>, from: int, before: nat) -> Result<
    Seq<SstMetaView>,
    ManifestError,
>
    decreases text.len() - from,
{
    if from < 0 || from >= text.len() {
        Ok(Seq::empty())
    } else {
        let end = from + run_len(text, '\n', from);
        let rest = if end < text.len() {
            parse_from(text, end + 1, before + 1)
        } else {
            Ok(Seq::empty())
        };
        match parse_line(text.subrange(from, end)) {
            Line::Invalid => Err(ManifestError::InvalidFormat { line: (before + 1) as usize }),
            Line::UnknownLevel => Err(ManifestError::UnknownLevel { line: (before + 1) as usize }),
            Line::Skip => rest,
            Line::Entry(meta) => match rest {
                Ok(others) => Ok(seq![meta] + others),
                Err(e) => Err(e),
            },
        }
    }
}

/// The entries that a manifest file holds. A file that does not exist holds
/// none.
pub open spec fn parse_manifest(contents: Option<Seq<char>>) -> Result<
    Seq<SstMetaView>,
    ManifestError,
> {
    match contents {
        None => Ok(Seq::empty()),
        Some(text) => parse_from(text, 0, 0),
    }
}

/// The first comment line at the head of a saved manifest.
pub open spec fn header_title() -> Seq<char> {
    "# RiptideKV SSTable Manifest"@
}

/// The second comment line at the head of a saved manifest.
pub open spec fn header_format() -> Seq<char> {
    "# Format: <level>:<filename>"@
}

/// The two comment lines at the head of a saved manifest, each with its
/// line break.
pub open spec fn header() -> Seq<char> {
    header_title() + seq!['\n'] + header_format() + seq!['\n']
}

/// The line of one entry, with its line break.
pub open spec fn entry_line(meta: SstMetaView) -> Seq<char> {
    (if meta.level == 0 {
        "L0:"@
    } else {
        "L1:"@
    }) + meta.filename + seq!['\n']
}

/// The lines of all entries.
pub open spec fn entry_lines(entries: Seq<SstMetaView>) -> Seq<char>
    decreases entries.len(),
{
    if entries.len() == 0 {
        Seq::empty()
    } else {
        entry_lines(entries.drop_last()) + entry_line(entries.last())
    }
}

/// The text of a saved manifest.
pub open spec fn saved(entries: Seq<SstMetaView>) -> Seq<char> {
    header() + entry_lines(entries)
}

/// The file names of the entries at `level`, in order.
pub open spec fn names_at(entries: Seq<SstMetaView>, level: u32) -> Seq<Seq<char>>
    decreases entries.len(),
{
    if entries.len() == 0 {
        Seq::empty()
    } else if entries.last().level == level {
        names_at(entries.drop_last(), level).push(entries.last().filename)
    } else {
        names_at(entries.drop_last(), level)
    }
}

/// The first position from `from` on whose entry is at `level`, or the
/// number of entries.
pub open spec fn first_at(entries: Seq<SstMetaView>, level: u32, from: int) -> int
    decreases entries.len() - from,
{
    if from < 0 || from >= entries.len() {
        entries.len() as int
    } else if entries[from].level == level {
        from
    } else {
        first_at(entries, level, from + 1)
    }
}

/// The entries without those whose file name is one of `names`.
pub open spec fn without(entries: Seq<SstMetaView>, names: Seq<Seq<char>>) -> Seq<SstMetaView>
    decreases entries.len(),
{
    if entries.len() == 0 {
        Seq::empty()
    } else if names.contains(entries.last().filename) {
        without(entries.drop_last(), names)
    } else {
        without(entries.drop_last(), names).push(entries.last())
    }
}

/// The views of a sequence of string slices.
pub open spec fn str_views(names: Seq<&str>) -> Seq<Seq<char>> {
    Seq::new(names.len(), |i: int| names[i]@)
}

/// The characters of a string.
pub fn to_chars(text: &str) -> (r: Vec<char>)
    ensures
        r@ == text@,
{
    let mut out: Vec<char> = Vec::new();
    for c in it: text.chars()
        invariant
            it.seq() == text@,
            out@ == it.seq().take(it.index() as int),
    {
        out.push(c);
        assert(out@ =~= it.seq().take(it.index() + 1));
    }
    assert(out@ =~= text@);
    out
}

/// Whether a character is white space.
pub fn is_space_char(c: char) -> (r: bool)
    ensures
        r == is_space(c),
{
    let u: u32 = c as u32;
    (0x09 <= u && u <= 0x0d) || u == 0x20 || u == 0x85 || u == 0xa0 || u == 0x1680 || (0x2000 <= u
        && u <= 0x200a) || u == 0x2028 || u == 0x2029 || u == 0x202f || u == 0x205f || u
        == 0x3000
}

/// The first position from `from` on that holds `c`, or the length.
fn scan_for(chars: &Vec<char>, c: char, from: usize, to: usize) -> (r: usize)
    requires
        from <= to <= chars@.len(),
    ensures
        from <= r <= to,
        r == find_char(chars@.subrange(0, to as int), c, from as int),
        r < to ==> chars@[r as int] == c,
        forall|i: int| from <= i < r ==> chars@[i] != c,
{
    let ghost text = chars@.subrange(0, to as int);
    let mut i: usize = from;
    while i < to && chars[i] != c
        invariant
            from <= i <= to,
            to <= chars@.len(),
            text == chars@.subrange(0, to as int),
            find_char(text, c, from as int) == find_char(text, c, i as int),
            forall|j: int| from <= j < i ==> chars@[j] != c,
        decreases to - i,
    {
        i += 1;
    }
    i
}

/// The bounds of the text in `from..to` without the white space at its
/// ends.
fn trim_bounds(chars: &Vec<char>, from: usize, to: usize) -> (r: (usize, usize))
    requires
        from <= to <= chars@.len(),
    ensures
        from <= r.0 <= r.1 <= to,
        chars@.subrange(r.0 as int, r.1 as int) == trimmed(chars@.subrange(from as int, to as int)),
{
    let ghost raw = chars@.subrange(from as int, to as int);
    let mut a: usize = from;
    while a < to && is_space_char(chars[a])
        invariant
            from <= a <= to <= chars@.len(),
            raw == chars@.subrange(from as int, to as int),
            trim_start(raw, 0, raw.len() as int) == trim_start(raw, a - from, raw.len() as int),
        decreases to - a,
    {
        a += 1;
    }
    let mut b: usize = to;
    while a < b && is_space_char(chars[b - 1])
        invariant
            from <= a <= b <= to <= chars@.len(),
            raw == chars@.subrange(from as int, to as int),
            trim_end(raw, a - from, raw.len() as int) == trim_end(raw, a - from, b - from),
        decreases b - a,
    {
        b -= 1;
    }
    assert(trimmed(raw) =~= chars@.subrange(a as int, b as int));
    (a, b)
}

/// What a line of the manifest says, with the entry as an owned value.
enum ReadLine {
    Skip,
    Entry(SstMeta),
    Invalid,
    UnknownLevel,
}

/// Whether an exec line is the one that the model gives.
spec fn line_matches(r: ReadLine, expect: Line) -> bool {
    match (r, expect) {
        (ReadLine::Skip, Line::Skip) => true,
        (ReadLine::Entry(m), Line::Entry(v)) => m@ == v && m.level <= 1,
        (ReadLine::Invalid, Line::Invalid) => true,
        (ReadLine::UnknownLevel, Line::UnknownLevel) => true,
        _ => false,
    }
}

/// Whether the text in `from..to` is the letter `L` and the digit `digit`.
fn is_level(chars: &Vec<char>, from: usize, to: usize, digit: char) -> (r: bool)
    requires
        from <= to <= chars@.len(),
    ensures
        r == (chars@.subrange(from as int, to as int) == seq!['L', digit]),
{
    let ghost part = chars@.subrange(from as int, to as int);
    if to - from == 2 && chars[from] == 'L' && chars[from + 1] == digit {
        assert(part =~= seq!['L', digit]);
        true
    } else {
        proof {
            if part == seq!['L', digit] {
                assert(part.len() == 2);
                assert(part[0] == 'L');
                assert(part[1] == digit);
            }
        }
        false
    }
}

/// Reads the line that lies in `from..to`.
fn read_line(text: &str, chars: &Vec<char>, from: usize, to: usize) -> (r: ReadLine)
    requires
        chars@ == text@,
        from <= to <= chars@.len(),
    ensures
        line_matches(r, parse_line(chars@.subrange(from as int, to as int))),
{
    let (a, b) = trim_bounds(chars, from, to);
    let ghost t = chars@.subrange(a as int, b as int);
    if a == b || chars[a] == '#' {
        assert(t.len() > 0 ==> t[0] == chars@[a as int]);
        return ReadLine::Skip;
    }
    assert(t[0] == chars@[a as int]);
    let colon: usize = scan_for(chars, ':', a, b);
    proof {
        lemma_find_shift(chars@.subrange(0, b as int), ':', a as int, a as int);
        assert(chars@.subrange(0, b as int).subrange(a as int, b as int) =~= t);
    }
    if colon >= b {
        return ReadLine::Invalid;
    }
    assert(t.subrange(0, colon - a) =~= chars@.subrange(a as int, colon as int));
    assert(t.subrange(colon - a + 1, t.len() as int) =~= chars@.subrange(colon + 1, b as int));
    let level: u32 = if is_level(chars, a, colon, '0') {
        0
    } else if is_level(chars, a, colon, '1') {
        1
    } else {
        return ReadLine::UnknownLevel;
    };
    let filename: String = text.substring_char(colon + 1, b).to_owned();
    ReadLine::Entry(SstMeta { filename, level })
}

impl Manifest {
    /// A manifest without entries.
    pub fn new() -> (m: Self)
        ensures
            m@.len() == 0,
    {
        Manifest { entries: Vec::new() }
    }

    /// The manifest that a file holds, or an empty one where the file does
    /// not exist. A line that cannot be read is an error: nothing is
    /// guessed.
    #[verifier::rlimit(50)]
    pub fn load_or_create(contents: Option<&str>) -> (r: Result<Self, ManifestError>)
        ensures
            match parse_manifest(
                match contents {
                    Some(text) => Some(text@),
                    None => None,
                },
            ) {
                Ok(entries) => r is Ok && r->Ok_0@ == entries,
                Err(e) => r is Err && r->Err_0 == e,
            },
            r is Ok ==> r->Ok_0.levels_known(),
    {
        let text: &str = match contents {
            None => {
                return Ok(Manifest::new());
            },
            Some(t) => t,
        };
        let chars: Vec<char> = to_chars(text);
        let len: usize = chars.len();
        let mut entries: Vec<SstMeta> = Vec::new();
        let mut pos: usize = 0;
        let mut before: usize = 0;
        let ghost whole = parse_from(text@, 0, 0);
        assert(meta_views(entries@) + Seq::<SstMetaView>::empty() =~= meta_views(entries@));
        while pos < len
            invariant
                contents == Some(text),
                whole == parse_from(text@, 0, 0),
                chars@ == text@,
                len == chars@.len(),
                0 <= pos <= len,
                before <= pos,
                forall|i: int| 0 <= i < entries@.len() ==> (#[trigger] entries@[i]).level <= 1,
                whole == (match parse_from(text@, pos as int, before as nat) {
                    Ok(rest) => Ok::<Seq<SstMetaView>, ManifestError>(meta_views(entries@) + rest),
                    Err(e) => Err::<Seq<SstMetaView>, ManifestError>(e),
                }),
            decreases len - pos,
        {
            assert(chars@.subrange(0, len as int) =~= chars@);
            let end: usize = scan_for(&chars, '\n', pos, len);
            let ghost rest = if end < len {
                parse_from(text@, end + 1, (before + 1) as nat)
            } else {
                Ok(Seq::empty())
            };
            match read_line(text, &chars, pos, end) {
                ReadLine::Skip => {},
                ReadLine::Invalid => {
                    return Err(ManifestError::InvalidFormat { line: before + 1 });
                },
                ReadLine::UnknownLevel => {
                    return Err(ManifestError::UnknownLevel { line: before + 1 });
                },
                ReadLine::Entry(meta) => {
                    let ghost old_views = meta_views(entries@);
                    let ghost view = meta@;
                    entries.push(meta);
                    proof {
                        assert(meta_views(entries@) =~= old_views.push(view));
                        if rest is Ok {
                            assert(old_views + (seq![view] + rest->Ok_0) =~= old_views.push(view)
                                + rest->Ok_0);
                        }
                    }
                },
            }
            if end >= len {
                proof {
                    assert(rest == Ok::<Seq<SstMetaView>, ManifestError>(Seq::empty()));
                    assert(meta_views(entries@) + Seq::<SstMetaView>::empty() =~= meta_views(
                        entries@,
                    ));
                }
                return Ok(Manifest { entries });
            }
            pos = end + 1;
            before = before + 1;
        }
        assert(meta_views(entries@) + Seq::<SstMetaView>::empty() =~= meta_views(entries@));
        Ok(Manifest { entries })
    }
}

/// Whether two strings hold the same text.
pub fn same_text(a: &str, b: &str) -> (r: bool)
    ensures
        r == (a@ == b@),
{
    proof {
        vstd::utf8::encode_utf8_decode_utf8(a@);
        vstd::utf8::encode_utf8_decode_utf8(b@);
    }
    crate::bytes::same_bytes(a.as_bytes(), b.as_bytes())
}

impl Manifest {
    /// Every entry is at level 0 or 1.
    pub open spec fn levels_known(&self) -> bool {
        forall|i: int| 0 <= i < self@.len() ==> (#[trigger] self@[i]).level <= 1
    }

    /// The text of the manifest file: two comment lines, then one line per
    /// entry.
    pub fn save(&self) -> (r: String)
        requires
            self.levels_known(),
        ensures
            r@ == saved(self@),
    {
        let mut out: String = String::from_str("# RiptideKV SSTable Manifest");
        out.append("\n");
        out.append("# Format: <level>:<filename>");
        out.append("\n");
        proof {
            reveal_strlit("\n");
            assert("\n"@ =~= seq!['\n']);
        }
        let mut i: usize = 0;
        assert(self@.take(0) =~= Seq::<SstMetaView>::empty());
        assert(out@ =~= header() + entry_lines(self@.take(0)));
        while i < self.entries.len()
            invariant
                0 <= i <= self.entries@.len(),
                self.levels_known(),
                out@ == header() + entry_lines(self@.take(i as int)),
            decreases self.entries@.len() - i,
        {
            let entry: &SstMeta = &self.entries[i];
            let ghost before = out@;
            assert(self@[i as int] == entry@);
            if entry.level == 0 {
                out.append("L0:");
            } else {
                out.append("L1:");
            }
            out.append(entry.filename.as_str());
            out.append("\n");
            proof {
                reveal_strlit("\n");
                assert("\n"@ =~= seq!['\n']);
                assert(self@.take(i + 1).drop_last() =~= self@.take(i as int));
                assert(self@.take(i + 1).last() == entry@);
                assert(out@ =~= before + entry_line(entry@));
                assert(out@ =~= header() + (entry_lines(self@.take(i as int)) + entry_line(
                    entry@,
                )));
            }
            i += 1;
        }
        assert(self@.take(i as int) =~= self@);
        out
    }

    /// The file names at `level`, in manifest order.
    fn filenames_at(&self, level: u32) -> (r: Vec<&str>)
        ensures
            str_views(r@) == names_at(self@, level),
    {
        let mut out: Vec<&str> = Vec::new();
        let mut i: usize = 0;
        assert(self@.take(0) =~= Seq::<SstMetaView>::empty());
        assert(str_views(out@) =~= names_at(self@.take(0), level));
        while i < self.entries.len()
            invariant
                0 <= i <= self.entries@.len(),
                str_views(out@) == names_at(self@.take(i as int), level),
            decreases self.entries@.len() - i,
        {
            let entry: &SstMeta = &self.entries[i];
            assert(self@[i as int] == entry@);
            proof {
                assert(self@.take(i + 1).drop_last() =~= self@.take(i as int));
                assert(self@.take(i + 1).last() == entry@);
            }
            if entry.level == level {
                let ghost before = str_views(out@);
                out.push(entry.filename.as_str());
                assert(str_views(out@) =~= before.push(entry.filename@));
            }
            i += 1;
        }
        assert(self@.take(i as int) =~= self@);
        out
    }

    /// The file names of the tables at level 0, newest first.
    pub fn l0_filenames(&self) -> (r: Vec<&str>)
        ensures
            str_views(r@) == names_at(self@, 0),
    {
        self.filenames_at(0)
    }

    /// The file names of the tables at level 1, newest first.
    pub fn l1_filenames(&self) -> (r: Vec<&str>)
        ensures
            str_views(r@) == names_at(self@, 1),
    {
        self.filenames_at(1)
    }

    /// Adds a table in front of the entries of its level, so that each level
    /// lists its newest table first. A table of a level that has no entry
    /// yet goes to the end.
    pub fn add(&mut self, filename: String, level: u32)
        ensures
            final(self)@ == old(self)@.insert(
                first_at(old(self)@, level, 0),
                SstMetaView { filename: filename@, level },
            ),
    {
        let mut pos: usize = 0;
        while pos < self.entries.len() && self.entries[pos].level != level
            invariant
                0 <= pos <= self.entries@.len(),
                self.entries == old(self).entries,
                first_at(self@, level, 0) == first_at(self@, level, pos as int),
            decreases self.entries@.len() - pos,
        {
            assert(self@[pos as int] == self.entries@[pos as int]@);
            pos += 1;
        }
        proof {
            if pos < self.entries@.len() {
                assert(self@[pos as int] == self.entries@[pos as int]@);
            }
        }
        let ghost meta = SstMetaView { filename: filename@, level };
        self.entries.insert(pos, SstMeta { filename, level });
        assert(self@ =~= old(self)@.insert(pos as int, meta));
    }

    /// Removes the entries whose file name is one of `filenames`.
    pub fn remove_files(&mut self, filenames: &[&str])
        ensures
            final(self)@ == without(old(self)@, str_views(filenames@)),
    {
        let ghost names = str_views(filenames@);
        let mut kept: Vec<SstMeta> = Vec::new();
        let mut i: usize = 0;
        assert(self@.take(0) =~= Seq::<SstMetaView>::empty());
        assert(meta_views(kept@) =~= without(self@.take(0), names));
        while i < self.entries.len()
            invariant
                0 <= i <= self.entries@.len(),
                self.entries == old(self).entries,
                names == str_views(filenames@),
                meta_views(kept@) == without(self@.take(i as int), names),
            decreases self.entries@.len() - i,
        {
            let entry: &SstMeta = &self.entries[i];
            assert(self@[i as int] == entry@);
            proof {
                assert(self@.take(i + 1).drop_last() =~= self@.take(i as int));
                assert(self@.take(i + 1).last() == entry@);
            }
            let mut listed: bool = false;
            let mut j: usize = 0;
            while j < filenames.len()
                invariant
                    0 <= j <= filenames@.len(),
                    names == str_views(filenames@),
                    listed == names.take(j as int).contains(entry.filename@),
                decreases filenames@.len() - j,
            {
                let hit: bool = same_text(filenames[j], entry.filename.as_str());
                proof {
                    let upto = names.take(j as int);
                    let next = names.take(j + 1);
                    assert(next =~= upto.push(names[j as int]));
                    assert(names[j as int] == filenames@[j as int]@);
                    if upto.contains(entry.filename@) {
                        let k = choose|k: int| 0 <= k < upto.len() && upto[k] == entry.filename@;
                        assert(next[k] == entry.filename@);
                    }
                    if hit {
                        assert(next[j as int] == entry.filename@);
                    }
                    if next.contains(entry.filename@) && !hit {
                        let k = choose|k: int| 0 <= k < next.len() && next[k] == entry.filename@;
                        assert(upto[k] == entry.filename@);
                    }
                }
                if hit {
                    listed = true;
                }
                j += 1;
            }
            assert(names.take(j as int) =~= names);
            if !listed {
                let ghost before = meta_views(kept@);
                kept.push(SstMeta { filename: entry.filename.clone(), level: entry.level });
                assert(meta_views(kept@) =~= before.push(entry@));
            }
            i += 1;
        }
        assert(self@.take(i as int) =~= self@);
        self.entries = kept;
    }

    /// Replaces all entries with a single table at level 1, as a compaction
    /// leaves them.
    pub fn replace_all_with_l1(&mut self, filename: String)
        ensures
            final(self)@ == seq![SstMetaView { filename: filename@, level: 1 }],
    {
        self.entries.clear();
        let ghost meta = SstMetaView { filename: filename@, level: 1 };
        self.entries.push(SstMeta { filename, level: 1 });
        assert(self@ =~= seq![meta]);
    }
}

/// Searching from `from` in a text gives the same place as searching in the
/// text without its first `cut` characters.
pub proof fn lemma_find_shift(text: Seq<char>, c: char, cut: int, from: int)
    requires
        0 <= cut <= from <= text.len(),
    ensures
        find_char(text, c, from) == cut + find_char(
            text.subrange(cut, text.len() as int),
            c,
            from - cut,
        ),
    decreases text.len() - from,
{
    if from < text.len() {
        if text[from] != c {
            lemma_find_shift(text, c, cut, from + 1);
        }
    }
}

} // verus!
