//! Save, then load: a manifest that was saved is loaded back as it was.

use crate::chunks::{chunk_start, joined, lemma_chunk_starts, lemma_joined_chunk};
use crate::manifest::{
    entry_line, entry_lines, find_char, header, header_format, header_title, is_space, Line,
    ManifestError, parse_from, parse_line, parse_manifest, run_len, saved, SstMetaView, trim_end,
    trim_start, trimmed,
};
use vstd::prelude::*;

verus! {

/// Whether no character among the first `n` of the text is `c`.
pub open spec fn free_upto(text: Seq<char>, c: char, n: int) -> bool
    decreases n,
{
    n <= 0 || (text[n - 1] != c && free_upto(text, c, n - 1))
}

/// Whether no character of the text is `c`.
pub open spec fn free_of(text: Seq<char>, c: char) -> bool {
    forall|i: int| 0 <= i < text.len() ==> text[i] != c
}

/// A text that is free of a character up to its length is free of it.
pub proof fn lemma_free_upto(text: Seq<char>, c: char, n: int)
    requires
        0 <= n <= text.len(),
        free_upto(text, c, n),
    ensures
        forall|i: int| 0 <= i < n ==> text[i] != c,
    decreases n,
{
    if n > 0 {
        lemma_free_upto(text, c, n - 1);
    }
}

/// A file name that a manifest can hold on a line of its own: it holds no
/// line break, and it does not end in white space.
pub open spec fn clean_name(name: Seq<char>) -> bool {
    free_of(name, '\n') && (name.len() == 0 || !is_space(name.last()))
}

/// Every entry is at level 0 or 1 and has a clean name.
pub open spec fn clean_entries(entries: Seq<SstMetaView>) -> bool {
    forall|i: int|
        0 <= i < entries.len() ==> (#[trigger] entries[i]).level <= 1 && clean_name(
            entries[i].filename,
        )
}

/// A search runs to the first occurrence of the character.
pub proof fn lemma_run_to(text: Seq<char>, c: char, from: int, end: int)
    requires
        0 <= from <= end < text.len(),
        text[end] == c,
        forall|i: int| from <= i < end ==> text[i] != c,
    ensures
        run_len(text, c, from) == end - from,
    decreases end - from,
{
    if from < end {
        lemma_run_to(text, c, from + 1, end);
    }
}

/// A text that neither starts nor ends with white space is left as it is.
pub proof fn lemma_trimmed(line: Seq<char>)
    requires
        line.len() > 0,
        !is_space(line[0]),
        !is_space(line.last()),
    ensures
        trimmed(line) == line,
{
    assert(trim_start(line, 0, line.len() as int) == 0);
    assert(trim_end(line, 0, line.len() as int) == line.len());
    assert(line.subrange(0, line.len() as int) =~= line);
}

/// The end of a trimmed text that starts with a character which is no
/// white space lies after that character.
pub proof fn lemma_trim_end_keeps_first(line: Seq<char>, to: int)
    requires
        1 <= to <= line.len(),
        !is_space(line[0]),
    ensures
        1 <= trim_end(line, 0, to) <= to,
    decreases to,
{
    if to > 1 && is_space(line[to - 1]) {
        lemma_trim_end_keeps_first(line, to - 1);
    }
}

/// A line that starts with `#` is a comment.
pub proof fn lemma_comment_line(line: Seq<char>)
    requires
        line.len() > 0,
        line[0] == '#',
    ensures
        parse_line(line) == Line::Skip,
{
    assert(trim_start(line, 0, line.len() as int) == 0);
    lemma_trim_end_keeps_first(line, line.len() as int);
    let t = trimmed(line);
    assert(t[0] == line[0]);
}

/// The text of an entry, without the line break.
pub open spec fn entry_text(meta: SstMetaView) -> Seq<char> {
    (if meta.level == 0 {
        "L0:"@
    } else {
        "L1:"@
    }) + meta.filename
}

/// The line of an entry is read as the entry.
#[verifier::rlimit(50)]
pub proof fn lemma_entry_line(meta: SstMetaView)
    requires
        meta.level <= 1,
        clean_name(meta.filename),
    ensures
        parse_line(entry_text(meta)) == Line::Entry(meta),
        free_of(entry_text(meta), '\n'),
        entry_line(meta) == entry_text(meta) + seq!['\n'],
{
    reveal_strlit("L0:");
    reveal_strlit("L1:");
    let line = entry_text(meta);
    let name = meta.filename;
    assert(line.len() == 3 + name.len());
    assert(line[0] == 'L');
    assert(line[2] == ':');
    assert(line[1] == (if meta.level == 0 {
        '0'
    } else {
        '1'
    }));
    assert forall|i: int| 0 <= i < line.len() implies line[i] != '\n' by {
        if i >= 3 {
            assert(line[i] == name[i - 3]);
        }
    }
    if name.len() > 0 {
        assert(line.last() == name.last());
    }
    lemma_trimmed(line);
    assert(run_len(line, ':', 2) == 0);
    assert(run_len(line, ':', 1) == 1);
    assert(run_len(line, ':', 0) == 2);
    assert(find_char(line, ':', 0) == 2);
    assert(line.subrange(0, 2) =~= (if meta.level == 0 {
        seq!['L', '0']
    } else {
        seq!['L', '1']
    }));
    assert(seq!['L', '0'] != seq!['L', '1']) by {
        assert(seq!['L', '0'][1] != seq!['L', '1'][1]);
    }
    assert(line.subrange(3, line.len() as int) =~= name);
}

/// Reading a line that ends in a line break: the line is read, and the
/// reading goes on behind the line break.
pub proof fn lemma_line_step(text: Seq<char>, from: int, end: int, before: nat)
    requires
        0 <= from <= end < text.len(),
        text[end] == '\n',
        forall|i: int| from <= i < end ==> text[i] != '\n',
    ensures
        parse_from(text, from, before) == (match parse_line(text.subrange(from, end)) {
            Line::Invalid => Err(ManifestError::InvalidFormat { line: (before + 1) as usize }),
            Line::UnknownLevel => Err(
                ManifestError::UnknownLevel { line: (before + 1) as usize },
            ),
            Line::Skip => parse_from(text, end + 1, before + 1),
            Line::Entry(meta) => match parse_from(text, end + 1, before + 1) {
                Ok(others) => Ok(seq![meta] + others),
                Err(e) => Err(e),
            },
        }),
{
    lemma_run_to(text, '\n', from, end);
}

/// The lines of the entries.
pub open spec fn line_chunks(entries: Seq<SstMetaView>) -> Seq<Seq<char>> {
    Seq::new(entries.len(), |i: int| entry_line(entries[i]))
}

/// The lines of all entries are the lines of each, one after the other.
pub proof fn lemma_lines_joined(entries: Seq<SstMetaView>)
    ensures
        entry_lines(entries) == joined(line_chunks(entries)),
    decreases entries.len(),
{
    if entries.len() > 0 {
        lemma_lines_joined(entries.drop_last());
        assert(line_chunks(entries).drop_last() =~= line_chunks(entries.drop_last()));
    }
}

/// Where the line of entry `k` lies in a text that ends with the lines of
/// the entries.
#[verifier::rlimit(50)]
pub proof fn lemma_line_in_text(text: Seq<char>, base: int, entries: Seq<SstMetaView>, k: int)
    requires
        0 <= k < entries.len(),
        0 <= base,
        clean_entries(entries),
        text.len() == base + joined(line_chunks(entries)).len(),
        text.subrange(base, text.len() as int) == joined(line_chunks(entries)),
    ensures
        0 <= chunk_start(line_chunks(entries), k),
        chunk_start(line_chunks(entries), k + 1) == chunk_start(line_chunks(entries), k)
            + entry_text(entries[k]).len() + 1,
        base + chunk_start(line_chunks(entries), k + 1) <= text.len(),
        text.subrange(
            base + chunk_start(line_chunks(entries), k),
            base + chunk_start(line_chunks(entries), k + 1) - 1,
        ) == entry_text(entries[k]),
        text[base + chunk_start(line_chunks(entries), k + 1) - 1] == '\n',
        forall|i: int|
            base + chunk_start(line_chunks(entries), k) <= i < base + chunk_start(
                line_chunks(entries),
                k + 1,
            ) - 1 ==> text[i] != '\n',
{
    let chunks = line_chunks(entries);
    let all = joined(chunks);
    let meta = entries[k];
    lemma_chunk_starts(chunks, k);
    lemma_joined_chunk(chunks, k);
    lemma_entry_line(meta);
    let line = entry_text(meta);
    let start = chunk_start(chunks, k);
    let from = base + start;
    let end = from + line.len();
    assert(chunks[k] == line + seq!['\n']);
    assert(chunks[k].len() == line.len() + 1);
    let whole = text.subrange(base, text.len() as int);
    assert forall|i: int| 0 <= i <= line.len() implies text[from + i] == chunks[k][i] by {
        assert(whole[start + i] == text[base + start + i]);
        assert(all.subrange(start, chunk_start(chunks, k + 1))[i] == all[start + i]);
    }
    assert(text.subrange(from, end) =~= line) by {
        assert forall|i: int| 0 <= i < line.len() implies text.subrange(from, end)[i] == line[i] by {
            assert(text[from + i] == chunks[k][i]);
        }
    }
    assert(text[end] == chunks[k][line.len() as int]);
    assert forall|i: int| from <= i < end implies text[i] != '\n' by {
        assert(text[from + (i - from)] == chunks[k][i - from]);
    }
}

/// The lines of the entries are read back from entry `k` on.
#[verifier::rlimit(50)]
pub proof fn lemma_parse_lines(text: Seq<char>, base: int, entries: Seq<SstMetaView>, k: int, before: nat)
    requires
        0 <= k <= entries.len(),
        0 <= base,
        clean_entries(entries),
        text.len() == base + joined(line_chunks(entries)).len(),
        text.subrange(base, text.len() as int) == joined(line_chunks(entries)),
    ensures
        parse_from(text, base + chunk_start(line_chunks(entries), k), before) == Ok::<
            Seq<SstMetaView>,
            ManifestError,
        >(entries.skip(k)),
    decreases entries.len() - k,
{
    let chunks = line_chunks(entries);
    if k < entries.len() {
        let meta = entries[k];
        lemma_line_in_text(text, base, entries, k);
        lemma_entry_line(meta);
        let from = base + chunk_start(chunks, k);
        let end = base + chunk_start(chunks, k + 1) - 1;
        lemma_line_step(text, from, end, before);
        lemma_parse_lines(text, base, entries, k + 1, before + 1);
        assert(seq![meta] + entries.skip(k + 1) =~= entries.skip(k));
    } else {
        lemma_chunk_starts(chunks, k);
        assert(entries.skip(k) =~= Seq::<SstMetaView>::empty());
    }
}

/// Save, then load: the text of a saved manifest is read back as the
/// entries that were saved. It holds of entries at level 0 or 1 whose file
/// names hold no line break and do not end in white space.
#[verifier::rlimit(50)]
pub proof fn lemma_save_then_load(entries: Seq<SstMetaView>)
    requires
        clean_entries(entries),
    ensures
        parse_manifest(Some(saved(entries))) == Ok::<Seq<SstMetaView>, ManifestError>(entries),
{
    reveal_strlit("# RiptideKV SSTable Manifest");
    reveal_strlit("# Format: <level>:<filename>");
    let title = header_title();
    let format = header_format();
    let text = saved(entries);
    let lines = entry_lines(entries);
    lemma_lines_joined(entries);
    let base = header().len() as int;
    assert(title.len() == 28);
    assert(format.len() == 28);
    assert(base == 58);
    assert(free_upto(title, '\n', 28)) by {
        reveal_with_fuel(free_upto, 30);
    }
    assert(free_upto(format, '\n', 28)) by {
        reveal_with_fuel(free_upto, 30);
    }
    lemma_free_upto(title, '\n', 28);
    lemma_free_upto(format, '\n', 28);
    // The first comment line.
    assert(text.subrange(0, 28) =~= title);
    assert(text[28] == '\n');
    assert forall|i: int| 0 <= i < 28 implies text[i] != '\n' by {
        assert(text[i] == title[i]);
    }
    lemma_comment_line(title);
    lemma_line_step(text, 0, 28, 0);
    // The second comment line.
    assert(text.subrange(29, 57) =~= format);
    assert(text[57] == '\n');
    assert forall|i: int| 29 <= i < 57 implies text[i] != '\n' by {
        assert(text[i] == format[i - 29]);
    }
    lemma_comment_line(format);
    lemma_line_step(text, 29, 57, 1);
    // The entries.
    assert(text.subrange(base, text.len() as int) =~= lines);
    assert(line_chunks(entries).take(0) =~= Seq::<Seq<char>>::empty());
    lemma_parse_lines(text, base, entries, 0, 2);
    assert(entries.skip(0) =~= entries);
}

} // verus!
