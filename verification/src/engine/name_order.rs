//! What holds of the names of table files: a manifest can hold them, and
//! they sort as their sequence numbers do. The sequence number in a name is
//! padded to its full width, so that the order of the names, byte by byte,
//! is the order of the numbers.

use crate::bytes::splits_below;
use crate::engine::naming::{decimal, digit, fixed, is_table_name, table_name};
use crate::engine::recovery::name_lt;
use crate::manifest::is_space;
use crate::manifest::laws::clean_name;
use vstd::prelude::*;
use vstd::utf8::{encode_utf8, is_ascii_chars, is_ascii_chars_encode_utf8};

verus! {

/// The character of a digit is no line break and no white space.
pub proof fn lemma_digit_plain(d: nat)
    ensures
        digit(d) != '\n',
        !is_space(digit(d)),
{
}

/// A text of plain characters: none is a line break or white space.
pub open spec fn plain(text: Seq<char>) -> bool {
    forall|i: int| 0 <= i < text.len() ==> (#[trigger] text[i]) != '\n' && !is_space(text[i])
}

/// The digits of a number are plain.
pub proof fn lemma_decimal_plain(n: nat)
    ensures
        plain(decimal(n)),
        decimal(n).len() > 0,
    decreases n,
{
    if n >= 10 {
        lemma_decimal_plain(n / 10);
        lemma_digit_plain(n % 10);
    } else {
        lemma_digit_plain(n);
    }
}

/// The digits of a number at a fixed width are plain.
pub proof fn lemma_fixed_plain(n: nat, width: nat)
    ensures
        plain(fixed(n, width)),
        fixed(n, width).len() == width,
    decreases width,
{
    if width > 0 {
        lemma_fixed_plain(n / 10, (width - 1) as nat);
        lemma_digit_plain(n % 10);
    }
}

/// The name of a table file is one that a manifest can hold, and the name
/// of a table.
#[verifier::rlimit(50)]
pub proof fn lemma_table_name(seq: u64, ms: u128)
    ensures
        clean_name(table_name(seq, ms)),
        is_table_name(table_name(seq, ms)),
{
    reveal_strlit("sst-");
    reveal_strlit("-");
    reveal_strlit(".sst");
    lemma_fixed_plain(seq as nat, 20);
    lemma_decimal_plain(ms as nat);
    let a = "sst-"@;
    let b = fixed(seq as nat, 20);
    let c = "-"@;
    let d = decimal(ms as nat);
    let e = ".sst"@;
    let name = table_name(seq, ms);
    assert(name.len() == 4 + 20 + 1 + d.len() + 4);
    assert forall|i: int| 0 <= i < name.len() implies name[i] != '\n' by {
        if i < 4 {
            assert(name[i] == a[i]);
        } else if i < 24 {
            assert(name[i] == b[i - 4]);
        } else if i < 25 {
            assert(name[i] == c[i - 24]);
        } else if i < 25 + d.len() {
            assert(name[i] == d[i - 25]);
        } else {
            assert(name[i] == e[i - 25 - d.len()]);
        }
    }
    assert(name.last() == e[3]);
    assert(name.subrange(name.len() - 4, name.len() as int) =~= e);
    assert(e =~= seq!['.', 's', 's', 't']);
}

/// Ten to the power of `width`.
pub open spec fn pow10(width: nat) -> nat
    decreases width,
{
    if width == 0 {
        1
    } else {
        10 * pow10((width - 1) as nat)
    }
}

/// The characters of the digits ascend as the digits do, and are ASCII.
pub proof fn lemma_digit_order(a: nat, b: nat)
    requires
        a < b < 10,
    ensures
        (digit(a) as u8) < (digit(b) as u8),
{
}

/// A digit is an ASCII character.
pub proof fn lemma_digit_ascii(d: nat)
    ensures
        '\0' <= digit(d) <= '\u{7f}',
{
}

/// Numbers of the same width compare as their digits do: of two different
/// numbers the lesser has the lesser digit at the first place where they
/// differ.
pub proof fn lemma_fixed_order(a: nat, b: nat, width: nat)
    requires
        a < b < pow10(width),
    ensures
        exists|p: int|
            0 <= p < width && fixed(a, width).take(p) == fixed(b, width).take(p) && (fixed(
                a,
                width,
            )[p] as u8) < (#[trigger] fixed(b, width)[p] as u8),
    decreases width,
{
    lemma_fixed_plain(a, width);
    lemma_fixed_plain(b, width);
    if width > 0 {
        let w = (width - 1) as nat;
        let fa = fixed(a, width);
        let fb = fixed(b, width);
        lemma_fixed_plain(a / 10, w);
        lemma_fixed_plain(b / 10, w);
        if a / 10 == b / 10 {
            lemma_digit_order(a % 10, b % 10);
            assert(fa.take(w as int) =~= fixed(a / 10, w));
            assert(fb.take(w as int) =~= fixed(b / 10, w));
            assert(fa[w as int] == digit(a % 10));
            assert(fb[w as int] == digit(b % 10));
            assert((fa[w as int] as u8) < (fb[w as int] as u8));
        } else {
            assert(b / 10 < pow10(w)) by (nonlinear_arith)
                requires
                    b < 10 * pow10(w),
            ;
            lemma_fixed_order(a / 10, b / 10, w);
            let p = choose|p: int|
                0 <= p < w && fixed(a / 10, w).take(p) == fixed(b / 10, w).take(p) && (fixed(
                    a / 10,
                    w,
                )[p] as u8) < (#[trigger] fixed(b / 10, w)[p] as u8);
            assert(fa.take(p) =~= fixed(a / 10, w).take(p));
            assert(fb.take(p) =~= fixed(b / 10, w).take(p));
            assert(fa[p] == fixed(a / 10, w)[p]);
            assert(fb[p] == fixed(b / 10, w)[p]);
            assert((fa[p] as u8) < (fb[p] as u8));
        }
    }
}

/// The digits of a number are ASCII characters.
pub proof fn lemma_fixed_ascii(n: nat, width: nat)
    ensures
        is_ascii_chars(fixed(n, width)),
    decreases width,
{
    if width > 0 {
        lemma_fixed_ascii(n / 10, (width - 1) as nat);
        lemma_digit_ascii(n % 10);
    }
}

/// The digits of a number are ASCII characters.
pub proof fn lemma_decimal_ascii(n: nat)
    ensures
        is_ascii_chars(decimal(n)),
    decreases n,
{
    if n >= 10 {
        lemma_decimal_ascii(n / 10);
        lemma_digit_ascii(n % 10);
    } else {
        lemma_digit_ascii(n);
    }
}

/// Every sequence number is below ten to the power of twenty.
pub proof fn lemma_seq_width(seq: u64)
    ensures
        seq < pow10(20),
{
    assert(pow10(20) == 100_000_000_000_000_000_000nat) by {
        reveal_with_fuel(pow10, 21);
    }
}

/// The name of a table holds ASCII characters alone, and after its first
/// four characters the twenty digits of the sequence number.
pub proof fn lemma_name_shape(seq: u64, ms: u128)
    ensures
        is_ascii_chars(table_name(seq, ms)),
        table_name(seq, ms).len() >= 24,
        table_name(seq, ms).subrange(0, 4) == "sst-"@,
        table_name(seq, ms).subrange(4, 24) == fixed(seq as nat, 20),
{
    reveal_strlit("sst-");
    reveal_strlit("-");
    reveal_strlit(".sst");
    lemma_fixed_plain(seq as nat, 20);
    lemma_fixed_ascii(seq as nat, 20);
    lemma_decimal_ascii(ms as nat);
    let a = "sst-"@;
    let b = fixed(seq as nat, 20);
    let c = "-"@;
    let d = decimal(ms as nat);
    let e = ".sst"@;
    let name = table_name(seq, ms);
    assert(name.len() == 4 + 20 + 1 + d.len() + 4);
    assert forall|i: int| 0 <= i < name.len() implies '\0' <= #[trigger] name[i] <= '\u{7f}' by {
        if i < 4 {
            assert(name[i] == a[i]);
        } else if i < 24 {
            assert(name[i] == b[i - 4]);
        } else if i < 25 {
            assert(name[i] == c[i - 24]);
        } else if i < 25 + d.len() {
            assert(name[i] == d[i - 25]);
        } else {
            assert(name[i] == e[i - 25 - d.len()]);
        }
    }
    assert(name.subrange(0, 4) =~= a);
    assert(name.subrange(4, 24) =~= b);
}

/// Table names sort as their sequence numbers do: the name of a table
/// written at a lower sequence number sorts before the name of one written
/// at a higher, whatever the times in the names.
pub proof fn lemma_names_sort_by_seq(seq_a: u64, ms_a: u128, seq_b: u64, ms_b: u128)
    requires
        seq_a < seq_b,
    ensures
        name_lt(table_name(seq_a, ms_a), table_name(seq_b, ms_b)),
{
    let a = table_name(seq_a, ms_a);
    let b = table_name(seq_b, ms_b);
    lemma_name_shape(seq_a, ms_a);
    lemma_name_shape(seq_b, ms_b);
    lemma_seq_width(seq_b);
    lemma_fixed_order(seq_a as nat, seq_b as nat, 20);
    let fa = fixed(seq_a as nat, 20);
    let fb = fixed(seq_b as nat, 20);
    let p = choose|p: int|
        0 <= p < 20 && fa.take(p) == fb.take(p) && (fa[p] as u8) < (#[trigger] fb[p] as u8);
    is_ascii_chars_encode_utf8(a);
    is_ascii_chars_encode_utf8(b);
    let ea = encode_utf8(a);
    let eb = encode_utf8(b);
    let at = 4 + p;
    assert forall|i: int| 0 <= i < at implies ea[i] == eb[i] by {
        assert(ea[i] == a[i] as u8);
        assert(eb[i] == b[i] as u8);
        if i < 4 {
            assert(a[i] == a.subrange(0, 4)[i]);
            assert(b[i] == b.subrange(0, 4)[i]);
        } else {
            assert(a[i] == a.subrange(4, 24)[i - 4]);
            assert(b[i] == b.subrange(4, 24)[i - 4]);
            assert(fa[i - 4] == fa.take(p)[i - 4]);
            assert(fb[i - 4] == fb.take(p)[i - 4]);
        }
    }
    assert(ea.take(at) =~= eb.take(at));
    assert(ea[at] == a[at] as u8);
    assert(eb[at] == b[at] as u8);
    assert(a[at] == a.subrange(4, 24)[p]);
    assert(b[at] == b.subrange(4, 24)[p]);
    assert(splits_below(ea, eb, at));
}

} // verus!
