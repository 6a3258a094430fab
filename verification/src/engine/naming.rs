//! The names of table files: `sst-<seq, 20 digits>-<ms since epoch>.sst`.
//!
//! The sequence number is padded with zeros to its full width, so that the
//! names sort as the numbers do.

use vstd::prelude::*;
use vstd::string::StringExecFns;

verus! {

/// The character of a decimal digit.
pub open spec fn digit(d: nat) -> char
    recommends
        d < 10,
{
    if d == 0 {
        '0'
    } else if d == 1 {
        '1'
    } else if d == 2 {
        '2'
    } else if d == 3 {
        '3'
    } else if d == 4 {
        '4'
    } else if d == 5 {
        '5'
    } else if d == 6 {
        '6'
    } else if d == 7 {
        '7'
    } else if d == 8 {
        '8'
    } else {
        '9'
    }
}

/// The decimal digits of `n`, without leading zeros.
pub open spec fn decimal(n: nat) -> Seq<char>
    decreases n,
{
    if n < 10 {
        seq![digit(n)]
    } else {
        decimal(n / 10).push(digit(n % 10))
    }
}

/// The last `width` decimal digits of `n`, with leading zeros.
pub open spec fn fixed(n: nat, width: nat) -> Seq<char>
    decreases width,
{
    if width == 0 {
        Seq::empty()
    } else {
        fixed(n / 10, (width - 1) as nat).push(digit(n % 10))
    }
}

/// The name of the table file written at sequence number `seq` and time
/// `ms`.
pub open spec fn table_name(seq: u64, ms: u128) -> Seq<char> {
    "sst-"@ + fixed(seq as nat, 20) + "-"@ + decimal(ms as nat) + ".sst"@
}

/// The name of the temporary file that a table is written to before it is
/// moved into place.
pub open spec fn temp_name(name: Seq<char>) -> Seq<char> {
    name + ".tmp"@
}

/// Whether a file name is that of a table: it ends in `.sst` and holds
/// something before that.
pub open spec fn is_table_name(name: Seq<char>) -> bool {
    name.len() > 4 && name.subrange(name.len() - 4, name.len() as int) == seq!['.', 's', 's', 't']
}

/// Whether a file name is that of a temporary table file: it ends in
/// `.sst.tmp`.
pub open spec fn is_temp_name(name: Seq<char>) -> bool {
    name.len() >= 8 && name.subrange(name.len() - 8, name.len() as int) == seq![
        '.',
        's',
        's',
        't',
        '.',
        't',
        'm',
        'p',
    ]
}

/// The text of one decimal digit.
fn digit_text(d: u8) -> (r: &'static str)
    requires
        d < 10,
    ensures
        r@ == seq![digit(d as nat)],
{
    proof {
        reveal_strlit("0");
        reveal_strlit("1");
        reveal_strlit("2");
        reveal_strlit("3");
        reveal_strlit("4");
        reveal_strlit("5");
        reveal_strlit("6");
        reveal_strlit("7");
        reveal_strlit("8");
        reveal_strlit("9");
    }
    let r: &'static str = if d == 0 {
        "0"
    } else if d == 1 {
        "1"
    } else if d == 2 {
        "2"
    } else if d == 3 {
        "3"
    } else if d == 4 {
        "4"
    } else if d == 5 {
        "5"
    } else if d == 6 {
        "6"
    } else if d == 7 {
        "7"
    } else if d == 8 {
        "8"
    } else {
        "9"
    };
    assert(r@ =~= seq![digit(d as nat)]);
    r
}

/// Appends the last `width` decimal digits of `n`, with leading zeros.
fn push_fixed(out: &mut String, n: u128, width: usize)
    ensures
        final(out)@ == old(out)@ + fixed(n as nat, width as nat),
    decreases width,
{
    if width > 0 {
        push_fixed(out, n / 10, width - 1);
        out.append(digit_text((n % 10) as u8));
        assert(out@ =~= old(out)@ + fixed(n as nat, width as nat));
    } else {
        assert(out@ =~= old(out)@ + fixed(n as nat, width as nat));
    }
}

/// Appends the decimal digits of `n`.
pub fn push_decimal(out: &mut String, n: u128)
    ensures
        final(out)@ == old(out)@ + decimal(n as nat),
    decreases n,
{
    if n >= 10 {
        push_decimal(out, n / 10);
    }
    out.append(digit_text((n % 10) as u8));
    assert(out@ =~= old(out)@ + decimal(n as nat));
}

/// The name of the table file written at sequence number `seq` and time
/// `ms`, in milliseconds since the epoch.
pub fn sst_name(seq: u64, ms: u128) -> (r: String)
    ensures
        r@ == table_name(seq, ms),
{
    let mut out: String = String::from_str("sst-");
    push_fixed(&mut out, seq as u128, 20);
    out.append("-");
    push_decimal(&mut out, ms);
    out.append(".sst");
    out
}

/// Whether the text ends with the four characters `a`, `b`, `c`, `d`.
fn ends_with4(chars: &Vec<char>, a: char, b: char, c: char, d: char) -> (r: bool)
    ensures
        r == (chars@.len() >= 4 && chars@.subrange(chars@.len() - 4, chars@.len() as int) == seq![
            a,
            b,
            c,
            d,
        ]),
{
    let n: usize = chars.len();
    if n < 4 {
        return false;
    }
    let ghost tail = chars@.subrange(n - 4, n as int);
    if chars[n - 4] == a && chars[n - 3] == b && chars[n - 2] == c && chars[n - 1] == d {
        assert(tail =~= seq![a, b, c, d]);
        true
    } else {
        proof {
            if tail == seq![a, b, c, d] {
                assert(tail[0] == a && tail[1] == b && tail[2] == c && tail[3] == d);
            }
        }
        false
    }
}

/// Whether a file name is that of a table.
pub fn table_name_check(name: &str) -> (r: bool)
    ensures
        r == is_table_name(name@),
{
    let chars: Vec<char> = crate::manifest::to_chars(name);
    chars.len() > 4 && ends_with4(&chars, '.', 's', 's', 't')
}

/// Whether a file name is that of a temporary table file.
pub fn temp_name_check(name: &str) -> (r: bool)
    ensures
        r == is_temp_name(name@),
{
    let mut chars: Vec<char> = crate::manifest::to_chars(name);
    let n: usize = chars.len();
    if n < 8 {
        return false;
    }
    let ghost all = chars@;
    let ghost tail = all.subrange(n - 8, n as int);
    let last: bool = ends_with4(&chars, '.', 't', 'm', 'p');
    chars.truncate(n - 4);
    let first: bool = ends_with4(&chars, '.', 's', 's', 't');
    proof {
        let want = seq!['.', 's', 's', 't', '.', 't', 'm', 'p'];
        let a = all.subrange(n - 4, n as int);
        let b = chars@.subrange(n - 8, n - 4);
        assert(a =~= tail.subrange(4, 8));
        assert(b =~= tail.subrange(0, 4));
        if first && last {
            assert(tail =~= want);
        }
        if tail == want {
            assert(a =~= seq!['.', 't', 'm', 'p']);
            assert(b =~= seq!['.', 's', 's', 't']);
        }
    }
    first && last
}

/// The name of the temporary file of the table file `name`.
pub fn tmp_name(name: &str) -> (r: String)
    ensures
        r@ == temp_name(name@),
{
    let mut out: String = String::from_str(name);
    out.append(".tmp");
    out
}

} // verus!
