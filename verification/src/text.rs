//! Decimal numbers and padded columns, as the text reports print them.
use vstd::prelude::*;

verus! {

pub open spec fn digit_char(d: nat) -> char {
    if d == 0 {
        '0'
    } else if d == 1 {
        '1'
    } else if d == 2 {
        '2'
    } else if d == 3 {
        '3'
    } else if d == 4 {
        '4'
    } else if d == 5 {
        '5'
    } else if d == 6 {
        '6'
    } else if d == 7 {
        '7'
    } else if d == 8 {
        '8'
    } else {
        '9'
    }
}

/// Decimal digits of `n`, most significant first, without leading zeros.
pub open spec fn dec(n: nat) -> Seq<char>
    decreases n,
{
    if n < 10 {
        seq![digit_char(n)]
    } else {
        dec(n / 10).push(digit_char(n % 10))
    }
}

/// `k` copies of `c`.
pub open spec fn repeat(c: char, k: nat) -> Seq<char> {
    Seq::new(k, |i: int| c)
}

/// `s` right-aligned in a column of `w` characters (unchanged when longer).
pub open spec fn pad_left(s: Seq<char>, w: nat) -> Seq<char> {
    if s.len() >= w {
        s
    } else {
        repeat(' ', (w - s.len()) as nat) + s
    }
}

/// The one-character text of a decimal digit.
fn digit_str(d: u64) -> (s: &'static str)
    requires
        d < 10,
    ensures
        s@ == seq![digit_char(d as nat)],
{
    proof {
        reveal_strlit("0");
        reveal_strlit("1");
        reveal_strlit("2");
        reveal_strlit("3");
        reveal_strlit("4");
        reveal_strlit("5");
        reveal_strlit("6");
        reveal_strlit("7");
        reveal_strlit("8");
        reveal_strlit("9");
    }
    let s = if d == 0 {
        "0"
    } else if d == 1 {
        "1"
    } else if d == 2 {
        "2"
    } else if d == 3 {
        "3"
    } else if d == 4 {
        "4"
    } else if d == 5 {
        "5"
    } else if d == 6 {
        "6"
    } else if d == 7 {
        "7"
    } else if d == 8 {
        "8"
    } else {
        "9"
    };
    assert(s@ =~= seq![digit_char(d as nat)]);
    s
}

/// Appends the decimal text of `n`.
pub fn push_dec(out: &mut String, n: u64)
    ensures
        final(out)@ == old(out)@ + dec(n as nat),
    decreases n,
{
    if n >= 10 {
        push_dec(out, n / 10);
        out.append(digit_str(n % 10));
        assert(final(out)@ =~= old(out)@ + dec(n as nat));
    } else {
        out.append(digit_str(n));
        assert(final(out)@ =~= old(out)@ + dec(n as nat));
    }
}

/// The decimal text of `n`.
pub fn dec_string(n: u64) -> (s: String)
    ensures
        s@ == dec(n as nat),
{
    let mut s = String::new();
    push_dec(&mut s, n);
    assert(s@ =~= dec(n as nat));
    s
}

/// Appends `k` copies of the one-character text `c`.
pub fn push_repeat(out: &mut String, c: &str, k: u64)
    requires
        c@.len() == 1,
    ensures
        final(out)@ == old(out)@ + repeat(c@[0], k as nat),
{
    let ghost start = out@;
    let mut i: u64 = 0;
    while i < k
        invariant
            i <= k,
            c@.len() == 1,
            out@ == start + repeat(c@[0], i as nat),
        decreases k - i,
    {
        out.append(c);
        assert(out@ =~= start + repeat(c@[0], (i + 1) as nat));
        i += 1;
    }
}

/// Appends `s` right-aligned in a column of `w` characters.
pub fn push_padded(out: &mut String, s: &str, w: u64)
    ensures
        final(out)@ == old(out)@ + pad_left(s@, w as nat),
{
    proof {
        reveal_strlit(" ");
    }
    let l = s.unicode_len();
    let lw = l as u64;
    if lw < w {
        push_repeat(out, " ", w - lw);
    }
    out.append(s);
    assert(final(out)@ =~= old(out)@ + pad_left(s@, w as nat));
}

} // verus!
