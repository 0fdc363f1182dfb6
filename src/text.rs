use vstd::prelude::*;
use vstd::string::StringExecFns;

verus! {

/// The decimal digit character for `d < 10`.
pub open spec fn digit_char(d: nat) -> char {
    if d == 0 { '0' }
    else if d == 1 { '1' }
    else if d == 2 { '2' }
    else if d == 3 { '3' }
    else if d == 4 { '4' }
    else if d == 5 { '5' }
    else if d == 6 { '6' }
    else if d == 7 { '7' }
    else if d == 8 { '8' }
    else { '9' }
}

/// The decimal notation of `n`, most significant digit first, without
/// leading zeros.
pub open spec fn decimal(n: nat) -> Seq<char>
    decreases n,
{
    if n < 10 {
        seq![digit_char(n)]
    } else {
        decimal(n / 10).push(digit_char(n % 10))
    }
}

/// `n` spaces.
pub open spec fn spaces(n: nat) -> Seq<char> {
    Seq::new(n, |i: int| ' ')
}

/// `s` right-aligned in a field of width `w`: spaces in front where `s` is
/// shorter, `s` unchanged otherwise.
pub open spec fn pad_left(s: Seq<char>, w: nat) -> Seq<char> {
    if s.len() < w {
        spaces((w - s.len()) as nat) + s
    } else {
        s
    }
}

fn digit_str(d: u64) -> (r: &'static str)
    requires
        d < 10,
    ensures
        r@ == seq![digit_char(d as nat)],
{
    if d == 0 {
        proof { reveal_strlit("0"); }
        "0"
    } else if d == 1 {
        proof { reveal_strlit("1"); }
        "1"
    } else if d == 2 {
        proof { reveal_strlit("2"); }
        "2"
    } else if d == 3 {
        proof { reveal_strlit("3"); }
        "3"
    } else if d == 4 {
        proof { reveal_strlit("4"); }
        "4"
    } else if d == 5 {
        proof { reveal_strlit("5"); }
        "5"
    } else if d == 6 {
        proof { reveal_strlit("6"); }
        "6"
    } else if d == 7 {
        proof { reveal_strlit("7"); }
        "7"
    } else if d == 8 {
        proof { reveal_strlit("8"); }
        "8"
    } else {
        proof { reveal_strlit("9"); }
        "9"
    }
}

/// Appends the decimal notation of `n` to `out`.
pub fn push_decimal(out: &mut String, n: u64)
    ensures
        final(out)@ == old(out)@ + decimal(n as nat),
    decreases n,
{
    if n >= 10 {
        push_decimal(out, n / 10);
    }
    out.append(digit_str(n % 10));
    proof {
        assert(old(out)@ + decimal(n as nat) =~= old(out)@ + (if n >= 10 {
            decimal((n / 10) as nat)
        } else {
            Seq::empty()
        }) + seq![digit_char((n % 10) as nat)]);
    }
}

/// Appends the decimal notation of `n` to `out`, right-aligned in a field
/// of width `w`.
pub fn push_decimal_padded(out: &mut String, n: u64, w: usize)
    ensures
        final(out)@ == old(out)@ + pad_left(decimal(n as nat), w as nat),
{
    let mut digits = String::new();
    push_decimal(&mut digits, n);
    let len = digits.as_str().unicode_len();
    let mut k: usize = len;
    while k < w
        invariant
            len == decimal(n as nat).len(),
            len <= k <= w || (len > w && k == len),
            out@ == old(out)@ + spaces((k - len) as nat),
        decreases w - k,
    {
        proof { reveal_strlit(" "); }
        out.append(" ");
        assert(spaces((k + 1 - len) as nat) =~= spaces((k - len) as nat) + " "@);
        k = k + 1;
    }
    out.append(digits.as_str());
    assert(old(out)@ + pad_left(decimal(n as nat), w as nat) =~= old(out)@ + spaces((k - len) as nat) + digits@);
}

} // verus!
