//! Numbers and characters as text.

use vstd::prelude::*;

verus! {

/// The character of a decimal digit.
pub open spec fn digit(d: int) -> char {
    if d == 0 {
        '0'
    } else if d == 1 {
        '1'
    } else if d == 2 {
        '2'
    } else if d == 3 {
        '3'
    } else if d == 4 {
        '4'
    } else if d == 5 {
        '5'
    } else if d == 6 {
        '6'
    } else if d == 7 {
        '7'
    } else if d == 8 {
        '8'
    } else {
        '9'
    }
}

/// A number written in decimal.
pub open spec fn decimal(n: nat) -> Seq<char>
    decreases n,
{
    if n < 10 {
        seq![digit(n as int)]
    } else {
        decimal(n / 10).push(digit((n % 10) as int))
    }
}

/// `n` spaces.
pub open spec fn spaces(n: int) -> Seq<char> {
    Seq::new(n as nat, |i: int| ' ')
}

/// A number written in decimal in the middle of a field of `width`
/// characters; where the space around it is odd, the larger half stands
/// behind it. A number that is wider than the field stands alone.
pub open spec fn centered(n: nat, width: int) -> Seq<char> {
    let text = decimal(n);
    if text.len() >= width {
        text
    } else {
        spaces((width - text.len()) / 2) + text + spaces((width - text.len() + 1) / 2)
    }
}

/// The character of the digit `d`.
pub fn digit_char(d: usize) -> (symbol: char)
    requires
        d < 10,
    ensures
        symbol == digit(d as int),
{
    if d == 0 {
        '0'
    } else if d == 1 {
        '1'
    } else if d == 2 {
        '2'
    } else if d == 3 {
        '3'
    } else if d == 4 {
        '4'
    } else if d == 5 {
        '5'
    } else if d == 6 {
        '6'
    } else if d == 7 {
        '7'
    } else if d == 8 {
        '8'
    } else {
        '9'
    }
}

/// Writes `n` in decimal behind what `out` holds.
pub fn push_decimal(n: usize, out: &mut Vec<char>)
    ensures
        final(out)@ == old(out)@ + decimal(n as nat),
    decreases n,
{
    if n >= 10 {
        push_decimal(n / 10, out);
    }
    out.push(digit_char(n % 10));
    assert(out@ =~= old(out)@ + decimal(n as nat));
}

/// Writes `n` spaces behind what `out` holds.
pub fn push_spaces(n: usize, out: &mut Vec<char>)
    ensures
        final(out)@ == old(out)@ + spaces(n as int),
{
    let mut i: usize = 0;
    assert(out@ =~= old(out)@ + spaces(0));
    while i < n
        invariant
            i <= n,
            out@ == old(out)@ + spaces(i as int),
        decreases n - i,
    {
        out.push(' ');
        i += 1;
        assert(out@ =~= old(out)@ + spaces(i as int));
    }
}

/// Writes `n`, centered in a field of `width` characters, behind what `out`
/// holds.
pub fn push_centered(n: usize, width: usize, out: &mut Vec<char>)
    ensures
        final(out)@ == old(out)@ + centered(n as nat, width as int),
{
    let mut text: Vec<char> = Vec::new();
    push_decimal(n, &mut text);
    assert(text@ =~= decimal(n as nat));
    if text.len() >= width {
        let mut i: usize = 0;
        assert(out@ =~= old(out)@ + text@.take(0));
        while i < text.len()
            invariant
                i <= text@.len(),
                out@ == old(out)@ + text@.take(i as int),
            decreases text@.len() - i,
        {
            out.push(text[i]);
            i += 1;
            assert(out@ =~= old(out)@ + text@.take(i as int));
        }
        assert(text@.take(i as int) =~= text@);
    } else {
        let room = width - text.len();
        push_spaces(room / 2, out);
        let ghost before = out@;
        let mut i: usize = 0;
        assert(out@ =~= before + text@.take(0));
        while i < text.len()
            invariant
                i <= text@.len(),
                out@ == before + text@.take(i as int),
            decreases text@.len() - i,
        {
            out.push(text[i]);
            i += 1;
            assert(out@ =~= before + text@.take(i as int));
        }
        assert(text@.take(i as int) =~= text@);
        if room < usize::MAX {
            push_spaces((room + 1) / 2, out);
        } else {
            push_spaces(room / 2 + 1, out);
        }
        assert(out@ =~= old(out)@ + centered(n as nat, width as int));
    }
}

/// The characters as a string, by `String::from_iter`.
#[verifier::external_body]
pub(crate) fn text_of(chars: &Vec<char>) -> (text: String)
    ensures
        text@ == chars@,
{
    String::from_iter(chars.iter())
}

} // verus!
