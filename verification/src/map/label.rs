//! The line of text that describes a visit.

use vstd::prelude::*;
use crate::map::TraversalInfo;

verus! {

/// The character for one decimal digit.
pub open spec fn digit(d: int) -> char {
    (48 + d) as char
}

/// The decimal digits of `n`, most significant first, without leading
/// zeros.
pub open spec fn decimal_digits(n: nat) -> Seq<char>
    decreases n,
{
    if n < 10 {
        seq![digit(n as int)]
    } else {
        decimal_digits(n / 10).push(digit((n % 10) as int))
    }
}

/// The decimal text of `n`, with a minus sign in front where it is
/// negative.
pub open spec fn decimal_text(n: int) -> Seq<char> {
    if n < 0 {
        seq!['-'] + decimal_digits((-n) as nat)
    } else {
        decimal_digits(n as nat)
    }
}

/// `String::push` of std: appends one character at the end of the text and
/// leaves the rest as it was.
#[verifier::external_body]
fn push_char(text: &mut String, c: char)
    ensures
        final(text)@ == old(text)@.push(c),
{
    text.push(c)
}

/// `String::push_str` of std: appends the characters of `more`, in their
/// order, at the end of the text and leaves the rest as it was.
#[verifier::external_body]
fn push_text(text: &mut String, more: &str)
    ensures
        final(text)@ == old(text)@ + more@,
{
    text.push_str(more)
}

/// Appends the decimal text of `n`.
fn push_decimal(text: &mut String, n: i64)
    ensures
        final(text)@ == old(text)@ + decimal_text(n as int),
{
    let ghost before = text@;
    let mut rest: u64 = if n < 0 {
        push_char(text, '-');
        (-(n + 1)) as u64 + 1
    } else {
        n as u64
    };
    let ghost magnitude = rest as nat;
    let ghost signed = text@;
    let mut low_digits: Vec<char> = Vec::new();
    while rest >= 10
        invariant
            decimal_digits(magnitude) == decimal_digits(rest as nat) + low_digits@.reverse(),
        decreases rest,
    {
        let c = (48u8 + (rest % 10) as u8) as char;
        proof {
            let next = (rest / 10) as nat;
            assert(decimal_digits(rest as nat) == decimal_digits(next).push(c));
            assert(low_digits@.push(c).reverse() =~= seq![c] + low_digits@.reverse());
            assert(decimal_digits(next).push(c) + low_digits@.reverse() =~= decimal_digits(next)
                + (seq![c] + low_digits@.reverse()));
        }
        low_digits.push(c);
        rest = rest / 10;
    }
    push_char(text, (48u8 + rest as u8) as char);
    let ghost leading = text@;
    let mut i: usize = low_digits.len();
    while i > 0
        invariant
            i <= low_digits@.len(),
            text@ == leading + low_digits@.reverse().take(low_digits@.len() - i),
        decreases i,
    {
        i -= 1;
        push_char(text, low_digits[i]);
        proof {
            let turned = low_digits@.reverse();
            let taken = low_digits@.len() - i;
            assert(turned.take(taken) =~= turned.take(taken - 1).push(low_digits@[i as int]));
            assert(leading + turned.take(taken) =~= (leading + turned.take(taken - 1)).push(
                low_digits@[i as int],
            ));
        }
    }
    proof {
        assert(low_digits@.reverse().take(low_digits@.len() as int) =~= low_digits@.reverse());
        assert(leading =~= signed + decimal_digits(rest as nat));
        assert(text@ =~= signed + decimal_digits(magnitude));
        assert(text@ =~= before + decimal_text(n as int));
    }
}

impl TraversalInfo {
    /// The visit in words: its depth and its cell.
    pub open spec fn text(self) -> Seq<char> {
        "depth: "@ + decimal_text(self.depth as int) + ", row: "@ + decimal_text(self.row as int)
            + ", col: "@ + decimal_text(self.col as int)
    }

    /// Writes the visit as `depth: D, row: R, col: C`, each number in
    /// decimal.
    pub fn to_text(&self) -> (text: String)
        ensures
            text@ == self.text(),
    {
        let mut text = String::new();
        push_text(&mut text, "depth: ");
        push_decimal(&mut text, self.depth as i64);
        push_text(&mut text, ", row: ");
        push_decimal(&mut text, self.row as i64);
        push_text(&mut text, ", col: ");
        push_decimal(&mut text, self.col as i64);
        proof {
            assert(text@ =~= self.text());
        }
        text
    }
}

} // verus!
