//! Highlighting of values in text output, in plain characters.
use vstd::prelude::*;
use crate::pattern::push_char;

verus! {

/// The decimal digits of `n`, most significant first.
pub open spec fn decimal(n: nat) -> Seq<char>
    decreases n,
{
    if n < 10 {
        seq![digit(n)]
    } else {
        decimal(n / 10).push(digit(n % 10))
    }
}

pub open spec fn digit(d: nat) -> char {
    if d < 10 {
        (d + '0' as nat) as char
    } else {
        '?'
    }
}

/// The full block character drawn as the light shade one.
pub open spec fn shaded(c: char) -> char {
    if c == '\u{2588}' {
        '\u{2592}'
    } else {
        c
    }
}

/// Appends the decimal digits of `n`.
pub(crate) fn push_decimal(out: &mut String, n: usize)
    ensures
        final(out)@ == old(out)@ + decimal(n as nat),
    decreases n,
{
    if n >= 10 {
        push_decimal(out, n / 10);
    }
    let d = (n % 10) as u32;
    let c = char_from_digit(d);
    push_char(out, c);
    proof {
        if n < 10 {
            assert(old(out)@.push(c) =~= old(out)@ + seq![c]);
        }
    }
}

fn char_from_digit(d: u32) -> (c: char)
    requires
        d < 10,
    ensures
        c == digit(d as nat),
{
    if d == 0 { '0' } else if d == 1 { '1' } else if d == 2 { '2' } else if d == 3 { '3' } else if d
        == 4 { '4' } else if d == 5 { '5' } else if d == 6 { '6' } else if d == 7 { '7' } else if d
        == 8 { '8' } else { '9' }
}

/// A value shown highlighted: the text that marks it out in output.
pub trait OwoColorize {
    spec fn green_text(&self) -> Seq<char>;

    fn green(&self) -> (r: String)
        ensures
            r@ == self.green_text(),
    ;
}

impl OwoColorize for usize {
    /// The decimal digits.
    open spec fn green_text(&self) -> Seq<char> {
        decimal(*self as nat)
    }

    fn green(&self) -> (r: String) {
        let mut out = String::new();
        push_decimal(&mut out, *self);
        assert(out@ =~= decimal(*self as nat));
        out
    }
}

impl<'a> OwoColorize for &'a str {
    /// The text with each full block drawn as a light shade.
    open spec fn green_text(&self) -> Seq<char> {
        (*self)@.map_values(|c: char| shaded(c))
    }

    fn green(&self) -> (r: String) {
        let s: &str = *self;
        let n = s.unicode_len();
        let mut out = String::new();
        let mut i: usize = 0;
        while i < n
            invariant
                n == s@.len(),
                i <= n,
                out@ == s@.take(i as int).map_values(|c: char| shaded(c)),
            decreases n - i,
        {
            let c = s.get_char(i);
            push_char(&mut out, if c == '\u{2588}' { '\u{2592}' } else { c });
            assert(s@.take(i + 1).map_values(|c: char| shaded(c)) =~= s@.take(i as int).map_values(
                |c: char| shaded(c),
            ).push(shaded(c)));
            i = i + 1;
        }
        assert(s@.take(n as int) =~= s@);
        out
    }
}

} // verus!
