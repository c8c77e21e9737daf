//! Text: decimal numbers, and the trait of what can be shown as text.

use vstd::prelude::*;

verus! {

/// The character of the decimal digit `d`.
pub open spec fn digit(d: int) -> char {
    if d == 0 {
        '0'
    } else if d == 1 {
        '1'
    } else if d == 2 {
        '2'
    } else if d == 3 {
        '3'
    } else if d == 4 {
        '4'
    } else if d == 5 {
        '5'
    } else if d == 6 {
        '6'
    } else if d == 7 {
        '7'
    } else if d == 8 {
        '8'
    } else {
        '9'
    }
}

/// `n` in decimal, without leading zeros.
pub open spec fn decimal(n: nat) -> Seq<char>
    decreases n,
{
    if n < 10 {
        seq![digit(n as int)]
    } else {
        decimal(n / 10).push(digit((n % 10) as int))
    }
}

/// `text` with blanks put before it until it is `width` characters long.
pub open spec fn right_aligned(text: Seq<char>, width: nat) -> Seq<char> {
    if text.len() >= width {
        text
    } else {
        Seq::new((width - text.len()) as nat, |i: int| ' ') + text
    }
}

/// A value that can be shown as text.
pub trait Render {
    /// The text that shows the value.
    spec fn rendering(&self) -> Seq<char>;

    /// Writes the value out as text.
    fn render(&self) -> (text: String)
        ensures
            text@ == self.rendering(),
    ;
}

/// The decimal digit `d` as a string of one character.
pub fn digit_text(d: usize) -> (text: &'static str)
    requires
        d < 10,
    ensures
        text@ == seq![digit(d as int)],
{
    proof {
        reveal_strlit("0");
        reveal_strlit("1");
        reveal_strlit("2");
        reveal_strlit("3");
        reveal_strlit("4");
        reveal_strlit("5");
        reveal_strlit("6");
        reveal_strlit("7");
        reveal_strlit("8");
        reveal_strlit("9");
    }
    let text: &'static str = match d {
        0 => "0",
        1 => "1",
        2 => "2",
        3 => "3",
        4 => "4",
        5 => "5",
        6 => "6",
        7 => "7",
        8 => "8",
        _ => "9",
    };
    assert(text@ =~= seq![digit(d as int)]);
    text
}

/// Appends `n` in decimal to `out`.
pub fn push_decimal(out: &mut String, n: usize)
    ensures
        final(out)@ == old(out)@ + decimal(n as nat),
    decreases n,
{
    if n >= 10 {
        push_decimal(out, n / 10);
    }
    out.append(digit_text(n % 10));
    assert(out@ =~= old(out)@ + decimal(n as nat));
}

/// Appends `n` in decimal to `out`, with a blank before it where it has one
/// digit only.
pub fn push_decimal_pair(out: &mut String, n: usize)
    ensures
        final(out)@ == old(out)@ + right_aligned(decimal(n as nat), 2),
{
    if n < 10 {
        proof {
            reveal_strlit(" ");
        }
        out.append(" ");
    } else {
        proof {
            lemma_decimal_len(n as nat);
        }
    }
    push_decimal(out, n);
    assert(out@ =~= old(out)@ + right_aligned(decimal(n as nat), 2));
}

/// Appends `piece` to a text that stands as `base` followed by `line`, and
/// returns the line as it is then.
pub(crate) fn push_text(
    out: &mut String,
    piece: &str,
    base: Ghost<Seq<char>>,
    line: Ghost<Seq<char>>,
) -> (next: Ghost<Seq<char>>)
    requires
        old(out)@ == base@ + line@,
    ensures
        next@ == line@ + piece@,
        final(out)@ == base@ + next@,
{
    out.append(piece);
    assert(out@ =~= base@ + (line@ + piece@));
    Ghost(line@ + piece@)
}

/// Appends `n` in decimal to a text that stands as `base` followed by
/// `line`, and returns the line as it is then.
pub(crate) fn push_number(
    out: &mut String,
    n: usize,
    base: Ghost<Seq<char>>,
    line: Ghost<Seq<char>>,
) -> (next: Ghost<Seq<char>>)
    requires
        old(out)@ == base@ + line@,
    ensures
        next@ == line@ + decimal(n as nat),
        final(out)@ == base@ + next@,
{
    push_decimal(out, n);
    assert(out@ =~= base@ + (line@ + decimal(n as nat)));
    Ghost(line@ + decimal(n as nat))
}

/// A number below ten has one digit, any other has two or more.
pub proof fn lemma_decimal_len(n: nat)
    ensures
        n < 10 ==> decimal(n).len() == 1,
        n >= 10 ==> decimal(n).len() >= 2,
    decreases n,
{
    if n >= 10 {
        lemma_decimal_len(n / 10);
    }
}

} // verus!
