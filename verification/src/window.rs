use vstd::prelude::*;
use vstd::string::*;

verus! {

/// A time interval in whole seconds, from `start` up to but not including
/// `end`.
#[derive(Debug, PartialEq, Eq, Hash)]
pub struct Window {
    pub start: i64,
    pub end: i64,
}

impl Clone for Window {
    fn clone(&self) -> (copy: Self)
        ensures
            copy == *self,
    {
        Window { start: self.start, end: self.end }
    }
}

/// The character of a decimal digit.
pub open spec fn digit(d: nat) -> char {
    if d == 0 {
        '0'
    } else if d == 1 {
        '1'
    } else if d == 2 {
        '2'
    } else if d == 3 {
        '3'
    } else if d == 4 {
        '4'
    } else if d == 5 {
        '5'
    } else if d == 6 {
        '6'
    } else if d == 7 {
        '7'
    } else if d == 8 {
        '8'
    } else {
        '9'
    }
}

/// A natural number in decimal.
pub open spec fn decimal(n: nat) -> Seq<char>
    decreases n,
{
    if n < 10 {
        seq![digit(n)]
    } else {
        decimal(n / 10).push(digit(n % 10))
    }
}

/// An integer in decimal, with a sign where it is negative.
pub open spec fn signed_decimal(n: int) -> Seq<char> {
    if n < 0 {
        seq!['-'] + decimal((-n) as nat)
    } else {
        decimal(n as nat)
    }
}

impl Window {
    /// The text of a window, such as `[0s-10s)`.
    pub open spec fn text(self) -> Seq<char> {
        seq!['['] + signed_decimal(self.start as int) + seq!['s', '-'] + signed_decimal(
            self.end as int,
        ) + seq!['s', ')']
    }

    /// The window as text, such as `[0s-10s)`.
    pub fn to_string(&self) -> (text: String)
        ensures
            text@ == self.text(),
    {
        proof {
            reveal_strlit("[");
            reveal_strlit("s-");
            reveal_strlit("s)");
            assert("["@ =~= seq!['[']);
            assert("s-"@ =~= seq!['s', '-']);
            assert("s)"@ =~= seq!['s', ')']);
        }
        let mut text = String::new();
        text.append("[");
        append_signed(&mut text, self.start);
        text.append("s-");
        append_signed(&mut text, self.end);
        text.append("s)");
        assert(text@ =~= self.text());
        text
    }
}

/// Appends an integer in decimal.
fn append_signed(text: &mut String, n: i64)
    ensures
        final(text)@ == old(text)@ + signed_decimal(n as int),
{
    if n < 0 {
        proof {
            reveal_strlit("-");
            assert("-"@ =~= seq!['-']);
        }
        text.append("-");
        let size: u64 = if n == i64::MIN {
            0x8000_0000_0000_0000
        } else {
            (-n) as u64
        };
        append_decimal(text, size);
        assert(text@ =~= old(text)@ + signed_decimal(n as int));
    } else {
        append_decimal(text, n as u64);
    }
}

/// Appends a natural number in decimal.
fn append_decimal(text: &mut String, n: u64)
    ensures
        final(text)@ == old(text)@ + decimal(n as nat),
    decreases n,
{
    if n >= 10 {
        append_decimal(text, n / 10);
    }
    let last = digit_text(n % 10);
    text.append(last);
    assert(text@ =~= old(text)@ + decimal(n as nat));
}

/// The text of a decimal digit.
fn digit_text(d: u64) -> (text: &'static str)
    requires
        d < 10,
    ensures
        text@ == seq![digit(d as nat)],
{
    proof {
        reveal_strlit("0");
        reveal_strlit("1");
        reveal_strlit("2");
        reveal_strlit("3");
        reveal_strlit("4");
        reveal_strlit("5");
        reveal_strlit("6");
        reveal_strlit("7");
        reveal_strlit("8");
        reveal_strlit("9");
    }
    let text = match d {
        0 => "0",
        1 => "1",
        2 => "2",
        3 => "3",
        4 => "4",
        5 => "5",
        6 => "6",
        7 => "7",
        8 => "8",
        _ => "9",
    };
    assert(text@ =~= seq![digit(d as nat)]);
    text
}

/// How elements are divided into windows by their event times.
pub enum WindowingStrategy {
    /// Non-overlapping windows of constant size.
    Fixed { size_secs: i64 },
    /// Overlapping windows of constant size, `slide_secs` apart. Each element is
    /// in `size_secs / slide_secs` of them, rounded up.
    Sliding { size_secs: i64, slide_secs: i64 },
    /// Windows that follow the data: a new session starts when the gap between
    /// an element and the one before it exceeds `gap_secs`.
    Session { gap_secs: i64 },
}

} // verus!
