//! Numbers and columns as text.

use vstd::prelude::*;

verus! {

/// The character of a digit.
pub open spec fn digit_char(d: int) -> char {
    ('0' as int + d) as char
}

/// A number in decimal notation, without leading zeros.
pub open spec fn decimal(n: nat) -> Seq<char>
    decreases n,
{
    if n < 10 {
        seq![digit_char(n as int)]
    } else {
        decimal(n / 10).push(digit_char((n % 10) as int))
    }
}

/// The number that a sequence of digits denotes.
pub open spec fn numeral_value(digits: Seq<char>) -> int
    decreases digits.len(),
{
    if digits.len() == 0 {
        0
    } else {
        10 * numeral_value(digits.drop_last()) + (digits.last() as int - '0' as int)
    }
}

/// Decimal notation denotes the number that was written.
pub proof fn law_decimal_denotes_the_number(n: nat)
    ensures
        numeral_value(decimal(n)) == n,
    decreases n,
{
    reveal_with_fuel(numeral_value, 2);
    if n < 10 {
        assert(decimal(n).drop_last() =~= Seq::<char>::empty());
    } else {
        law_decimal_denotes_the_number(n / 10);
        assert(decimal(n).drop_last() =~= decimal(n / 10));
    }
}

fn digit_str(d: u64) -> (s: &'static str)
    requires
        d < 10,
    ensures
        s@ == seq![digit_char(d as int)],
{
    proof {
        reveal_strlit("0");
        reveal_strlit("1");
        reveal_strlit("2");
        reveal_strlit("3");
        reveal_strlit("4");
        reveal_strlit("5");
        reveal_strlit("6");
        reveal_strlit("7");
        reveal_strlit("8");
        reveal_strlit("9");
    }
    let s = if d == 0 {
        "0"
    } else if d == 1 {
        "1"
    } else if d == 2 {
        "2"
    } else if d == 3 {
        "3"
    } else if d == 4 {
        "4"
    } else if d == 5 {
        "5"
    } else if d == 6 {
        "6"
    } else if d == 7 {
        "7"
    } else if d == 8 {
        "8"
    } else {
        "9"
    };
    assert(s@ =~= seq![digit_char(d as int)]);
    s
}

/// Writes a number in decimal notation.
pub fn to_decimal(n: u64) -> (s: String)
    ensures
        s@ == decimal(n as nat),
    decreases n,
{
    if n < 10 {
        digit_str(n).to_string()
    } else {
        let mut s = to_decimal(n / 10);
        let ghost before = s@;
        s.append(digit_str(n % 10));
        assert(s@ =~= before.push(digit_char((n % 10) as int)));
        s
    }
}

/// A text with spaces behind it that make it at least `width` characters long.
pub open spec fn padded_right(text: Seq<char>, width: int) -> Seq<char> {
    if text.len() < width {
        text + Seq::new((width - text.len()) as nat, |i: int| ' ')
    } else {
        text
    }
}

/// Fills a text up with spaces to at least `width` characters.
pub fn pad_right(text: &str, width: usize) -> (s: String)
    ensures
        s@ == padded_right(text@, width as int),
{
    let mut s = text.to_string();
    let mut n: usize = text.unicode_len();
    proof {
        reveal_strlit(" ");
    }
    assert(s@ =~= text@);
    while n < width
        invariant
            " "@ =~= seq![' '],
            text@.len() <= n,
            n <= width || n == text@.len(),
            s@ == text@ + Seq::new((n - text@.len()) as nat, |i: int| ' '),
        decreases width - n,
    {
        s.append(" ");
        n = n + 1;
        assert(s@ =~= text@ + Seq::new((n - text@.len()) as nat, |i: int| ' '));
    }
    assert(s@ =~= padded_right(text@, width as int));
    s
}

/// How a piece of text is set off.
#[derive(Clone, Copy, PartialEq, Eq, Structural, Debug)]
pub enum Style {
    Plain,
    Bold,
    Dim,
}

/// A piece of text in one style.
pub struct Span {
    pub text: String,
    pub style: Style,
}

/// A line of text.
pub struct TextLine {
    pub spans: Vec<Span>,
    /// The style of the line as a whole.
    pub style: Style,
}

/// What a piece of text says, and in which style.
pub struct Phrase {
    pub text: Seq<char>,
    pub style: Style,
}

/// What a line of text says, and in which style.
#[verifier::ext_equal]
pub struct Saying {
    pub phrases: Seq<Phrase>,
    pub style: Style,
}

impl View for TextLine {
    type V = Saying;

    open spec fn view(&self) -> Saying {
        Saying {
            phrases: Seq::new(
                self.spans@.len(),
                |i: int| Phrase { text: self.spans@[i].text@, style: self.spans@[i].style },
            ),
            style: self.style,
        }
    }
}

impl Saying {
    /// The texts of the pieces.
    pub open spec fn texts(self) -> Seq<Seq<char>> {
        Seq::new(self.phrases.len(), |i: int| self.phrases[i].text)
    }
}

/// A line of a single piece in one style.
pub open spec fn said(text: Seq<char>, style: Style) -> Saying {
    Saying { phrases: seq![Phrase { text, style }], style: Style::Plain }
}

/// A line of plain text that is set off as a whole.
pub open spec fn declared(text: Seq<char>, style: Style) -> Saying {
    Saying { phrases: seq![Phrase { text, style: Style::Plain }], style }
}

impl TextLine {
    /// A line of a single piece in one style.
    pub fn of_span(text: &str, style: Style) -> (line: TextLine)
        ensures
            line@ == said(text@, style),
    {
        let line = TextLine {
            spans: vec![Span { text: text.to_string(), style }],
            style: Style::Plain,
        };
        assert(line@ =~= said(text@, style));
        line
    }

    /// A line of plain text that is set off as a whole.
    pub fn of_text(text: &str, style: Style) -> (line: TextLine)
        ensures
            line@ == declared(text@, style),
    {
        let line = TextLine {
            spans: vec![Span { text: text.to_string(), style: Style::Plain }],
            style,
        };
        assert(line@ =~= declared(text@, style));
        line
    }
}

} // verus!
