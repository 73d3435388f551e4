use vstd::prelude::*;
use vstd::string::StringExecFns;

verus! {

/// The decimal spelling of a number, most significant digit first.
pub open spec fn dec_digits(n: int) -> Seq<char>
    decreases n,
{
    if n < 10 {
        seq![(48 + (if n >= 0 {
            n
        } else {
            0
        })) as char]
    } else {
        dec_digits(n / 10) + seq![(48 + n % 10) as char]
    }
}

/// The decimal spelling of a byte-sized number.
pub fn dec_of(n: u8) -> (r: String)
    ensures
        r@ == dec_digits(n as int),
    decreases n,
{
    if n < 10 {
        let mut s = String::new();
        s.push((48 + n) as char);
        s
    } else {
        let mut s = dec_of(n / 10);
        s.push((48 + n % 10) as char);
        s
    }
}

/// One of the first eight terminal palette entries.
pub enum Color {
    Black,
    Red,
    Green,
    Yellow,
    Blue,
    Magenta,
    Cyan,
    White,
}

impl Color {
    /// The palette index this color selects.
    pub fn code(&self) -> (r: u8)
        ensures
            r as int == self.code_spec(),
    {
        match self {
            Color::Black => 0,
            Color::Red => 1,
            Color::Green => 2,
            Color::Yellow => 3,
            Color::Blue => 4,
            Color::Magenta => 5,
            Color::Cyan => 6,
            Color::White => 7,
        }
    }

    /// The palette index, at the spec level.
    pub open spec fn code_spec(&self) -> int {
        match *self {
            Color::Black => 0,
            Color::Red => 1,
            Color::Green => 2,
            Color::Yellow => 3,
            Color::Blue => 4,
            Color::Magenta => 5,
            Color::Cyan => 6,
            Color::White => 7,
        }
    }
}

/// Text wrapped in terminal palette escapes.
pub trait ColorString {
    spec fn col_chars(&self) -> Seq<char>;

    /// The text under the given foreground color, reset afterwards.
    fn fg(&self, color: Color) -> (r: String)
        ensures
            r@ == "\u{1b}[38;5;"@ + dec_digits(color.code_spec()) + "m"@ + self.col_chars()
                + "\u{1b}[0m"@,
    ;

    /// The text over the given background color, reset afterwards.
    fn bg(&self, color: Color) -> (r: String)
        ensures
            r@ == "\u{1b}[48;5;"@ + dec_digits(color.code_spec()) + "m"@ + self.col_chars()
                + "\u{1b}[0m"@,
    ;

    /// The text under a foreground and over a background color, reset
    /// afterwards.
    fn set_color(&self, fg: Color, bg: Color) -> (r: String)
        ensures
            r@ == "\u{1b}[38;5;"@ + dec_digits(fg.code_spec()) + "m"@ + "\u{1b}[48;5;"@
                + dec_digits(bg.code_spec()) + "m"@ + self.col_chars() + "\u{1b}[0m"@,
    ;
}

impl ColorString for String {
    open spec fn col_chars(&self) -> Seq<char> {
        self@
    }

    fn fg(&self, color: Color) -> (r: String) {
        let mut out = String::new();
        out.append("\u{1b}[38;5;");
        let d = dec_of(color.code());
        out.append(d.as_str());
        out.append("m");
        out.append(self.as_str());
        out.append("\u{1b}[0m");
        out
    }

    fn bg(&self, color: Color) -> (r: String) {
        let mut out = String::new();
        out.append("\u{1b}[48;5;");
        let d = dec_of(color.code());
        out.append(d.as_str());
        out.append("m");
        out.append(self.as_str());
        out.append("\u{1b}[0m");
        out
    }

    fn set_color(&self, fg: Color, bg: Color) -> (r: String) {
        let mut out = String::new();
        out.append("\u{1b}[38;5;");
        let df = dec_of(fg.code());
        out.append(df.as_str());
        out.append("m");
        out.append("\u{1b}[48;5;");
        let db = dec_of(bg.code());
        out.append(db.as_str());
        out.append("m");
        out.append(self.as_str());
        out.append("\u{1b}[0m");
        out
    }
}

} // verus!
