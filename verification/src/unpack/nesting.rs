//! A guard in front of the TOML parser. The parser descends once for each
//! bracket that is open and once for each part of a dotted key, so a text
//! that nests without end would exhaust the stack. The guard scans the
//! text as the parser's lexer does, strings and comments aside, and
//! refuses what goes beyond a limit.

use vstd::prelude::*;

verus! {

/// How deep a manifest may nest: the brackets that are open and the dots
/// outside strings on the line, taken together.
pub const NEST_LIMIT: usize = 32;

/// Where a scan stands: in plain text, in a basic string, behind a
/// backslash in a basic string, in a literal string, or in a comment.
#[derive(Clone, Copy, Debug, PartialEq, Eq, Structural)]
pub enum Mode {
    Plain,
    Basic,
    Escape,
    Literal,
    Comment,
}

/// The state of a scan.
#[derive(Clone, Copy, Debug)]
pub struct Scan {
    pub mode: Mode,
    /// The brackets and braces that are open.
    pub open: usize,
    /// The dots in plain text on the line so far.
    pub dots: usize,
    /// The last byte, if it was a quote of either kind; else 0.
    pub quote: u8,
    /// How many times that quote has come in a row.
    pub run: u8,
    /// Whether the text went beyond the limit, or held three quotes of one
    /// kind in a row, which may open a string of many lines.
    pub refused: bool,
}

/// The state in front of a text.
pub open spec fn scan_start() -> Scan {
    Scan { mode: Mode::Plain, open: 0, dots: 0, quote: 0, run: 0, refused: false }
}

/// Whether `b` is a quote of either kind.
pub open spec fn is_quote(b: u8) -> bool {
    b == 0x22 || b == 0x27
}

/// Where a scan stands after the byte `b`: a line feed ends strings and
/// comments; in plain text a quote opens a string and `#` a comment; a
/// basic string ends at a quote that no backslash stands in front of, a
/// literal string at its quote.
pub open spec fn mode_after(m: Mode, b: u8) -> Mode {
    if b == 0x0a {
        Mode::Plain
    } else {
        match m {
            Mode::Plain => if b == 0x22 {
                Mode::Basic
            } else if b == 0x27 {
                Mode::Literal
            } else if b == 0x23 {
                Mode::Comment
            } else {
                Mode::Plain
            },
            Mode::Basic => if b == 0x5c {
                Mode::Escape
            } else if b == 0x22 {
                Mode::Plain
            } else {
                Mode::Basic
            },
            Mode::Escape => Mode::Basic,
            Mode::Literal => if b == 0x27 {
                Mode::Plain
            } else {
                Mode::Literal
            },
            Mode::Comment => Mode::Comment,
        }
    }
}

/// The state after the byte `b`. In plain text `[` and `{` open, `]` and
/// `}` close, and a dot counts for its line. A scan that was refused stays
/// refused.
pub open spec fn scan_after(s: Scan, b: u8) -> Scan {
    if s.refused {
        s
    } else {
        let plain = s.mode == Mode::Plain && b != 0x0a;
        let open: int = if plain && (b == 0x5b || b == 0x7b) {
            s.open + 1
        } else if plain && (b == 0x5d || b == 0x7d) && s.open > 0 {
            s.open - 1
        } else {
            s.open as int
        };
        let dots: int = if b == 0x0a {
            0
        } else if plain && b == 0x2e {
            s.dots + 1
        } else {
            s.dots as int
        };
        let run: int = if is_quote(b) && s.quote == b {
            s.run + 1
        } else if is_quote(b) {
            1
        } else {
            0
        };
        Scan {
            mode: mode_after(s.mode, b),
            open: open as usize,
            dots: dots as usize,
            quote: if is_quote(b) {
                b
            } else {
                0
            },
            run: run as u8,
            refused: run >= 3 || open + dots > NEST_LIMIT,
        }
    }
}

/// The state after the text `text`.
pub open spec fn scanned(text: Seq<u8>) -> Scan
    decreases text.len(),
{
    if text.len() == 0 {
        scan_start()
    } else {
        scan_after(scanned(text.drop_last()), text.last())
    }
}

/// Whether the text stays within the limit: at no place are more brackets
/// open, together with the dots of the line, than the limit allows, and
/// nowhere stand three quotes of one kind in a row.
pub open spec fn nests_within(text: Seq<u8>) -> bool {
    !scanned(text).refused
}

/// A state that was not refused is within the limit.
pub open spec fn scan_bounded(s: Scan) -> bool {
    !s.refused ==> s.open + s.dots <= NEST_LIMIT && s.run <= 2
}

/// The state after one more byte.
fn scan_step(s: Scan, b: u8) -> (r: Scan)
    requires
        scan_bounded(s),
    ensures
        r == scan_after(s, b),
        scan_bounded(r),
{
    if s.refused {
        return s;
    }
    let quote = b == 0x22 || b == 0x27;
    let line = b == 0x0a;
    let plain = s.mode == Mode::Plain && !line;
    let mode = if line {
        Mode::Plain
    } else {
        match s.mode {
            Mode::Plain => if b == 0x22 {
                Mode::Basic
            } else if b == 0x27 {
                Mode::Literal
            } else if b == 0x23 {
                Mode::Comment
            } else {
                Mode::Plain
            },
            Mode::Basic => if b == 0x5c {
                Mode::Escape
            } else if b == 0x22 {
                Mode::Plain
            } else {
                Mode::Basic
            },
            Mode::Escape => Mode::Basic,
            Mode::Literal => if b == 0x27 {
                Mode::Plain
            } else {
                Mode::Literal
            },
            Mode::Comment => Mode::Comment,
        }
    };
    let open: usize = if plain && (b == 0x5b || b == 0x7b) {
        s.open + 1
    } else if plain && (b == 0x5d || b == 0x7d) && s.open > 0 {
        s.open - 1
    } else {
        s.open
    };
    let dots: usize = if line {
        0
    } else if plain && b == 0x2e {
        s.dots + 1
    } else {
        s.dots
    };
    let run: u8 = if quote && s.quote == b {
        s.run + 1
    } else if quote {
        1
    } else {
        0
    };
    Scan {
        mode,
        open,
        dots,
        quote: if quote {
            b
        } else {
            0
        },
        run,
        refused: run >= 3 || open + dots > NEST_LIMIT,
    }
}

/// Whether the text stays within the limit.
pub fn stays_within(text: &[u8]) -> (r: bool)
    ensures
        r == nests_within(text@),
{
    let mut s = Scan { mode: Mode::Plain, open: 0, dots: 0, quote: 0, run: 0, refused: false };
    let mut i: usize = 0;
    proof {
        assert(text@.take(0) =~= Seq::empty());
    }
    while i < text.len()
        invariant
            i <= text.len(),
            s == scanned(text@.take(i as int)),
            scan_bounded(s),
        decreases text.len() - i,
    {
        proof {
            assert(text@.take(i + 1).drop_last() =~= text@.take(i as int));
            assert(text@.take(i + 1).last() == text@[i as int]);
        }
        s = scan_step(s, text[i]);
        i = i + 1;
    }
    proof {
        assert(text@.take(i as int) =~= text@);
    }
    !s.refused
}

} // verus!
