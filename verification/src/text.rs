//! Decimal rendering of integers and fixed-width columns, as sequences of characters.

use vstd::prelude::*;
use vstd::string::*;

verus! {

/// The character that writes the digit `d`, for `0 <= d <= 9`.
pub open spec fn digit_char(d: int) -> char {
    if d == 0 {
        '0'
    } else if d == 1 {
        '1'
    } else if d == 2 {
        '2'
    } else if d == 3 {
        '3'
    } else if d == 4 {
        '4'
    } else if d == 5 {
        '5'
    } else if d == 6 {
        '6'
    } else if d == 7 {
        '7'
    } else if d == 8 {
        '8'
    } else {
        '9'
    }
}

/// The decimal digits of a natural number, most significant first, without leading zeros.
pub open spec fn nat_text(n: nat) -> Seq<char>
    decreases n,
{
    if n < 10 {
        seq![digit_char(n as int)]
    } else {
        nat_text(n / 10).push(digit_char((n % 10) as int))
    }
}

/// The decimal text of an integer: a minus sign for a negative number, then its magnitude.
pub open spec fn decimal_text(n: int) -> Seq<char> {
    if n < 0 {
        seq!['-'] + nat_text((-n) as nat)
    } else {
        nat_text(n as nat)
    }
}

/// `s` followed by as many spaces as it takes to reach `width` characters; `s` itself where
/// it is already that long.
pub open spec fn pad_right(s: Seq<char>, width: nat) -> Seq<char> {
    if s.len() >= width {
        s
    } else {
        s + Seq::new((width - s.len()) as nat, |i: int| ' ')
    }
}

fn digit_str(d: u64) -> (s: &'static str)
    requires
        d < 10,
    ensures
        s@ == seq![digit_char(d as int)],
{
    proof {
        reveal_strlit("0");
        reveal_strlit("1");
        reveal_strlit("2");
        reveal_strlit("3");
        reveal_strlit("4");
        reveal_strlit("5");
        reveal_strlit("6");
        reveal_strlit("7");
        reveal_strlit("8");
        reveal_strlit("9");
    }
    let s = if d == 0 {
        "0"
    } else if d == 1 {
        "1"
    } else if d == 2 {
        "2"
    } else if d == 3 {
        "3"
    } else if d == 4 {
        "4"
    } else if d == 5 {
        "5"
    } else if d == 6 {
        "6"
    } else if d == 7 {
        "7"
    } else if d == 8 {
        "8"
    } else {
        "9"
    };
    assert(s@ =~= seq![digit_char(d as int)]);
    s
}

/// Writes an unsigned number in decimal.
pub fn render_u64(n: u64) -> (s: String)
    ensures
        s@ == nat_text(n as nat),
{
    let mut s = String::from_str(digit_str(n % 10));
    let mut rest: u64 = n / 10;
    while rest > 0
        invariant
            nat_text(n as nat) == (if rest > 0 {
                nat_text(rest as nat)
            } else {
                Seq::<char>::empty()
            }) + s@,
        decreases rest,
    {
        let mut longer = String::from_str(digit_str(rest % 10));
        longer.append(s.as_str());
        proof {
            let lead = if rest / 10 > 0 {
                nat_text((rest / 10) as nat)
            } else {
                Seq::<char>::empty()
            };
            assert(nat_text(rest as nat) =~= lead + seq![digit_char((rest % 10) as int)]);
            assert(nat_text(n as nat) =~= lead + longer@);
        }
        s = longer;
        rest = rest / 10;
    }
    s
}

/// Writes a signed number in decimal.
pub fn render_i64(n: i64) -> (s: String)
    ensures
        s@ == decimal_text(n as int),
{
    if n < 0 {
        let magnitude: u64 = if n == i64::MIN {
            0x8000_0000_0000_0000u64
        } else {
            (-n) as u64
        };
        let digits = render_u64(magnitude);
        let mut s = String::from_str("-");
        s.append(digits.as_str());
        proof {
            reveal_strlit("-");
            assert(s@ =~= seq!['-'] + nat_text((-n) as nat));
        }
        s
    } else {
        render_u64(n as u64)
    }
}

/// Writes `text` left-aligned in a column of `width` characters.
pub fn left_aligned(text: &str, width: usize) -> (s: String)
    ensures
        s@ == pad_right(text@, width as nat),
{
    let mut s = String::from_str(text);
    let mut filled: usize = text.unicode_len();
    while filled < width
        invariant
            filled as nat == s@.len(),
            filled as nat >= text@.len(),
            filled as nat == text@.len() || filled <= width,
            s@ == text@ + Seq::new((filled - text@.len()) as nat, |i: int| ' '),
        decreases width - filled,
    {
        s.append(" ");
        filled = filled + 1;
        proof {
            reveal_strlit(" ");
            assert(s@ =~= text@ + Seq::new((filled - text@.len()) as nat, |i: int| ' '));
        }
    }
    assert(s@ =~= pad_right(text@, width as nat));
    s
}

} // verus!
