use vstd::prelude::*;
use vstd::string::StringExecFns;

verus! {

/// A distinct number type for line numbers, to prevent confusion with
/// other numerical data such as byte offsets or columns.
///
/// Zero-indexed internally; [`LineNumber::display`] renders it
/// one-indexed for humans. A 32-bit value bounds indexed buffers to
/// about four billion lines, which keeps the struct small.
#[derive(Clone, Copy, PartialEq, Eq, PartialOrd, Ord, Hash, Debug, Structural)]
pub struct LineNumber(pub u32);

/// The character for a single decimal digit `d`.
pub open spec fn digit_char(d: nat) -> char {
    if d == 0 {
        '0'
    } else if d == 1 {
        '1'
    } else if d == 2 {
        '2'
    } else if d == 3 {
        '3'
    } else if d == 4 {
        '4'
    } else if d == 5 {
        '5'
    } else if d == 6 {
        '6'
    } else if d == 7 {
        '7'
    } else if d == 8 {
        '8'
    } else {
        '9'
    }
}

/// The decimal digit string of `n`, most significant digit first.
pub open spec fn decimal(n: nat) -> Seq<char>
    decreases n,
{
    if n < 10 {
        seq![digit_char(n)]
    } else {
        decimal(n / 10).push(digit_char(n % 10))
    }
}

/// A one-character string slice holding the decimal digit `d`.
fn digit_str(d: u32) -> (r: &'static str)
    requires
        d < 10,
    ensures
        r@ == seq![digit_char(d as nat)],
{
    proof {
        reveal_strlit("0");
        reveal_strlit("1");
        reveal_strlit("2");
        reveal_strlit("3");
        reveal_strlit("4");
        reveal_strlit("5");
        reveal_strlit("6");
        reveal_strlit("7");
        reveal_strlit("8");
        reveal_strlit("9");
    }
    let r: &'static str = if d == 0 {
        "0"
    } else if d == 1 {
        "1"
    } else if d == 2 {
        "2"
    } else if d == 3 {
        "3"
    } else if d == 4 {
        "4"
    } else if d == 5 {
        "5"
    } else if d == 6 {
        "6"
    } else if d == 7 {
        "7"
    } else if d == 8 {
        "8"
    } else {
        "9"
    };
    proof {
        assert(r@ =~= seq![digit_char(d as nat)]);
    }
    r
}

/// The decimal digit string of `n`.
fn decimal_string(n: u32) -> (r: String)
    ensures
        r@ == decimal(n as nat),
    decreases n,
{
    let d: u32 = n % 10;
    let digit: &'static str = digit_str(d);
    if n < 10 {
        let mut s = String::new();
        s.append(digit);
        proof {
            assert(s@ =~= decimal(n as nat));
        }
        s
    } else {
        proof {
            vstd::arithmetic::div_mod::lemma_div_is_strictly_smaller(n as int, 10);
        }
        let mut s = decimal_string(n / 10);
        s.append(digit);
        proof {
            assert(s@ =~= decimal(n as nat));
        }
        s
    }
}

impl LineNumber {
    /// The line number as a one-indexed number formatted as a string,
    /// intended to show users: `display` returns `"1"` for the first
    /// line.
    pub fn display(self) -> (r: String)
        requires
            self.0 < u32::MAX,
        ensures
            r@ == decimal((self.0 + 1) as nat),
    {
        decimal_string(self.0 + 1)
    }

    /// The line number as a zero-indexed integer: `as_usize` returns 0
    /// for the first line.
    pub fn as_usize(self) -> (r: usize)
        ensures
            r == self.0 as usize,
    {
        self.0 as usize
    }
}

impl From<u32> for LineNumber {
    fn from(number: u32) -> (r: Self) {
        LineNumber(number)
    }
}

impl vstd::std_specs::convert::FromSpecImpl<u32> for LineNumber {
    open spec fn obeys_from_spec() -> bool {
        true
    }

    open spec fn from_spec(number: u32) -> Self {
        LineNumber(number)
    }
}

} // verus!
