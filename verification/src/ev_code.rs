//! The code that names a button or an axis of a pad.

use vstd::prelude::*;
use vstd::string::*;

verus! {

/// The native code of one button or axis. [`crate::native_ev_codes`] numbers them.
#[derive(Copy, Clone, Debug, Eq, PartialEq, Ord, PartialOrd, Hash, Structural)]
pub struct EvCode(pub u8);

/// The character of a decimal digit.
pub open spec fn digit(d: nat) -> char {
    ('0' as int + d) as char
}

/// The decimal notation of `n`, without leading zeros.
pub open spec fn decimal(n: nat) -> Seq<char>
    decreases n,
{
    if n < 10 {
        seq![digit(n)]
    } else {
        decimal(n / 10).push(digit(n % 10))
    }
}

/// What [`decimal`] notation stands for, read from the left.
pub open spec fn numeral_value(s: Seq<char>) -> int
    decreases s.len(),
{
    if s.len() == 0 {
        0
    } else {
        10 * numeral_value(s.drop_last()) + (s.last() as int - '0' as int)
    }
}

impl EvCode {
    /// The code as a number.
    pub fn into_u32(self) -> (code: u32)
        ensures
            code == self.0,
    {
        self.0 as u32
    }

    /// The code in decimal, as it is shown to people.
    pub fn to_decimal(self) -> (text: String)
        ensures
            text@ == decimal(self.0 as nat),
            numeral_value(text@) == self.0,
            text@.len() == (if self.0 < 10 {
                1int
            } else if self.0 < 100 {
                2
            } else {
                3
            }),
            forall|k: int| 0 <= k < text@.len() ==> '0' <= #[trigger] text@[k] <= '9',
    {
        let code: u8 = self.0;
        let mut text = String::new();
        if code >= 100 {
            text.append(digit_text(code / 100));
        }
        if code >= 10 {
            text.append(digit_text(code / 10 % 10));
        }
        text.append(digit_text(code % 10));
        proof {
            reveal_with_fuel(decimal, 3);
            assert((code as nat) / 10 / 10 == code as nat / 100);
            assert(text@ =~= decimal(code as nat));
            lemma_decimal_value(code as nat);
        }
        text
    }
}

/// One decimal digit as text.
fn digit_text(d: u8) -> (text: &'static str)
    requires
        d < 10,
    ensures
        text@ == seq![digit(d as nat)],
{
    proof {
        reveal_strlit("0");
        reveal_strlit("1");
        reveal_strlit("2");
        reveal_strlit("3");
        reveal_strlit("4");
        reveal_strlit("5");
        reveal_strlit("6");
        reveal_strlit("7");
        reveal_strlit("8");
        reveal_strlit("9");
    }
    match d {
        0 => "0",
        1 => "1",
        2 => "2",
        3 => "3",
        4 => "4",
        5 => "5",
        6 => "6",
        7 => "7",
        8 => "8",
        _ => "9",
    }
}

proof fn lemma_decimal_value(n: nat)
    ensures
        numeral_value(decimal(n)) == n,
    decreases n,
{
    if n < 10 {
        reveal_with_fuel(numeral_value, 2);
        assert(decimal(n).drop_last() =~= Seq::<char>::empty());
    } else {
        lemma_decimal_value(n / 10);
        assert(decimal(n).drop_last() =~= decimal(n / 10));
    }
}

/// The text of a code reads back as the code, so two codes with the same text are
/// the same code.
pub proof fn law_text_names_the_code(a: EvCode, b: EvCode)
    ensures
        numeral_value(decimal(a.0 as nat)) == a.0,
        decimal(a.0 as nat) == decimal(b.0 as nat) ==> a == b,
{
    lemma_decimal_value(a.0 as nat);
    lemma_decimal_value(b.0 as nat);
}

} // verus!
