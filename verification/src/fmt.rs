//! Verified text rendering: decimal numbers and shapes, for the
//! handle's string representation.

use vstd::prelude::*;
use vstd::string::StringExecFns;
use vstd::arithmetic::div_mod::{lemma_fundamental_div_mod, lemma_mod_division_less_than_divisor};

verus! {

/// The decimal digit character for one digit value.
pub open spec fn digit_char(d: nat) -> char {
    if d == 0 {
        '0'
    } else if d == 1 {
        '1'
    } else if d == 2 {
        '2'
    } else if d == 3 {
        '3'
    } else if d == 4 {
        '4'
    } else if d == 5 {
        '5'
    } else if d == 6 {
        '6'
    } else if d == 7 {
        '7'
    } else if d == 8 {
        '8'
    } else {
        '9'
    }
}

/// The decimal rendering of a number, most significant digit first.
pub open spec fn dec_chars(n: nat) -> Seq<char>
    decreases n,
{
    if n < 10 {
        seq![digit_char(n)]
    } else {
        dec_chars(n / 10) + seq![digit_char(n % 10)]
    }
}

/// One decimal digit as text.
fn digit_str(d: usize) -> (r: &'static str)
    requires
        d < 10,
    ensures
        r@ == seq![digit_char(d as nat)],
{
    proof {
        reveal_strlit("0");
        reveal_strlit("1");
        reveal_strlit("2");
        reveal_strlit("3");
        reveal_strlit("4");
        reveal_strlit("5");
        reveal_strlit("6");
        reveal_strlit("7");
        reveal_strlit("8");
        reveal_strlit("9");
    }
    match d {
        0 => "0",
        1 => "1",
        2 => "2",
        3 => "3",
        4 => "4",
        5 => "5",
        6 => "6",
        7 => "7",
        8 => "8",
        _ => {
            proof {
                assert(d == 9);
            }
            "9"
        },
    }
}

/// Renders a number in decimal.
pub fn dec_str(n: usize) -> (r: String)
    ensures
        r@ == dec_chars(n as nat),
    decreases n,
{
    if n < 10 {
        digit_str(n).to_owned()
    } else {
        proof {
            lemma_fundamental_div_mod(n as int, 10);
            lemma_mod_division_less_than_divisor(n as int, 10);
        }
        let mut s = dec_str(n / 10);
        s.append(digit_str(n % 10));
        proof {
            assert(s@ =~= dec_chars(n as nat));
        }
        s
    }
}

/// The rendering of a shape: the extents in decimal, comma-separated,
/// inside square brackets.
pub open spec fn shape_chars(s: Seq<usize>) -> Seq<char>
    decreases s.len(),
{
    if s.len() == 0 {
        "["@ + "]"@
    } else if s.len() == 1 {
        "["@ + dec_chars(s[0] as nat) + "]"@
    } else {
        shape_chars(s.drop_last()).drop_last() + ", "@ + dec_chars(s.last() as nat) + "]"@
    }
}

/// Renders a shape as text.
pub fn shape_str(shape: &Vec<usize>) -> (r: String)
    ensures
        r@ == shape_chars(shape@),
{
    proof {
        reveal_strlit("[");
        reveal_strlit("]");
        reveal_strlit(", ");
    }
    let mut s = String::from_str("[");
    let n = shape.len();
    let mut i: usize = 0;
    while i < n
        invariant
            n == shape@.len(),
            i <= n,
            i == 0 ==> s@ == "["@,
            0 < i <= n ==> s@ + "]"@ == shape_chars(shape@.take(i as int)),
        decreases n - i,
    {
        let ghost s0 = s@;
        if i > 0 {
            s.append(", ");
        }
        let e = shape[i];
        let d = dec_str(e);
        s.append(d.as_str());
        proof {
            reveal_strlit("[");
            reveal_strlit("]");
            reveal_strlit(", ");
            let pre = shape@.take(i as int + 1);
            assert(pre.drop_last() =~= shape@.take(i as int));
            assert(pre.last() == shape@[i as int]);
            if i == 0 {
                assert(s@ + "]"@ =~= shape_chars(pre));
            } else {
                assert((s0 + "]"@).drop_last() =~= s0);
                assert(s@ + "]"@ =~= shape_chars(pre));
            }
        }
        i = i + 1;
    }
    s.append("]");
    proof {
        if n == 0 {
            assert(s@ =~= shape_chars(shape@));
        } else {
            assert(shape@.take(n as int) =~= shape@);
        }
    }
    s
}

} // verus!
