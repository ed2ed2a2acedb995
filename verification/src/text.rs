//! Numbers in messages.
use vstd::prelude::*;
use vstd::string::StringExecFns;

verus! {

/// The character of a digit.
pub open spec fn digit(d: nat) -> char {
    ('0' as u32 + d) as char
}

/// A number in decimal, without leading zeros.
pub open spec fn decimal(n: nat) -> Seq<char>
    decreases n,
{
    if n < 10 {
        seq![digit(n)]
    } else {
        decimal(n / 10).push(digit(n % 10))
    }
}

fn digit_text(d: usize) -> (r: &'static str)
    requires
        d < 10,
    ensures
        r@ == seq![digit(d as nat)],
{
    proof {
        reveal_strlit("0");
        reveal_strlit("1");
        reveal_strlit("2");
        reveal_strlit("3");
        reveal_strlit("4");
        reveal_strlit("5");
        reveal_strlit("6");
        reveal_strlit("7");
        reveal_strlit("8");
        reveal_strlit("9");
    }
    let r: &'static str = match d {
        0 => "0",
        1 => "1",
        2 => "2",
        3 => "3",
        4 => "4",
        5 => "5",
        6 => "6",
        7 => "7",
        8 => "8",
        _ => "9",
    };
    assert(r@ =~= seq![digit(d as nat)]);
    r
}

/// Adds a number in decimal to the end of a text.
pub fn append_number(text: &mut String, n: usize)
    ensures
        final(text)@ == old(text)@ + decimal(n as nat),
    decreases n,
{
    if n >= 10 {
        append_number(text, n / 10);
    }
    let ghost before = text@;
    text.append(digit_text(n % 10));
    proof {
        let last = digit((n % 10) as nat);
        if n >= 10 {
            assert(old(text)@ + decimal(n as nat) =~= (old(text)@ + decimal((n / 10) as nat)).push(
                last,
            ));
        }
        assert(before + seq![last] =~= before.push(last));
    }
}

/// The decimal form of a number: a single digit stands for itself, and one more digit at the end
/// multiplies by ten and adds.
pub proof fn lemma_decimal(n: nat, d: nat)
    requires
        d < 10,
    ensures
        decimal(d).len() == 1,
        decimal(d)[0] as u32 == 48 + d,
        n > 0 ==> decimal(10 * n + d) == decimal(n) + decimal(d),
{
    assert(decimal(d) =~= seq![digit(d)]);
    if n > 0 {
        assert((10 * n + d) / 10 == n);
        assert((10 * n + d) % 10 == d);
        assert(decimal(10 * n + d) =~= decimal(n) + decimal(d));
    }
}

} // verus!
