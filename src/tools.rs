//! Small helpers around the engine: texts shown to users and the clock.

use vstd::prelude::*;
use vstd::string::StringExecFns;

verus! {

/// The character of a decimal digit.
pub open spec fn digit(d: int) -> char {
    if d == 0 {
        '0'
    } else if d == 1 {
        '1'
    } else if d == 2 {
        '2'
    } else if d == 3 {
        '3'
    } else if d == 4 {
        '4'
    } else if d == 5 {
        '5'
    } else if d == 6 {
        '6'
    } else if d == 7 {
        '7'
    } else if d == 8 {
        '8'
    } else {
        '9'
    }
}

/// The decimal digits of `n`, without leading zeros.
pub open spec fn decimal(n: nat) -> Seq<char>
    decreases n,
{
    if n < 10 {
        seq![digit(n as int)]
    } else {
        decimal(n / 10) + seq![digit((n % 10) as int)]
    }
}

/// An integer in decimal, with a minus sign when negative.
pub open spec fn signed_decimal(x: int) -> Seq<char> {
    if x < 0 {
        seq!['-'] + decimal((-x) as nat)
    } else {
        decimal(x as nat)
    }
}

/// The integers in decimal, separated by a comma and a space.
pub open spec fn joined(v: Seq<i64>) -> Seq<char>
    decreases v.len(),
{
    if v.len() == 0 {
        Seq::empty()
    } else if v.len() == 1 {
        signed_decimal(v[0] as int)
    } else {
        joined(v.drop_last()) + seq![',', ' '] + signed_decimal(v.last() as int)
    }
}

fn digit_text(d: u64) -> (r: &'static str)
    requires
        d < 10,
    ensures
        r@ == seq![digit(d as int)],
{
    proof {
        reveal_strlit("0");
        reveal_strlit("1");
        reveal_strlit("2");
        reveal_strlit("3");
        reveal_strlit("4");
        reveal_strlit("5");
        reveal_strlit("6");
        reveal_strlit("7");
        reveal_strlit("8");
        reveal_strlit("9");
    }
    if d == 0 {
        "0"
    } else if d == 1 {
        "1"
    } else if d == 2 {
        "2"
    } else if d == 3 {
        "3"
    } else if d == 4 {
        "4"
    } else if d == 5 {
        "5"
    } else if d == 6 {
        "6"
    } else if d == 7 {
        "7"
    } else if d == 8 {
        "8"
    } else {
        "9"
    }
}

/// Appends the decimal digits of `n` to `s`.
pub fn push_decimal(s: &mut String, n: u64)
    ensures
        final(s)@ == old(s)@ + decimal(n as nat),
    decreases n,
{
    if n >= 10 {
        push_decimal(s, n / 10);
    }
    s.append(digit_text(n % 10));
    proof {
        if n >= 10 {
            assert(final(s)@ =~= old(s)@ + decimal(n as nat));
        } else {
            assert(final(s)@ =~= old(s)@ + decimal(n as nat));
        }
    }
}

/// Appends `x` in decimal to `s`.
pub fn push_signed(s: &mut String, x: i64)
    ensures
        final(s)@ == old(s)@ + signed_decimal(x as int),
{
    if x < 0 {
        proof {
            reveal_strlit("-");
        }
        s.append("-");
        let m: u64 = (-(x as i128)) as u64;
        push_decimal(s, m);
        assert(final(s)@ =~= old(s)@ + signed_decimal(x as int));
    } else {
        push_decimal(s, x as u64);
    }
}

/// The solved task ids as a list: `[1, 2, 3]`.
pub fn progress(solved: &Vec<i64>) -> (r: String)
    ensures
        r@ == seq!['['] + joined(solved@) + seq![']'],
{
    proof {
        reveal_strlit("[");
    }
    let mut s = String::new();
    s.append("[");
    let mut i: usize = 0;
    while i < solved.len()
        invariant
            i <= solved@.len(),
            s@ == seq!['['] + joined(solved@.take(i as int)),
        decreases solved@.len() - i,
    {
        let ghost pre = s@;
        assert(solved@.take(i + 1).drop_last() =~= solved@.take(i as int));
        assert(solved@.take(i + 1).last() == solved@[i as int]);
        if i > 0 {
            proof {
                reveal_strlit(", ");
            }
            s.append(", ");
        }
        push_signed(&mut s, solved[i]);
        if i == 0 {
            assert(solved@.take(1) =~= seq![solved@[0]]);
            assert(joined(solved@.take(0)) =~= Seq::<char>::empty());
        }
        assert(s@ =~= seq!['['] + joined(solved@.take(i + 1)));
        i = i + 1;
    }
    proof {
        reveal_strlit("]");
    }
    s.append("]");
    assert(solved@.take(i as int) =~= solved@);
    s
}

/// The version line: the package version and, in parentheses, the source
/// revision it was built from.
pub fn version(package_version: &str, revision: &str) -> (r: String)
    ensures
        r@ == package_version@ + seq![' ', '('] + revision@ + seq![')'],
{
    proof {
        reveal_strlit(" (");
        reveal_strlit(")");
    }
    let mut s: String = package_version.to_owned();
    s.append(" (");
    s.append(revision);
    s.append(")");
    assert(s@ =~= package_version@ + seq![' ', '('] + revision@ + seq![')']);
    s
}

/// The current time in seconds since 1970-01-01 (zero if the clock is set
/// before then, `i64::MAX` past what fits). Relies on
/// `std::time::SystemTime::now` and `duration_since`, and on
/// `i64::try_from`; of the value only that it is not negative is promised.
#[verifier::external_body]
pub fn epoch() -> (r: i64)
    ensures
        r >= 0,
{
    match std::time::SystemTime::now().duration_since(std::time::UNIX_EPOCH) {
        Ok(d) => i64::try_from(d.as_secs()).unwrap_or(i64::MAX),
        Err(_) => 0,
    }
}

} // verus!
