//! Putting messages together: words, numbers and runs of blanks.

use vstd::prelude::*;
use vstd::string::*;

verus! {

/// The decimal digits.
pub const DIGITS: [&'static str; 10] = ["0", "1", "2", "3", "4", "5", "6", "7", "8", "9"];

/// The decimal digits of `n`.
pub open spec fn decimal(n: nat) -> Seq<char>
    decreases n,
{
    if n < 10 {
        DIGITS@[n as int]@
    } else {
        decimal(n / 10) + DIGITS@[(n % 10) as int]@
    }
}

/// `n` spaces.
pub open spec fn blanks(n: int) -> Seq<char>
    decreases n,
{
    if n <= 0 {
        Seq::empty()
    } else {
        blanks(n - 1) + " "@
    }
}

/// A run of blanks has as many characters as it says, and all of them are spaces.
pub proof fn law_blanks(n: int)
    requires
        0 <= n,
    ensures
        blanks(n) == Seq::new(n as nat, |i: int| ' '),
    decreases n,
{
    reveal_strlit(" ");
    if n > 0 {
        law_blanks(n - 1);
        assert(blanks(n) =~= Seq::new(n as nat, |i: int| ' '));
    } else {
        assert(blanks(n) =~= Seq::new(n as nat, |i: int| ' '));
    }
}

/// Three pieces in a row.
pub fn join3(a: &str, b: &str, c: &str) -> (r: String)
    ensures
        r@ == a@ + b@ + c@,
{
    let mut r = a.to_owned();
    r.append(b);
    r.append(c);
    r
}

/// The decimal digits of `n`.
pub fn decimal_text(n: usize) -> (r: String)
    ensures
        r@ == decimal(n as nat),
    decreases n,
{
    if n < 10 {
        DIGITS[n].to_owned()
    } else {
        let mut r = decimal_text(n / 10);
        r.append(DIGITS[n % 10]);
        r
    }
}

/// `n` spaces.
pub fn blank_text(n: usize) -> (r: String)
    ensures
        r@ == blanks(n as int),
{
    let mut r = String::new();
    let mut i: usize = 0;
    while i < n
        invariant
            i <= n,
            r@ == blanks(i as int),
        decreases n - i,
    {
        r.append(" ");
        i += 1;
    }
    r
}

} // verus!
