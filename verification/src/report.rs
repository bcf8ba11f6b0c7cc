//! Rendering of diagnostics for a human reader. The scanner itself only
//! records [`crate::scanner::ErrorReport`] values; turning one into the
//! report line `[line N] error LOCATION: MESSAGE` happens here, and printing
//! it is the driver's business.

use vstd::prelude::*;
use vstd::string::StringExecFns;

verus! {

/// The character of one decimal digit.
pub open spec fn digit_char_of(d: int) -> char
    recommends
        0 <= d <= 9,
{
    if d == 0 {
        '0'
    } else if d == 1 {
        '1'
    } else if d == 2 {
        '2'
    } else if d == 3 {
        '3'
    } else if d == 4 {
        '4'
    } else if d == 5 {
        '5'
    } else if d == 6 {
        '6'
    } else if d == 7 {
        '7'
    } else if d == 8 {
        '8'
    } else {
        '9'
    }
}

/// The decimal spelling of `n`: most significant digit first, no leading
/// zeros (zero is spelled `0`).
pub open spec fn decimal_of(n: nat) -> Seq<char>
    decreases n,
{
    if n < 10 {
        seq![digit_char_of(n as int)]
    } else {
        decimal_of(n / 10).push(digit_char_of((n % 10) as int))
    }
}

/// Runtime counterpart of [`digit_char_of`].
fn to_digit_char(d: usize) -> (r: char)
    requires
        d <= 9,
    ensures
        r == digit_char_of(d as int),
{
    if d == 0 {
        '0'
    } else if d == 1 {
        '1'
    } else if d == 2 {
        '2'
    } else if d == 3 {
        '3'
    } else if d == 4 {
        '4'
    } else if d == 5 {
        '5'
    } else if d == 6 {
        '6'
    } else if d == 7 {
        '7'
    } else if d == 8 {
        '8'
    } else {
        '9'
    }
}

/// The decimal spelling of `n` as a string.
pub fn decimal_string(n: usize) -> (r: String)
    ensures
        r@ == decimal_of(n as nat),
{
    let mut digits: Vec<char> = Vec::new();
    let mut m: usize = n;
    proof {
        assert(decimal_of(n as nat) =~= decimal_of(m as nat) + digits@);
    }
    while m >= 10
        invariant
            decimal_of(n as nat) == decimal_of(m as nat) + digits@,
        decreases m,
    {
        let ghost m0 = m as nat;
        let ghost digits0 = digits@;
        let d = to_digit_char(m % 10);
        digits.insert(0, d);
        m = m / 10;
        proof {
            assert(digits@ =~= seq![d] + digits0);
            assert(decimal_of(m0) == decimal_of(m0 / 10).push(digit_char_of((m0 % 10) as int)));
            assert(m as nat == m0 / 10);
            assert(d == digit_char_of((m0 % 10) as int));
            assert(decimal_of(m as nat) + digits@ =~= decimal_of(m0) + digits0);
        }
    }
    let ghost digits0 = digits@;
    let d = to_digit_char(m);
    digits.insert(0, d);
    proof {
        assert(decimal_of(m as nat) =~= seq![d]);
        assert(digits@ =~= seq![d] + digits0);
        assert(digits@ =~= decimal_of(n as nat));
    }
    crate::scanner::string_from_chars(digits.as_slice())
}

/// The rendered report line: `[line N] error LOCATION: MESSAGE`.
pub open spec fn report_view(line: nat, location: Seq<char>, message: Seq<char>) -> Seq<char> {
    "[line "@ + decimal_of(line) + "] error "@ + location + ": "@ + message
}

/// Renders one report for a human reader. The location is reserved for later
/// pipeline stages and is empty in every report the scanner makes.
pub fn report(line: usize, error_location: &str, message: &str) -> (r: String)
    ensures
        r@ == report_view(line as nat, error_location@, message@),
{
    let mut s = "[line ".to_owned();
    let num = decimal_string(line);
    s.append(num.as_str());
    s.append("] error ");
    s.append(error_location);
    s.append(": ");
    s.append(message);
    proof {
        assert(s@ =~= report_view(line as nat, error_location@, message@));
    }
    s
}

/// Renders one report with no location, the form every scanner report takes.
pub fn error(line: usize, message: &str) -> (r: String)
    ensures
        r@ == report_view(line as nat, Seq::<char>::empty(), message@),
{
    let r = report(line, "", message);
    proof {
        reveal_strlit("");
        assert(""@ =~= Seq::<char>::empty());
        assert(r@ =~= report_view(line as nat, Seq::<char>::empty(), message@));
    }
    r
}

} // verus!
