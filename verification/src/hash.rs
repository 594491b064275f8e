//! The identifier of a unit of change: a revision id, or the canonical
//! decimal rendering of a time-bucket boundary.

use vstd::prelude::*;
use vstd::string::StringExecFns;

verus! {

/// The character for one decimal digit.
pub open spec fn digit_char(d: int) -> char {
    if d == 0 {
        '0'
    } else if d == 1 {
        '1'
    } else if d == 2 {
        '2'
    } else if d == 3 {
        '3'
    } else if d == 4 {
        '4'
    } else if d == 5 {
        '5'
    } else if d == 6 {
        '6'
    } else if d == 7 {
        '7'
    } else if d == 8 {
        '8'
    } else {
        '9'
    }
}

/// The decimal digits of a natural number, most significant first, with
/// no leading zero except for zero itself.
pub open spec fn dec_digits(n: nat) -> Seq<char>
    decreases n,
{
    if n < 10 {
        seq![digit_char(n as int)]
    } else {
        dec_digits(n / 10).push(digit_char((n % 10) as int))
    }
}

/// The decimal rendering of an integer, with a leading minus sign when it
/// is negative.
pub open spec fn dec_int(n: int) -> Seq<char> {
    if n < 0 {
        seq!['-'] + dec_digits((-n) as nat)
    } else {
        dec_digits(n as nat)
    }
}

/// An identifier for a unit of change. Only its text matters: two hashes
/// are the same exactly when their text is.
#[derive(Debug, Clone, PartialEq, Eq)]
pub struct Hash {
    pub hash: String,
}

impl View for Hash {
    type V = Seq<char>;

    open spec fn view(&self) -> Seq<char> {
        self.hash@
    }
}

/// Appends the character of one decimal digit.
fn push_digit(s: &mut String, d: u64)
    requires
        d < 10,
    ensures
        final(s)@ == old(s)@ + seq![digit_char(d as int)],
{
    proof {
        reveal_strlit("0");
        reveal_strlit("1");
        reveal_strlit("2");
        reveal_strlit("3");
        reveal_strlit("4");
        reveal_strlit("5");
        reveal_strlit("6");
        reveal_strlit("7");
        reveal_strlit("8");
        reveal_strlit("9");
    }
    if d == 0 {
        s.append("0");
    } else if d == 1 {
        s.append("1");
    } else if d == 2 {
        s.append("2");
    } else if d == 3 {
        s.append("3");
    } else if d == 4 {
        s.append("4");
    } else if d == 5 {
        s.append("5");
    } else if d == 6 {
        s.append("6");
    } else if d == 7 {
        s.append("7");
    } else if d == 8 {
        s.append("8");
    } else {
        s.append("9");
    }
    proof {
        assert(final(s)@ =~= old(s)@ + seq![digit_char(d as int)]);
    }
}

/// Appends the decimal digits of a number.
fn push_dec(s: &mut String, n: u64)
    ensures
        final(s)@ == old(s)@ + dec_digits(n as nat),
    decreases n,
{
    if n >= 10 {
        push_dec(s, n / 10);
    }
    push_digit(s, n % 10);
    proof {
        if n < 10 {
            assert(n % 10 == n);
            assert(final(s)@ =~= old(s)@ + dec_digits(n as nat));
        } else {
            assert(dec_digits(n as nat) =~= dec_digits(n as nat / 10).push(
                digit_char((n as nat % 10) as int),
            ));
            assert(final(s)@ =~= old(s)@ + dec_digits(n as nat));
        }
    }
}

impl Hash {
    /// The identifier with the given text.
    pub fn new(text: &str) -> (r: Hash)
        ensures
            r@ == text@,
    {
        Hash { hash: text.to_owned() }
    }

    /// An equal copy.
    pub fn duplicate(&self) -> (r: Hash)
        ensures
            r == *self,
    {
        Hash { hash: self.hash.clone() }
    }

    /// Whether two identifiers read the same.
    pub fn same_as(&self, other: &Hash) -> (r: bool)
        ensures
            r == (self@ == other@),
    {
        self.hash == other.hash
    }

    /// The canonical identifier of a time bucket: the boundary timestamp,
    /// in seconds, rendered in decimal.
    pub fn from_timestamp(ts: i64) -> (r: Hash)
        ensures
            r@ == dec_int(ts as int),
    {
        let mut s = String::new();
        if ts >= 0 {
            push_dec(&mut s, ts as u64);
        } else {
            proof {
                reveal_strlit("-");
            }
            s.append("-");
            let above: i64 = ts + 1;
            let magnitude: u64 = ((-above) as u64) + 1;
            proof {
                assert(magnitude == -(ts as int));
            }
            push_dec(&mut s, magnitude);
            proof {
                assert(s@ =~= seq!['-'] + dec_digits((-(ts as int)) as nat));
            }
        }
        Hash { hash: s }
    }
}

} // verus!
