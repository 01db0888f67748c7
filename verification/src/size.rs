//! A semantic value type for byte counts, with human-readable formatting.

use vstd::arithmetic::div_mod::lemma_div_denominator;
use vstd::prelude::*;
use vstd::string::StringExecFns;

verus! {

broadcast use vstd::string::group_string_axioms;

/// A non-negative byte count.
#[derive(Copy, Clone, Debug, PartialEq, Eq, Structural, PartialOrd, Ord, Hash)]
pub struct Size(pub u64);

/// One decimal digit as a character.
pub open spec fn dec_digit(n: nat) -> char
    recommends
        n < 10,
{
    seq!['0', '1', '2', '3', '4', '5', '6', '7', '8', '9'][n as int]
}

/// A count written in decimal, most significant digit first.
pub open spec fn dec_digits(n: nat) -> Seq<char>
    decreases n,
{
    if n < 10 {
        seq![dec_digit(n)]
    } else {
        dec_digits(n / 10).push(dec_digit(n % 10))
    }
}

/// Powers of 1024, the scale between consecutive units.
pub open spec fn pow1024(i: nat) -> nat
    decreases i,
{
    if i == 0 {
        1
    } else {
        1024 * pow1024((i - 1) as nat)
    }
}

/// The index of the largest unit whose scaled value is at least one: 0 for
/// bytes, 1 for kilobytes, and so on.
pub open spec fn unit_index(v: nat) -> nat
    decreases v,
{
    if v < 1024 {
        0
    } else {
        1 + unit_index(v / 1024)
    }
}

/// The unit names, by index.
pub open spec fn unit_name(i: nat) -> Seq<char> {
    if i == 0 {
        seq!['B']
    } else if i == 1 {
        seq!['K', 'B']
    } else if i == 2 {
        seq!['M', 'B']
    } else if i == 3 {
        seq!['G', 'B']
    } else if i == 4 {
        seq!['T', 'B']
    } else if i == 5 {
        seq!['P', 'B']
    } else if i == 6 {
        seq!['E', 'B']
    } else if i == 7 {
        seq!['Z', 'B']
    } else {
        seq!['Y', 'B']
    }
}

/// The byte count scaled to its unit, in hundredths, rounded half away from
/// zero: `round(100 * v / 1024^i)`.
pub open spec fn scaled_centi(v: nat) -> nat {
    let d = pow1024(unit_index(v));
    (100 * v + d / 2) / d
}

/// The human-readable form of a byte count: the scaled value with at most
/// two decimal places (trailing zeros dropped, as a plain number when none
/// remain), a space, and the largest unit keeping the scaled value below
/// 1024.
pub open spec fn display_spec(v: nat) -> Seq<char> {
    if v < 1024 {
        dec_digits(v) + seq![' ', 'B']
    } else {
        let c = scaled_centi(v);
        let whole = c / 100;
        let frac = c % 100;
        let number = if frac == 0 {
            dec_digits(whole)
        } else if frac % 10 == 0 {
            dec_digits(whole) + seq!['.', dec_digit(frac / 10)]
        } else {
            dec_digits(whole) + seq!['.', dec_digit(frac / 10), dec_digit(frac % 10)]
        };
        number + seq![' '] + unit_name(unit_index(v))
    }
}

impl Size {
    /// Creates a new `Size` with the given byte count.
    pub fn new(bytes: u64) -> (r: Self)
        ensures
            r.0 == bytes,
    {
        Self(bytes)
    }

    /// The byte count.
    pub fn value(&self) -> (r: u64)
        ensures
            r == self.0,
    {
        self.0
    }

    /// Combines two byte counts additively.
    pub fn add(self, other: Self) -> (r: Self)
        requires
            self.0 + other.0 <= u64::MAX,
        ensures
            r.0 == self.0 + other.0,
    {
        Self(self.0 + other.0)
    }

    /// The human-readable form of this byte count.
    pub fn display_string(&self) -> (r: String)
        ensures
            r@ == display_spec(self.0 as nat),
    {
        let v = self.0;
        if v < 1024 {
            let mut s = u64_to_string(v);
            proof {
                reveal_strlit(" B");
                assert(" B"@ =~= seq![' ', 'B']);
            }
            s.append(" B");
            return s;
        }
        let ghost vn = v as nat;
        proof {
            assert(pow1024(0) == 1);
        }
        let mut rem: u64 = v;
        let mut i: usize = 0;
        let mut d: u128 = 1;
        while rem >= 1024
            invariant
                v >= 1024,
                vn == v as nat,
                i <= 6,
                rem == vn / pow1024(i as nat),
                d == pow1024(i as nat),
                unit_index(vn) == i + unit_index(rem as nat),
            decreases rem,
        {
            proof {
                lemma_pow1024_bounds(i as nat);
                assert(vn / pow1024(i as nat) >= 1024);
                assert(vn >= 1024 * pow1024(i as nat)) by (nonlinear_arith)
                    requires
                        vn / pow1024(i as nat) >= 1024,
                        pow1024(i as nat) >= 1,
                ;
                assert(1024 * pow1024(i as nat) == pow1024(i as nat + 1));
                if i >= 6 {
                    lemma_pow1024_increases(7, i as nat + 1);
                    lemma_pow1024_7();
                    assert(false);
                }
                lemma_div_denominator(vn as int, pow1024(i as nat) as int, 1024);
                assert(pow1024(i as nat) * 1024 == pow1024(i as nat + 1)) by (nonlinear_arith)
                    requires
                        pow1024(i as nat + 1) == 1024 * pow1024(i as nat),
                ;
            }
            rem = rem / 1024;
            i = i + 1;
            d = d * 1024;
        }
        proof {
            assert(unit_index(rem as nat) == 0);
            assert(unit_index(vn) == i as nat);
            lemma_pow1024_bounds(i as nat);
        }
        let c_wide: u128 = (100 * (v as u128) + d / 2) / d;
        proof {
            assert(c_wide == scaled_centi(vn));
            assert(vn / pow1024(i as nat) < 1024);
            assert(vn < 1024 * pow1024(i as nat)) by (nonlinear_arith)
                requires
                    vn / pow1024(i as nat) < 1024,
                    pow1024(i as nat) >= 1,
            ;
            assert((100 * vn + pow1024(i as nat) / 2) / pow1024(i as nat) <= 102400) by (
            nonlinear_arith)
                requires
                    vn < 1024 * pow1024(i as nat),
                    pow1024(i as nat) >= 1,
            ;
        }
        let c = c_wide as u64;
        let whole = c / 100;
        let frac = c % 100;
        let mut s = u64_to_string(whole);
        proof {
            reveal_strlit(".");
            assert("."@ =~= seq!['.']);
            reveal_strlit(" ");
            assert(" "@ =~= seq![' ']);
        }
        if frac != 0 {
            s.append(".");
            s.append(digit_str(frac / 10));
            if frac % 10 != 0 {
                s.append(digit_str(frac % 10));
            }
        }
        s.append(" ");
        s.append(unit_str(i));
        proof {
            assert(s@ =~= display_spec(vn));
        }
        s
    }
}

proof fn lemma_pow1024_bounds(i: nat)
    ensures
        pow1024(i) >= 1,
    decreases i,
{
    if i > 0 {
        lemma_pow1024_bounds((i - 1) as nat);
    }
}

proof fn lemma_pow1024_increases(i: nat, j: nat)
    requires
        i <= j,
    ensures
        pow1024(i) <= pow1024(j),
    decreases j,
{
    if i < j {
        lemma_pow1024_increases(i, (j - 1) as nat);
        lemma_pow1024_bounds((j - 1) as nat);
    }
}

proof fn lemma_pow1024_7()
    ensures
        pow1024(7) > u64::MAX,
{
    assert(pow1024(0) == 1);
    assert(pow1024(1) == 1024);
    assert(pow1024(2) == 0x100000);
    assert(pow1024(3) == 0x40000000);
    assert(pow1024(4) == 0x10000000000);
    assert(pow1024(5) == 0x4000000000000);
    assert(pow1024(6) == 0x1000000000000000);
    assert(pow1024(7) == 0x400000000000000000);
}

/// One decimal digit as text.
fn digit_str(d: u64) -> (r: &'static str)
    requires
        d < 10,
    ensures
        r@ == seq![dec_digit(d as nat)],
{
    proof {
        reveal_strlit("0");
        reveal_strlit("1");
        reveal_strlit("2");
        reveal_strlit("3");
        reveal_strlit("4");
        reveal_strlit("5");
        reveal_strlit("6");
        reveal_strlit("7");
        reveal_strlit("8");
        reveal_strlit("9");
    }
    if d == 0 {
        proof {
            assert("0"@ =~= seq![dec_digit(0)]);
        }
        "0"
    } else if d == 1 {
        proof {
            assert("1"@ =~= seq![dec_digit(1)]);
        }
        "1"
    } else if d == 2 {
        proof {
            assert("2"@ =~= seq![dec_digit(2)]);
        }
        "2"
    } else if d == 3 {
        proof {
            assert("3"@ =~= seq![dec_digit(3)]);
        }
        "3"
    } else if d == 4 {
        proof {
            assert("4"@ =~= seq![dec_digit(4)]);
        }
        "4"
    } else if d == 5 {
        proof {
            assert("5"@ =~= seq![dec_digit(5)]);
        }
        "5"
    } else if d == 6 {
        proof {
            assert("6"@ =~= seq![dec_digit(6)]);
        }
        "6"
    } else if d == 7 {
        proof {
            assert("7"@ =~= seq![dec_digit(7)]);
        }
        "7"
    } else if d == 8 {
        proof {
            assert("8"@ =~= seq![dec_digit(8)]);
        }
        "8"
    } else {
        proof {
            assert("9"@ =~= seq![dec_digit(9)]);
        }
        "9"
    }
}

/// A unit name as text.
fn unit_str(i: usize) -> (r: &'static str)
    requires
        1 <= i <= 8,
    ensures
        r@ == unit_name(i as nat),
{
    proof {
        reveal_strlit("KB");
        reveal_strlit("MB");
        reveal_strlit("GB");
        reveal_strlit("TB");
        reveal_strlit("PB");
        reveal_strlit("EB");
        reveal_strlit("ZB");
        reveal_strlit("YB");
    }
    if i == 1 {
        proof {
            assert("KB"@ =~= unit_name(1));
        }
        "KB"
    } else if i == 2 {
        proof {
            assert("MB"@ =~= unit_name(2));
        }
        "MB"
    } else if i == 3 {
        proof {
            assert("GB"@ =~= unit_name(3));
        }
        "GB"
    } else if i == 4 {
        proof {
            assert("TB"@ =~= unit_name(4));
        }
        "TB"
    } else if i == 5 {
        proof {
            assert("PB"@ =~= unit_name(5));
        }
        "PB"
    } else if i == 6 {
        proof {
            assert("EB"@ =~= unit_name(6));
        }
        "EB"
    } else if i == 7 {
        proof {
            assert("ZB"@ =~= unit_name(7));
        }
        "ZB"
    } else {
        proof {
            assert("YB"@ =~= unit_name(8));
        }
        "YB"
    }
}

/// A byte count written in decimal.
pub fn u64_to_string(n: u64) -> (r: String)
    ensures
        r@ == dec_digits(n as nat),
    decreases n,
{
    if n < 10 {
        let mut s = String::new();
        s.append(digit_str(n));
        proof {
            assert(s@ =~= dec_digits(n as nat));
        }
        s
    } else {
        let mut s = u64_to_string(n / 10);
        s.append(digit_str(n % 10));
        proof {
            assert(s@ =~= dec_digits(n as nat));
        }
        s
    }
}

} // verus!
