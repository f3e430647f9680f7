//! An arbitrary-precision unsigned decimal integer.
//!
//! A value is stored as a little-endian sequence of base-10 digits: index 0
//! holds the least-significant digit. The stored sequence is canonical: every
//! digit lies in 0..=9, the sequence is never empty, and it carries no
//! superfluous most-significant zero digits (the value zero is the single
//! digit `[0]`).

use vstd::prelude::*;

verus! {

use vstd::arithmetic::div_mod::lemma_fundamental_div_mod;
use vstd::arithmetic::div_mod::lemma_fundamental_div_mod_converse;
use vstd::arithmetic::mul::lemma_mul_inequality;

/// Error raised when a digit outside the range 0..=9 is supplied.
#[derive(Debug, Clone, Copy, PartialEq, Eq, Structural)]
pub enum BigIntError {
    InvalidDigit,
}

/// 10 raised to the power `n`.
pub open spec fn pow10(n: nat) -> nat
    decreases n,
{
    if n == 0 {
        1
    } else {
        10 * pow10((n - 1) as nat)
    }
}

/// The number denoted by a little-endian sequence of base-10 digits.
pub open spec fn value_of(s: Seq<u8>) -> nat
    decreases s.len(),
{
    if s.len() == 0 {
        0
    } else {
        value_of(s.drop_last()) + (s.last() as nat) * pow10((s.len() - 1) as nat)
    }
}

/// Every element of the sequence is a base-10 digit.
pub open spec fn all_digits(s: Seq<u8>) -> bool {
    forall|i: int| 0 <= i < s.len() ==> s[i] <= 9
}

/// The unique stored form of a value: digits only, nonempty, and no trailing
/// (most-significant) zero except for the single-digit zero itself.
pub open spec fn canonical(s: Seq<u8>) -> bool {
    &&& all_digits(s)
    &&& s.len() >= 1
    &&& (s.len() == 1 || s.last() != 0)
}

/// The digit sequence with its trailing (most-significant) zeros removed;
/// a sequence of nothing but zeros collapses to `[0]`.
pub open spec fn canon(s: Seq<u8>) -> Seq<u8>
    decreases s.len(),
{
    if s.len() == 0 {
        seq![0u8]
    } else if s.last() == 0 {
        canon(s.drop_last())
    } else {
        s
    }
}

/// The canonical little-endian digit sequence of a number.
pub open spec fn digits_of(n: nat) -> Seq<u8>
    decreases n,
{
    if n < 10 {
        seq![n as u8]
    } else {
        seq![(n % 10) as u8] + digits_of(n / 10)
    }
}

pub proof fn lemma_pow10_pos(n: nat)
    ensures
        pow10(n) >= 1,
    decreases n,
{
    if n > 0 {
        lemma_pow10_pos((n - 1) as nat);
    }
}

pub proof fn lemma_pow10_adds(a: nat, b: nat)
    ensures
        pow10(a + b) == pow10(a) * pow10(b),
    decreases a,
{
    if a == 0 {
        assert(pow10(0) == 1);
    } else {
        lemma_pow10_adds((a - 1) as nat, b);
        assert(pow10(a + b) == 10 * pow10((a - 1) as nat + b));
        assert(10 * (pow10((a - 1) as nat) * pow10(b)) == (10 * pow10((a - 1) as nat)) * pow10(b))
            by (nonlinear_arith);
    }
}

/// Stripping trailing zeros does not change the value.
pub proof fn lemma_canon_value(s: Seq<u8>)
    ensures
        value_of(canon(s)) == value_of(s),
    decreases s.len(),
{
    if s.len() == 0 {
        assert(value_of(seq![0u8]) == value_of(seq![0u8].drop_last()) + 0 * pow10(0));
        assert(seq![0u8].drop_last() =~= Seq::<u8>::empty());
    } else if s.last() == 0 {
        lemma_canon_value(s.drop_last());
    }
}

/// Stripping trailing zeros yields a canonical sequence.
pub proof fn lemma_canon_canonical(s: Seq<u8>)
    requires
        all_digits(s),
    ensures
        canonical(canon(s)),
    decreases s.len(),
{
    if s.len() == 0 {
        assert(seq![0u8].len() == 1);
        assert(forall|i: int| 0 <= i < seq![0u8].len() ==> seq![0u8][i] <= 9);
    } else if s.last() == 0 {
        assert(forall|i: int| 0 <= i < s.drop_last().len() ==> s.drop_last()[i] == s[i]);
        lemma_canon_canonical(s.drop_last());
    }
}

/// The digit sequence of any number is canonical, and the top digit of a
/// positive number is nonzero.
pub proof fn lemma_digits_of_canonical(n: nat)
    ensures
        canonical(digits_of(n)),
        n >= 1 ==> digits_of(n).last() != 0,
    decreases n,
{
    if n < 10 {
        assert(digits_of(n) == seq![n as u8]);
        assert(digits_of(n).len() == 1);
        assert(forall|i: int| 0 <= i < digits_of(n).len() ==> digits_of(n)[i] <= 9);
    } else {
        lemma_digits_of_canonical(n / 10);
        let head = seq![(n % 10) as u8];
        let tail = digits_of(n / 10);
        assert(digits_of(n) == head + tail);
        assert(n % 10 <= 9);
        assert(forall|i: int|
            0 <= i < (head + tail).len() ==> #[trigger] (head + tail)[i] <= 9) by {
            assert(forall|i: int| 1 <= i < (head + tail).len() ==> (head + tail)[i] == tail[i - 1]);
        }
        assert((head + tail).last() == tail.last());
        assert(n / 10 >= 1);
    }
}

/// Prepending one digit multiplies the value of the rest by 10.
pub proof fn lemma_value_cons(d: u8, t: Seq<u8>)
    ensures
        value_of(seq![d] + t) == d + 10 * value_of(t),
    decreases t.len(),
{
    let u = seq![d] + t;
    assert(pow10(0) == 1);
    if t.len() == 0 {
        assert(u =~= seq![d]);
        assert(value_of(u) == value_of(u.drop_last()) + (d as nat) * pow10(0));
        assert(u.drop_last() =~= Seq::<u8>::empty());
    } else {
        lemma_value_cons(d, t.drop_last());
        assert(u.drop_last() =~= seq![d] + t.drop_last());
        assert(u.last() == t.last());
        assert(value_of(u) == value_of(seq![d] + t.drop_last()) + (t.last() as nat) * pow10(
            (u.len() - 1) as nat,
        ));
        assert(pow10(t.len()) == 10 * pow10((t.len() - 1) as nat));
        assert((t.last() as nat) * (10 * pow10((t.len() - 1) as nat)) == 10 * ((t.last() as nat)
            * pow10((t.len() - 1) as nat))) by (nonlinear_arith);
        assert(value_of(t) == value_of(t.drop_last()) + (t.last() as nat) * pow10(
            (t.len() - 1) as nat,
        ));
    }
}

/// Reading back the digit sequence of a number yields that number.
pub proof fn lemma_digits_of_value(n: nat)
    ensures
        value_of(digits_of(n)) == n,
    decreases n,
{
    if n < 10 {
        let s = seq![n as u8];
        assert(pow10(0) == 1);
        assert(value_of(s) == value_of(s.drop_last()) + n * pow10(0));
        assert(s.drop_last() =~= Seq::<u8>::empty());
    } else {
        lemma_digits_of_value(n / 10);
        lemma_value_cons((n % 10) as u8, digits_of(n / 10));
        lemma_fundamental_div_mod(n as int, 10);
    }
}

/// A canonical sequence whose top digit is nonzero denotes a positive number.
pub proof fn lemma_value_lower_bound(s: Seq<u8>)
    requires
        s.len() > 0,
        s.last() != 0,
    ensures
        value_of(s) >= pow10((s.len() - 1) as nat),
{
    lemma_pow10_pos((s.len() - 1) as nat);
    lemma_mul_inequality(1, s.last() as int, pow10((s.len() - 1) as nat) as int);
}

/// A canonical sequence is exactly the digit sequence of its value.
pub proof fn lemma_canonical_digits_of(s: Seq<u8>)
    requires
        canonical(s),
    ensures
        digits_of(value_of(s)) == s,
    decreases s.len(),
{
    let t = s.skip(1);
    assert(s =~= seq![s[0]] + t);
    lemma_value_cons(s[0], t);
    let v = value_of(s);
    if s.len() == 1 {
        assert(t =~= Seq::<u8>::empty());
        assert(v == s[0]);
        assert(digits_of(v) == seq![v as u8]);
        assert(seq![v as u8] =~= s);
    } else {
        assert(s.last() != 0);
        assert(t.last() == s.last());
        assert(forall|i: int| 0 <= i < t.len() ==> t[i] == s[i + 1]);
        assert(canonical(t));
        lemma_value_lower_bound(t);
        lemma_pow10_pos((t.len() - 1) as nat);
        assert(value_of(t) >= 1);
        assert(v >= 10);
        lemma_fundamental_div_mod_converse(
            v as int,
            10,
            value_of(t) as int,
            s[0] as int,
        );
        assert(v % 10 == s[0]);
        assert(v / 10 == value_of(t));
        lemma_canonical_digits_of(t);
        assert(digits_of(v) == seq![s[0]] + t);
    }
}

/// Canonicalizing a digit sequence yields the digit sequence of its value.
pub proof fn lemma_canon_digits_of(s: Seq<u8>)
    requires
        all_digits(s),
    ensures
        canon(s) == digits_of(value_of(s)),
{
    lemma_canon_value(s);
    lemma_canon_canonical(s);
    lemma_canonical_digits_of(canon(s));
}

/// The digit at position `i`, with positions past the end read as zero.
spec fn digit_at(s: Seq<u8>, i: int) -> u8 {
    if 0 <= i < s.len() {
        s[i]
    } else {
        0
    }
}

/// The value of the first `i` digits of `s` (all of `s` once `i` passes its
/// length).
spec fn val_below(s: Seq<u8>, i: int) -> nat {
    value_of(s.take(if i < s.len() { i } else { s.len() as int }))
}

/// Extending the prefix by one position adds that digit at its place value.
proof fn lemma_val_below_step(s: Seq<u8>, i: int)
    requires
        0 <= i,
    ensures
        val_below(s, i + 1) == val_below(s, i) + (digit_at(s, i) as nat) * pow10(i as nat),
{
    if i < s.len() {
        let p = s.take(i + 1);
        assert(p.drop_last() =~= s.take(i));
        assert(p.last() == s[i]);
        assert(value_of(p) == value_of(p.drop_last()) + (s[i] as nat) * pow10(i as nat));
    } else {
        assert(digit_at(s, i) == 0);
    }
}

/// Once the prefix covers the whole sequence, its value is the sequence's.
proof fn lemma_val_below_all(s: Seq<u8>, i: int)
    requires
        i >= s.len(),
    ensures
        val_below(s, i) == value_of(s),
{
    assert(s.take(s.len() as int) =~= s);
}

/// An arbitrary-precision non-negative integer in base 10.
#[derive(Debug)]
pub struct BigInt {
    digits: Vec<u8>,
}

impl View for BigInt {
    type V = Seq<u8>;

    closed spec fn view(&self) -> Seq<u8> {
        self.digits@
    }
}

/// Removes trailing zeros; an all-zero or empty sequence becomes `[0]`.
fn canonicalize(v: Vec<u8>) -> (r: Vec<u8>)
    requires
        all_digits(v@),
    ensures
        r@ == canon(v@),
        canonical(r@),
{
    let ghost orig = v@;
    let mut v = v;
    while v.len() > 0 && v[v.len() - 1] == 0
        invariant
            all_digits(v@),
            canon(orig) == canon(v@),
        decreases v.len(),
    {
        v.pop();
    }
    proof {
        lemma_canon_canonical(orig);
    }
    if v.len() == 0 {
        v.push(0);
        assert(v@ =~= seq![0u8]);
        assert(canon(orig) == seq![0u8]);
    } else {
        assert(canon(v@) == v@);
    }
    v
}

impl BigInt {
    /// The stored digit sequence is canonical.
    pub open spec fn wf(&self) -> bool {
        canonical(self@)
    }

    /// Builds a value from a little-endian digit sequence, rejecting any
    /// element outside 0..=9 and stripping superfluous trailing zeros.
    pub fn new(digits: Vec<u8>) -> (r: Result<BigInt, BigIntError>)
        ensures
            match r {
                Ok(b) => {
                    &&& all_digits(digits@)
                    &&& b@ == canon(digits@)
                    &&& b@ == digits_of(value_of(digits@))
                    &&& value_of(b@) == value_of(digits@)
                    &&& b.wf()
                },
                Err(e) => !all_digits(digits@) && e == BigIntError::InvalidDigit,
            },
    {
        let mut i: usize = 0;
        while i < digits.len()
            invariant
                i <= digits.len(),
                forall|j: int| 0 <= j < i ==> digits@[j] <= 9,
            decreases digits.len() - i,
        {
            if digits[i] > 9 {
                return Err(BigIntError::InvalidDigit);
            }
            i += 1;
        }
        proof {
            lemma_canon_digits_of(digits@);
            lemma_canon_value(digits@);
            lemma_canon_canonical(digits@);
        }
        let ds = canonicalize(digits);
        Ok(BigInt { digits: ds })
    }

    /// The canonical little-endian digit sequence of this value.
    pub fn digits(&self) -> (r: &Vec<u8>)
        ensures
            r@ == self@,
    {
        &self.digits
    }

    /// Schoolbook addition: position-wise sums with carry propagation, the
    /// shorter operand padded with zeros; the result is canonicalized.
    pub fn add(&self, other: &BigInt) -> (r: BigInt)
        requires
            self.wf(),
            other.wf(),
        ensures
            r.wf(),
            value_of(r@) == value_of(self@) + value_of(other@),
            r@ == digits_of(value_of(self@) + value_of(other@)),
    {
        let a = &self.digits;
        let b = &other.digits;
        let max_len = if a.len() > b.len() {
            a.len()
        } else {
            b.len()
        };
        let mut result: Vec<u8> = Vec::new();
        let mut carry: u8 = 0;
        let mut i: usize = 0;
        while i < max_len
            invariant
                i <= max_len,
                max_len >= a@.len(),
                max_len >= b@.len(),
                all_digits(a@),
                all_digits(b@),
                a@ == self@,
                b@ == other@,
                carry <= 1,
                result@.len() == i,
                all_digits(result@),
                value_of(result@) + (carry as nat) * pow10(i as nat) == val_below(a@, i as int)
                    + val_below(b@, i as int),
            decreases max_len - i,
        {
            let da = if i < a.len() {
                a[i]
            } else {
                0
            };
            let db = if i < b.len() {
                b[i]
            } else {
                0
            };
            let temp = carry + da + db;
            let digit = temp % 10;
            let new_carry = temp / 10;
            proof {
                let ghost pi = pow10(i as nat);
                lemma_val_below_step(a@, i as int);
                lemma_val_below_step(b@, i as int);
                lemma_fundamental_div_mod(temp as int, 10);
                assert(pow10((i + 1) as nat) == 10 * pi);
                assert(value_of(result@.push(digit)) == value_of(result@) + (digit as nat) * pi)
                    by {
                    assert(result@.push(digit).drop_last() =~= result@);
                };
                assert((digit as nat) * pi + (new_carry as nat) * (10 * pi) + (carry as nat) * pi
                    == ((da as nat) + (db as nat) + (carry as nat)) * pi + (carry as nat) * pi)
                    by (nonlinear_arith)
                    requires
                        digit + 10 * new_carry == temp,
                        temp == carry + da + db,
                ;
                assert(((da as nat) + (db as nat) + (carry as nat)) * pi == (da as nat) * pi + (
                db as nat) * pi + (carry as nat) * pi) by (nonlinear_arith);
            }
            result.push(digit);
            carry = new_carry;
            i += 1;
        }
        proof {
            lemma_val_below_all(a@, i as int);
            lemma_val_below_all(b@, i as int);
        }
        let ghost total = value_of(self@) + value_of(other@);
        while carry > 0
            invariant
                all_digits(result@),
                value_of(result@) + (carry as nat) * pow10(result@.len() as nat) == total,
            decreases carry,
        {
            let digit = carry % 10;
            let new_carry = carry / 10;
            proof {
                let ghost pl = pow10(result@.len() as nat);
                lemma_fundamental_div_mod(carry as int, 10);
                assert(pow10((result@.len() + 1) as nat) == 10 * pl);
                assert(value_of(result@.push(digit)) == value_of(result@) + (digit as nat) * pl)
                    by {
                    assert(result@.push(digit).drop_last() =~= result@);
                };
                assert((digit as nat) * pl + (new_carry as nat) * (10 * pl) == (carry as nat) * pl)
                    by (nonlinear_arith)
                    requires
                        digit + 10 * new_carry == carry,
                ;
            }
            result.push(digit);
            carry = new_carry;
        }
        proof {
            lemma_canon_digits_of(result@);
            lemma_canon_value(result@);
            lemma_canon_canonical(result@);
        }
        let ds = canonicalize(result);
        BigInt { digits: ds }
    }

    /// Schoolbook long multiplication: each digit of `self` produces a
    /// partial product of `other` shifted to its place value, and the partial
    /// products are accumulated with `add`.
    pub fn multiply(&self, other: &BigInt) -> (r: BigInt)
        requires
            self.wf(),
            other.wf(),
        ensures
            r.wf(),
            value_of(r@) == value_of(self@) * value_of(other@),
            r@ == digits_of(value_of(self@) * value_of(other@)),
    {
        let a = &self.digits;
        let b = &other.digits;
        let ghost vb = value_of(b@);
        let mut zero: Vec<u8> = Vec::new();
        zero.push(0);
        assert(zero@ =~= seq![0u8]);
        proof {
            assert(value_of(seq![0u8]) == value_of(seq![0u8].drop_last()) + 0 * pow10(0));
            assert(seq![0u8].drop_last() =~= Seq::<u8>::empty());
            assert(val_below(a@, 0) == value_of(a@.take(0)));
            assert(a@.take(0) =~= Seq::<u8>::empty());
        }
        let mut result = BigInt { digits: zero };
        let mut i: usize = 0;
        while i < a.len()
            invariant
                i <= a@.len(),
                all_digits(a@),
                all_digits(b@),
                a@ == self@,
                b@ == other@,
                vb == value_of(b@),
                result.wf(),
                value_of(result@) == val_below(a@, i as int) * vb,
            decreases a@.len() - i,
        {
            let ai = a[i];
            let mut partial: Vec<u8> = Vec::new();
            let mut z: usize = 0;
            while z < i
                invariant
                    z <= i,
                    partial@.len() == z,
                    all_digits(partial@),
                    value_of(partial@) == 0,
                decreases i - z,
            {
                proof {
                    let p = partial@.push(0u8);
                    assert(p.drop_last() =~= partial@);
                    assert(p.last() == 0u8);
                    assert(value_of(p) == value_of(p.drop_last()) + (p.last() as nat) * pow10(
                        (p.len() - 1) as nat,
                    ));
                    assert((0u8 as nat) * pow10((p.len() - 1) as nat) == 0);
                    assert(value_of(p) == value_of(partial@));
                }
                partial.push(0);
                z += 1;
            }
            proof {
                assert(b@.take(0) =~= Seq::<u8>::empty());
                assert((ai as nat) * 0 * pow10(i as nat) == 0) by (nonlinear_arith);
            }
            let mut carry: u8 = 0;
            let mut j: usize = 0;
            while j < b.len()
                invariant
                    j <= b@.len(),
                    all_digits(b@),
                    ai <= 9,
                    i <= a@.len(),
                    carry <= 8,
                    partial@.len() == i + j,
                    all_digits(partial@),
                    value_of(partial@) + (carry as nat) * pow10((i + j) as nat) == (ai as nat)
                        * val_below(b@, j as int) * pow10(i as nat),
                decreases b@.len() - j,
            {
                let bj = b[j];
                assert((ai as int) * (bj as int) <= 81)
                    by (nonlinear_arith)
                    requires
                        ai <= 9,
                        bj <= 9,
                ;
                let p = ai * bj + carry;
                let digit = p % 10;
                let new_carry = p / 10;
                proof {
                    let ghost pij = pow10((i + j) as nat);
                    let ghost pi = pow10(i as nat);
                    let ghost pj = pow10(j as nat);
                    lemma_val_below_step(b@, j as int);
                    lemma_fundamental_div_mod(p as int, 10);
                    lemma_pow10_adds(i as nat, j as nat);
                    assert(pow10((i + j + 1) as nat) == 10 * pij);
                    assert(value_of(partial@.push(digit)) == value_of(partial@) + (digit as nat)
                        * pij) by {
                        assert(partial@.push(digit).drop_last() =~= partial@);
                    };
                    assert((digit as nat) * pij + (new_carry as nat) * (10 * pij) == ((
                    ai as nat) * (bj as nat) + (carry as nat)) * pij)
                        by (nonlinear_arith)
                        requires
                            digit + 10 * new_carry == p,
                            p == ai * bj + carry,
                    ;
                    assert((ai as nat) * (val_below(b@, j as int) + (bj as nat) * pj) * pi == (
                    ai as nat) * val_below(b@, j as int) * pi + (ai as nat) * (bj as nat) * (pi
                        * pj)) by (nonlinear_arith);
                    assert(((ai as nat) * (bj as nat) + (carry as nat)) * pij == (ai as nat) * (
                    bj as nat) * pij + (carry as nat) * pij) by (nonlinear_arith);
                }
                partial.push(digit);
                carry = new_carry;
                j += 1;
            }
            proof {
                lemma_val_below_all(b@, j as int);
            }
            let ghost ptotal = (ai as nat) * vb * pow10(i as nat);
            while carry > 0
                invariant
                    all_digits(partial@),
                    value_of(partial@) + (carry as nat) * pow10(partial@.len() as nat) == ptotal,
                decreases carry,
            {
                let digit = carry % 10;
                let new_carry = carry / 10;
                proof {
                    let ghost pl = pow10(partial@.len() as nat);
                    lemma_fundamental_div_mod(carry as int, 10);
                    assert(pow10((partial@.len() + 1) as nat) == 10 * pl);
                    assert(value_of(partial@.push(digit)) == value_of(partial@) + (digit as nat)
                        * pl) by {
                        assert(partial@.push(digit).drop_last() =~= partial@);
                    };
                    assert((digit as nat) * pl + (new_carry as nat) * (10 * pl) == (carry as nat)
                        * pl)
                        by (nonlinear_arith)
                        requires
                            digit + 10 * new_carry == carry,
                    ;
                }
                partial.push(digit);
                carry = new_carry;
            }
            proof {
                lemma_canon_value(partial@);
                lemma_canon_canonical(partial@);
            }
            let pp = BigInt { digits: canonicalize(partial) };
            let next = result.add(&pp);
            proof {
                lemma_val_below_step(a@, i as int);
                assert((val_below(a@, i as int) + (ai as nat) * pow10(i as nat)) * vb == val_below(
                    a@,
                    i as int,
                ) * vb + (ai as nat) * vb * pow10(i as nat)) by (nonlinear_arith);
            }
            result = next;
            i += 1;
        }
        proof {
            lemma_val_below_all(a@, i as int);
            lemma_canonical_digits_of(result@);
        }
        result
    }
}

/// A digit sequence of nothing but zeros, of any length, canonicalizes to the
/// single digit `[0]`, so `BigInt::new` yields `[0]` for every such input.
pub proof fn lemma_all_zeros_canonicalize(s: Seq<u8>)
    requires
        forall|i: int| 0 <= i < s.len() ==> s[i] == 0,
    ensures
        canon(s) == seq![0u8],
    decreases s.len(),
{
    if s.len() > 0 {
        lemma_all_zeros_canonicalize(s.drop_last());
    }
}

/// Addition is commutative: `add` pins its result as the digit sequence of
/// the sum of the operands' values, and that sum does not depend on their
/// order, so `a.add(b)` and `b.add(a)` hold the same digits.
pub proof fn lemma_add_commutative(a: BigInt, b: BigInt)
    requires
        a.wf(),
        b.wf(),
    ensures
        digits_of(value_of(a@) + value_of(b@)) == digits_of(value_of(b@) + value_of(a@)),
{
}

/// The value zero is an identity for `add`: adding a zero-valued operand
/// returns an operand with exactly the digits of `a`.
pub proof fn lemma_add_zero_identity(a: BigInt, z: BigInt)
    requires
        a.wf(),
        z.wf(),
        value_of(z@) == 0,
    ensures
        digits_of(value_of(a@) + value_of(z@)) == a@,
        z@ == seq![0u8],
{
    lemma_canonical_digits_of(a@);
    lemma_canonical_digits_of(z@);
    assert(digits_of(0) == seq![0u8]);
}

/// Multiplication is commutative: `multiply` pins its result as the digit
/// sequence of the product of the operands' values, and that product does not
/// depend on their order, so `a.multiply(b)` and `b.multiply(a)` hold the
/// same digits.
pub proof fn lemma_multiply_commutative(a: BigInt, b: BigInt)
    requires
        a.wf(),
        b.wf(),
    ensures
        digits_of(value_of(a@) * value_of(b@)) == digits_of(value_of(b@) * value_of(a@)),
{
}

/// A zero-valued operand absorbs `multiply`: the product is the single digit
/// `[0]`, whatever the other operand.
pub proof fn lemma_multiply_zero(a: BigInt, z: BigInt)
    requires
        a.wf(),
        z.wf(),
        value_of(z@) == 0,
    ensures
        digits_of(value_of(a@) * value_of(z@)) == seq![0u8],
{
    assert(value_of(a@) * 0 == 0) by (nonlinear_arith);
    assert(digits_of(0) == seq![0u8]);
}

/// Round trip through a 64-bit value: the digit sequence of any `u64` is
/// already canonical and denotes that value, so constructing from it and
/// reading the digits back reproduces it exactly.
pub proof fn lemma_u64_digits_roundtrip(n: u64)
    ensures
        all_digits(digits_of(n as nat)),
        canon(digits_of(n as nat)) == digits_of(n as nat),
        value_of(digits_of(n as nat)) == n,
{
    lemma_digits_of_canonical(n as nat);
    lemma_digits_of_value(n as nat);
    lemma_canon_digits_of(digits_of(n as nat));
}

/// The little-endian digit sequence of a 64-bit value, least-significant
/// digit first.
pub fn u64_to_digits(n: u64) -> (r: Vec<u8>)
    ensures
        r@ == digits_of(n as nat),
{
    let mut v: Vec<u8> = Vec::new();
    let mut m: u64 = n;
    while m >= 10
        invariant
            digits_of(n as nat) == v@ + digits_of(m as nat),
        decreases m,
    {
        let d = (m % 10) as u8;
        proof {
            assert(digits_of(m as nat) == seq![(m as nat % 10) as u8] + digits_of(m as nat / 10));
            assert(v@ + digits_of(m as nat) =~= v@.push(d) + digits_of(m as nat / 10));
        }
        v.push(d);
        m = m / 10;
    }
    proof {
        assert(digits_of(m as nat) == seq![m as u8]);
        assert(v@ + seq![m as u8] =~= v@.push(m as u8));
    }
    v.push(m as u8);
    v
}

} // verus!

