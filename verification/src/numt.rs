//! Number-theory helpers: primality testing, triangular numbers, factoring,
//! and a palindrome test on text.

use vstd::prelude::*;

verus! {

use vstd::arithmetic::div_mod::lemma_fundamental_div_mod;
use vstd::arithmetic::div_mod::lemma_fundamental_div_mod_converse;
use vstd::arithmetic::div_mod::lemma_mod_multiples_basic;
use vstd::arithmetic::div_mod::lemma_div_is_ordered_by_denominator;

/// Error raised when a result would not fit in a 64-bit value.
#[derive(Debug, Clone, Copy, PartialEq, Eq, Structural)]
pub enum NumtError {
    Overflow,
}

/// A number is prime when it is at least 2 and no smaller number of at least
/// 2 divides it.
pub open spec fn is_prime_spec(n: nat) -> bool {
    n >= 2 && forall|d: nat| 2 <= d < n ==> #[trigger] (n % d) != 0
}

/// A divisor of `n` that is at least the threshold `k` has a cofactor below
/// `k`, provided everything up to `k` exceeds `n / k`.
proof fn lemma_large_divisor_has_small_cofactor(n: nat, k: nat, d: nat)
    requires
        n >= 2,
        k >= 2,
        n / k < k,
        k <= d < n,
        n % d == 0,
    ensures
        2 <= n / d < k && n % (n / d) == 0,
{
    let c = n / d;
    lemma_fundamental_div_mod(n as int, d as int);
    assert(n == d * c);
    assert(c >= 1) by (nonlinear_arith)
        requires
            n == d * c,
            n >= 2,
            d < n,
    ;
    assert(c >= 2) by (nonlinear_arith)
        requires
            n == d * c,
            d < n,
            c >= 1,
    ;
    lemma_div_is_ordered_by_denominator(n as int, k as int, d as int);
    assert(c <= n / k);
    lemma_mod_multiples_basic(d as int, c as int);
    assert((d * c) % c == 0);
}

/// Determines whether `n` is prime by trial division up to the square root.
pub fn is_prime(n: u64) -> (r: bool)
    ensures
        r == is_prime_spec(n as nat),
{
    if n == 2 {
        return true;
    }
    if n < 2 {
        return false;
    }
    if n % 2 == 0 {
        assert(!is_prime_spec(n as nat)) by {
            assert(n as nat % 2 == 0);
        };
        return false;
    }
    let mut k: u64 = 3;
    while n / k >= k
        invariant
            3 <= k,
            n >= 3,
            forall|d: nat| 2 <= d < k ==> #[trigger] (n as nat % d) != 0,
        decreases n - k,
    {
        if n % k == 0 {
            proof {
                lemma_fundamental_div_mod(n as int, k as int);
                assert(n >= k * k) by (nonlinear_arith)
                    requires
                        n as int == k as int * (n as int / k as int) + (n as int % k as int),
                        n / k >= k,
                        n % k >= 0,
                        k >= 3,
                ;
                assert(k * k > k) by (nonlinear_arith)
                    requires
                        k >= 3,
                ;
                assert(n as nat % (k as nat) == 0);
            }
            return false;
        }
        proof {
            lemma_fundamental_div_mod(n as int, k as int);
            assert(n >= k * k) by (nonlinear_arith)
                requires
                    n as int == k as int * (n as int / k as int) + (n as int % k as int),
                    n / k >= k,
                    n % k >= 0,
                    k >= 3,
            ;
            assert(k * k > k) by (nonlinear_arith)
                requires
                    k >= 3,
            ;
        }
        k = k + 1;
    }
    proof {
        assert forall|d: nat| 2 <= d < n as nat implies #[trigger] (n as nat % d) != 0 by {
            if d >= k {
                if n as nat % d == 0 {
                    lemma_large_divisor_has_small_cofactor(n as nat, k as nat, d);
                }
            }
        }
    }
    true
}

/// The elements of the sequence strictly increase.
pub open spec fn strictly_sorted(s: Seq<u64>) -> bool {
    forall|i: int, j: int| 0 <= i < j < s.len() ==> s[i] < s[j]
}

/// `d` is a divisor of `n` below the scanning threshold `k`.
spec fn small_divisor(n: u64, k: int, d: u64) -> bool {
    1 <= d < k && n as nat % d as nat == 0
}

/// `d` is a divisor of `n` whose cofactor lies below the scanning threshold
/// `k` and below `d` itself: the divisors found as quotients while scanning.
spec fn large_divisor(n: u64, k: int, d: u64) -> bool {
    &&& 1 <= d
    &&& n as nat % d as nat == 0
    &&& (n as nat) / (d as nat) < k
    &&& (n as nat) / (d as nat) < d
}

/// A divisor of `n` divides it exactly, and so does its cofactor.
proof fn lemma_cofactor(n: nat, d: nat)
    requires
        n >= 1,
        1 <= d <= n,
        n % d == 0,
    ensures
        n == d * (n / d),
        1 <= n / d <= n,
        n % (n / d) == 0,
        n / (n / d) == d,
{
    lemma_fundamental_div_mod(n as int, d as int);
    let c = n / d;
    assert(n == d * c);
    assert(c >= 1) by (nonlinear_arith)
        requires
            n == d * c,
            n >= 1,
    ;
    assert(c <= n) by (nonlinear_arith)
        requires
            n == d * c,
            d >= 1,
            c >= 1,
    ;
    lemma_mod_multiples_basic(d as int, c as int);
    assert((d * c) % c == 0);
    lemma_fundamental_div_mod_converse(n as int, c as int, d as int, 0);
}

/// A number that does not divide `n` exactly is no divisor; in particular
/// anything above `n` leaves a nonzero remainder.
proof fn lemma_divisor_at_most(n: u64, d: u64)
    requires
        n >= 1,
        d >= 1,
        n as nat % d as nat == 0,
    ensures
        d <= n,
{
    if d > n {
        vstd::arithmetic::div_mod::lemma_small_mod(n as nat, d as nat);
    }
}

/// `d` occurs in `l` at or after position `idx`.
spec fn in_suffix(l: Seq<u64>, idx: int, d: u64) -> bool {
    exists|i: int| idx <= i < l.len() && #[trigger] l[i] == d
}

/// Peeling one position off the front of a suffix.
proof fn lemma_in_suffix_step(l: Seq<u64>, idx: int, d: u64)
    requires
        0 <= idx < l.len(),
    ensures
        in_suffix(l, idx, d) <==> (l[idx] == d || in_suffix(l, idx + 1, d)),
{
    if in_suffix(l, idx, d) {
        let i = choose|i: int| idx <= i < l.len() && #[trigger] l[i] == d;
        if i != idx {
            assert(idx + 1 <= i < l.len() && l[i] == d);
        }
    }
    if l[idx] == d {
        assert(idx <= idx < l.len() && l[idx] == d);
    }
    if in_suffix(l, idx + 1, d) {
        let i = choose|i: int| idx + 1 <= i < l.len() && #[trigger] l[i] == d;
        assert(idx <= i < l.len() && l[i] == d);
    }
}

/// Produces all the factors of `n` in increasing order, under the convention
/// that `0` is the only factor of `0` (and `1` of `1`).
pub fn factors_of(n: u64) -> (r: Vec<u64>)
    ensures
        strictly_sorted(r@),
        n < 2 ==> r@ == seq![n],
        n >= 2 ==> forall|d: u64| r@.contains(d) <==> (1 <= d && n as nat % d as nat == 0),
{
    if n < 2 {
        let mut r: Vec<u64> = Vec::new();
        r.push(n);
        assert(r@ =~= seq![n]);
        return r;
    }
    let mut smalls: Vec<u64> = Vec::new();
    let mut larges: Vec<u64> = Vec::new();
    let mut k: u64 = 1;
    proof {
        assert forall|d: u64| !large_divisor(n, 1, d) by {
            if large_divisor(n, 1, d) {
                lemma_fundamental_div_mod(n as int, d as int);
                assert((n as int) / (d as int) == 0);
                assert((d as int) * ((n as int) / (d as int)) == 0) by (nonlinear_arith)
                    requires
                        (n as int) / (d as int) == 0,
                ;
            }
        }
    }
    while n / k >= k
        invariant
            n >= 2,
            1 <= k <= n,
            strictly_sorted(smalls@),
            forall|i: int| 0 <= i < smalls@.len() ==> smalls@[i] < k,
            forall|d: u64| smalls@.contains(d) <==> small_divisor(n, k as int, d),
            forall|i: int, j: int| 0 <= i < j < larges@.len() ==> larges@[i] > larges@[j],
            forall|i: int| 0 <= i < larges@.len() ==> larges@[i] >= k,
            forall|d: u64| larges@.contains(d) <==> large_divisor(n, k as int, d),
        decreases n - k,
    {
        let q = n / k;
        if n % k == 0 {
            proof {
                lemma_cofactor(n as nat, k as nat);
            }
            let ghost smalls0 = smalls@;
            smalls.push(k);
            proof {
                assert(smalls@ == smalls0.push(k));
                assert forall|d: u64| smalls@.contains(d) implies small_divisor(n, k + 1, d) by {
                    let i = choose|i: int| 0 <= i < smalls@.len() && smalls@[i] == d;
                    if i < smalls0.len() {
                        assert(smalls0.contains(d));
                    }
                }
                assert forall|d: u64| small_divisor(n, k + 1, d) implies smalls@.contains(d) by {
                    if d < k {
                        assert(smalls0.contains(d));
                        let i = choose|i: int| 0 <= i < smalls0.len() && smalls0[i] == d;
                        assert(smalls@[i] == d);
                    } else {
                        assert(smalls@[smalls0.len() as int] == k);
                    }
                }
            }
            if q != k {
                proof {
                    assert(q > k);
                    assert forall|i: int| 0 <= i < larges@.len() implies larges@[i] > q by {
                        let e = larges@[i];
                        assert(larges@.contains(e));
                        let ce = (n as nat) / (e as nat);
                        assert(n as nat % e as nat == 0 && ce < k && ce < e);
                        lemma_divisor_at_most(n, e);
                        lemma_cofactor(n as nat, e as nat);
                        assert(e > q) by (nonlinear_arith)
                            requires
                                n as nat == (e as nat) * ce,
                                n as nat == (k as nat) * (q as nat),
                                ce < k,
                                e >= 1,
                                q >= 1,
                        ;
                    }
                }
                let ghost larges0 = larges@;
                larges.push(q);
                proof {
                    assert(larges@ == larges0.push(q));
                    assert forall|d: u64| larges@.contains(d) implies large_divisor(n, k + 1, d) by {
                        let i = choose|i: int| 0 <= i < larges@.len() && larges@[i] == d;
                        if i < larges0.len() {
                            assert(larges0.contains(d));
                        } else {
                            assert(d == q);
                            assert((n as nat) / (q as nat) == k);
                        }
                    }
                    assert forall|d: u64| large_divisor(n, k + 1, d) implies larges@.contains(d) by {
                        if (n as nat) / (d as nat) < k {
                            assert(larges0.contains(d));
                            let i = choose|i: int| 0 <= i < larges0.len() && larges0[i] == d;
                            assert(larges@[i] == d);
                        } else {
                            assert((n as nat) / (d as nat) == k);
                            assert(d >= 1);
                            lemma_divisor_at_most(n, d);
                            lemma_cofactor(n as nat, d as nat);
                            assert(d == n as nat / (k as nat));
                            assert(larges@[larges0.len() as int] == q);
                        }
                    }
                }
            } else {
                proof {
                    assert forall|d: u64| large_divisor(n, k + 1, d) implies larges@.contains(d) by {
                        if (n as nat) / (d as nat) < k {
                        } else {
                            assert((n as nat) / (d as nat) == k);
                            assert(d >= 1);
                            lemma_divisor_at_most(n, d);
                            lemma_cofactor(n as nat, d as nat);
                            assert(d == q);
                            assert((n as nat) / (d as nat) < d);
                            assert(false);
                        }
                    }
                }
            }
        } else {
            proof {
                assert forall|d: u64| large_divisor(n, k + 1, d) implies larges@.contains(d) by {
                    if (n as nat) / (d as nat) < k {
                    } else {
                        assert((n as nat) / (d as nat) == k);
                        assert(d >= 1);
                        lemma_divisor_at_most(n, d);
                        lemma_cofactor(n as nat, d as nat);
                        assert(n as nat % k as nat == 0);
                        assert(false);
                    }
                }
            }
        }
        proof {
            assert forall|i: int| 0 <= i < larges@.len() implies larges@[i] >= k + 1 by {
                let e = larges@[i];
                assert(larges@.contains(e));
                if e == k {
                    assert((n as nat) / (k as nat) < k);
                }
            }
            if k >= 2 {
                lemma_div_is_ordered_by_denominator(n as int, 2, k as int);
                vstd::arithmetic::div_mod::lemma_div_decreases(n as int, 2);
            }
        }
        k = k + 1;
    }
    let ghost kf = k;
    let mut result = smalls;
    let ghost small_part = result@;
    let mut idx = larges.len();
    proof {
        assert forall|d: u64| !in_suffix(larges@, idx as int, d) by {
            if in_suffix(larges@, idx as int, d) {
                let i = choose|i: int| idx <= i < larges@.len() && #[trigger] larges@[i] == d;
            }
        }
    }
    while idx > 0
        invariant
            idx <= larges@.len(),
            strictly_sorted(result@),
            forall|i: int, j: int| 0 <= i < j < larges@.len() ==> larges@[i] > larges@[j],
            forall|i: int, j: int|
                0 <= i < result@.len() && 0 <= j < idx ==> result@[i] < larges@[j],
            forall|d: u64|
                result@.contains(d) <==> (small_part.contains(d) || in_suffix(
                    larges@,
                    idx as int,
                    d,
                )),
        decreases idx,
    {
        let ghost idx0 = idx as int;
        idx -= 1;
        let e = larges[idx];
        let ghost result0 = result@;
        result.push(e);
        proof {
            assert(result@ == result0.push(e));
            assert(idx as int + 1 == idx0);
            assert forall|d: u64|
                result@.contains(d) <==> (small_part.contains(d) || in_suffix(
                    larges@,
                    idx as int,
                    d,
                )) by {
                lemma_in_suffix_step(larges@, idx as int, d);
                assert(result0.contains(d) <==> (small_part.contains(d) || in_suffix(
                    larges@,
                    idx0,
                    d,
                )));
                assert(in_suffix(larges@, idx as int + 1, d) == in_suffix(larges@, idx0, d));
                if result@.contains(d) {
                    let i = choose|i: int| 0 <= i < result@.len() && result@[i] == d;
                    if i < result0.len() {
                        assert(result0.contains(d));
                    } else {
                        assert(larges@[idx as int] == d);
                    }
                }
                if result0.contains(d) {
                    let j = choose|j: int| 0 <= j < result0.len() && result0[j] == d;
                    assert(result@[j] == d);
                    assert(result@.contains(d));
                }
                if larges@[idx as int] == d {
                    assert(result@[result0.len() as int] == d);
                    assert(result@.contains(d));
                }
            }
        }
    }
    proof {
        assert forall|d: u64| result@.contains(d) implies (1 <= d && n as nat % d as nat == 0) by {
            if !small_part.contains(d) {
                assert(in_suffix(larges@, 0, d));
                let i = choose|i: int| 0 <= i < larges@.len() && #[trigger] larges@[i] == d;
                assert(larges@.contains(d));
            }
        }
        assert forall|d: u64| (1 <= d && n as nat % d as nat == 0) implies result@.contains(d) by {
            lemma_divisor_at_most(n, d);
            if d < kf {
                assert(small_part.contains(d));
            } else {
                lemma_div_is_ordered_by_denominator(n as int, kf as int, d as int);
                assert((n as nat) / (d as nat) <= (n as nat) / (kf as nat));
                assert((n as nat) / (d as nat) < kf);
                assert(larges@.contains(d));
                let i = choose|i: int| 0 <= i < larges@.len() && larges@[i] == d;
                assert(in_suffix(larges@, 0, d)) by {
                    assert(0 <= i < larges@.len() && larges@[i] == d);
                }
            }
        }
    }
    result
}

/// Computes the `n`th triangular number, `n * (n + 1) / 2`, failing when the
/// intermediate product `n * (n + 1)` does not fit in 64 bits.
pub fn triangular_number(n: u64) -> (r: Result<u64, NumtError>)
    ensures
        match r {
            Ok(t) => n < u64::MAX && (n as nat) * (n as nat + 1) <= u64::MAX && t == (n as nat) * (
            n as nat + 1) / 2,
            Err(e) => (n == u64::MAX || (n as nat) * (n as nat + 1) > u64::MAX) && e
                == NumtError::Overflow,
        },
{
    let n_plus_1 = match n.checked_add(1) {
        Some(v) => v,
        None => {
            return Err(NumtError::Overflow);
        },
    };
    let product = match n_plus_1.checked_mul(n) {
        Some(v) => v,
        None => {
            proof {
                assert((n_plus_1 as nat) * (n as nat) == (n as nat) * (n as nat + 1))
                    by (nonlinear_arith)
                    requires
                        n_plus_1 == n + 1,
                ;
            }
            return Err(NumtError::Overflow);
        },
    };
    proof {
        assert((n_plus_1 as nat) * (n as nat) == (n as nat) * (n as nat + 1)) by (nonlinear_arith)
            requires
                n_plus_1 == n + 1,
        ;
    }
    Ok(product / 2)
}

/// What `str::to_lowercase` returns for a given character sequence.
pub uninterp spec fn lower_of(s: Seq<char>) -> Seq<char>;

/// Whether `char::is_alphanumeric` accepts a given character.
pub uninterp spec fn is_alphanum(c: char) -> bool;

/// Relies on str::to_lowercase: the lowercased text is a function of the
/// characters alone.
#[verifier::external_body]
fn lowercase_chars(s: &str) -> (r: Vec<char>)
    ensures
        r@ == lower_of(s@),
{
    s.to_lowercase().chars().collect()
}

/// Relies on char::is_alphanumeric: the classification is a function of the
/// character alone.
#[verifier::external_body]
fn char_is_alphanumeric(c: char) -> (r: bool)
    ensures
        r == is_alphanum(c),
{
    c.is_alphanumeric()
}

/// The subsequence of alphanumeric characters, in order.
pub open spec fn filter_alnum(s: Seq<char>) -> Seq<char>
    decreases s.len(),
{
    if s.len() == 0 {
        Seq::empty()
    } else if is_alphanum(s.last()) {
        filter_alnum(s.drop_last()).push(s.last())
    } else {
        filter_alnum(s.drop_last())
    }
}

/// The sequence reads the same forwards and backwards.
pub open spec fn seq_is_palindrome(s: Seq<char>) -> bool {
    forall|i: int| 0 <= i < s.len() ==> #[trigger] s[i] == s[s.len() - 1 - i]
}

/// Decides whether the alphanumeric characters among `chars` read the same in
/// both directions.
pub fn palindrome_chars(chars: &Vec<char>) -> (r: bool)
    ensures
        r == seq_is_palindrome(filter_alnum(chars@)),
{
    let mut kept: Vec<char> = Vec::new();
    let mut i: usize = 0;
    while i < chars.len()
        invariant
            i <= chars@.len(),
            kept@ == filter_alnum(chars@.take(i as int)),
        decreases chars@.len() - i,
    {
        proof {
            assert(chars@.take(i as int + 1).drop_last() =~= chars@.take(i as int));
            assert(chars@.take(i as int + 1).last() == chars@[i as int]);
        }
        if char_is_alphanumeric(chars[i]) {
            kept.push(chars[i]);
        }
        i += 1;
    }
    proof {
        assert(chars@.take(chars@.len() as int) =~= chars@);
    }
    let n = kept.len();
    let mut j: usize = 0;
    while j < n
        invariant
            j <= n,
            n == kept@.len(),
            kept@ == filter_alnum(chars@),
            forall|t: int| 0 <= t < j ==> #[trigger] kept@[t] == kept@[n - 1 - t],
        decreases n - j,
    {
        if kept[j] != kept[n - 1 - j] {
            return false;
        }
        j += 1;
    }
    true
}

/// Determines whether `s` is a palindrome, ignoring case and every character
/// that is not alphanumeric.
pub fn is_palindrome(s: &str) -> (r: bool)
    ensures
        r == seq_is_palindrome(filter_alnum(lower_of(s@))),
{
    let chars = lowercase_chars(s);
    palindrome_chars(&chars)
}

} // verus!
