//! Parsing rows of whitespace-separated unsigned decimal numbers, the textual
//! format of a number-grid file. Reading the file itself is left to callers;
//! this module turns one line's characters into numbers. Tokens are split on
//! Unicode whitespace, and each token is read as Rust reads a `u64`: an
//! optional leading plus sign, then decimal digits.

use vstd::prelude::*;

verus! {

use vstd::arithmetic::div_mod::lemma_fundamental_div_mod;
use vstd::arithmetic::mul::lemma_mul_inequality;

/// Error raised when a token of the row is not an unsigned 64-bit decimal
/// number.
#[derive(Debug, Clone, Copy, PartialEq, Eq, Structural)]
pub enum GridError {
    InvalidNumber,
}

/// Whether `char::is_whitespace` accepts a given character.
pub uninterp spec fn is_unicode_ws(c: char) -> bool;

/// Relies on char::is_whitespace: the classification is a function of the
/// character alone.
#[verifier::external_body]
fn char_is_whitespace(c: char) -> (r: bool)
    ensures
        r == is_unicode_ws(c),
{
    c.is_whitespace()
}

/// An ASCII decimal digit.
pub open spec fn is_digit_char(c: char) -> bool {
    48 <= (c as u32) && (c as u32) <= 57
}

/// The numeric value of a digit character (zero for anything else).
pub open spec fn digit_val(c: char) -> nat {
    if is_digit_char(c) {
        ((c as u32) - 48) as nat
    } else {
        0
    }
}

/// The maximal whitespace-free runs of `s`, in order.
pub open spec fn tokens_of(s: Seq<char>) -> Seq<Seq<char>>
    decreases s.len(),
{
    if s.len() == 0 {
        Seq::empty()
    } else {
        let rest = tokens_of(s.drop_last());
        let c = s.last();
        if is_unicode_ws(c) {
            rest
        } else if s.len() >= 2 && !is_unicode_ws(s[s.len() - 2]) {
            rest.update(rest.len() - 1, rest.last().push(c))
        } else {
            rest.push(seq![c])
        }
    }
}

/// The number denoted by a big-endian run of decimal digit characters (a
/// leading sign or any other non-digit counts for nothing).
pub open spec fn token_val(t: Seq<char>) -> nat
    decreases t.len(),
{
    if t.len() == 0 {
        0
    } else {
        token_val(t.drop_last()) * 10 + digit_val(t.last())
    }
}

/// The token with one optional leading plus sign removed.
pub open spec fn token_body(t: Seq<char>) -> Seq<char> {
    if t.len() >= 1 && t[0] == '+' {
        t.skip(1)
    } else {
        t
    }
}

/// A token denotes an unsigned 64-bit number: after one optional leading
/// plus sign, decimal digits only, at least one, and a value that fits.
pub open spec fn token_ok(t: Seq<char>) -> bool {
    &&& token_body(t).len() >= 1
    &&& forall|i: int| 0 <= i < token_body(t).len() ==> is_digit_char(#[trigger] token_body(t)[i])
    &&& token_val(t) <= u64::MAX
}

/// Every token of the row denotes an unsigned 64-bit number.
pub open spec fn row_ok(s: Seq<char>) -> bool {
    forall|j: int| 0 <= j < tokens_of(s).len() ==> token_ok(#[trigger] tokens_of(s)[j])
}

/// The views of a sequence of character vectors.
spec fn views_of(ts: Seq<Vec<char>>) -> Seq<Seq<char>> {
    ts.map_values(|t: Vec<char>| t@)
}

/// The value of a prefix of a token never exceeds the value of the token.
proof fn lemma_token_val_prefix(t: Seq<char>, j: int)
    requires
        0 <= j <= t.len(),
    ensures
        token_val(t.take(j)) <= token_val(t),
    decreases t.len(),
{
    if j < t.len() {
        assert(t.drop_last().take(j) =~= t.take(j));
        lemma_token_val_prefix(t.drop_last(), j);
    } else {
        assert(t.take(j) =~= t);
    }
}

/// Splits the characters into their maximal whitespace-free runs.
fn split_tokens(chars: &Vec<char>) -> (r: Vec<Vec<char>>)
    ensures
        views_of(r@) == tokens_of(chars@),
{
    let mut toks: Vec<Vec<char>> = Vec::new();
    let mut cur: Vec<char> = Vec::new();
    let mut i: usize = 0;
    while i < chars.len()
        invariant
            i <= chars@.len(),
            cur@.len() == 0 ==> (i == 0 || is_unicode_ws(chars@[i as int - 1])) && views_of(toks@)
                == tokens_of(chars@.take(i as int)),
            cur@.len() > 0 ==> i >= 1 && !is_unicode_ws(chars@[i as int - 1]) && tokens_of(
                chars@.take(i as int),
            ) == views_of(toks@).push(cur@),
        decreases chars@.len() - i,
    {
        let c = chars[i];
        proof {
            assert(chars@.take(i as int + 1).drop_last() =~= chars@.take(i as int));
            assert(chars@.take(i as int + 1).last() == chars@[i as int]);
            if i >= 1 {
                assert(chars@.take(i as int + 1)[i as int - 1] == chars@[i as int - 1]);
            }
        }
        if char_is_whitespace(c) {
            if cur.len() > 0 {
                let ghost toks0 = toks@;
                let ghost cur0 = cur@;
                let done = cur;
                cur = Vec::new();
                toks.push(done);
                proof {
                    assert(views_of(toks@) =~= views_of(toks0).push(cur0));
                }
            }
        } else {
            if cur.len() == 0 {
                let ghost toks0 = toks@;
                cur.push(c);
                proof {
                    assert(cur@ =~= seq![c]);
                    assert(tokens_of(chars@.take(i as int + 1)) == tokens_of(
                        chars@.take(i as int),
                    ).push(seq![c]));
                }
            } else {
                let ghost cur0 = cur@;
                cur.push(c);
                proof {
                    let s = chars@.take(i as int + 1);
                    assert(s.len() >= 2);
                    assert(!is_unicode_ws(s[s.len() - 2]));
                    let rest = tokens_of(chars@.take(i as int));
                    assert(rest == views_of(toks@).push(cur0));
                    assert(rest.last() == cur0);
                    assert(tokens_of(s) == rest.update(rest.len() - 1, cur0.push(c)));
                    assert(rest.update(rest.len() - 1, cur0.push(c)) =~= views_of(toks@).push(
                        cur@,
                    ));
                }
            }
        }
        i += 1;
    }
    proof {
        assert(chars@.take(chars@.len() as int) =~= chars@);
    }
    if cur.len() > 0 {
        let ghost toks0 = toks@;
        let ghost cur0 = cur@;
        toks.push(cur);
        proof {
            assert(views_of(toks@) =~= views_of(toks0).push(cur0));
        }
    }
    toks
}

/// Parses one token as an unsigned 64-bit decimal number: one optional
/// leading plus sign, then digits.
fn parse_token(t: &Vec<char>) -> (r: Option<u64>)
    ensures
        match r {
            Some(v) => token_ok(t@) && v as nat == token_val(t@),
            None => !token_ok(t@),
        },
{
    if t.len() == 0 {
        return None;
    }
    let start: usize = if t[0] == '+' {
        1
    } else {
        0
    };
    if t.len() == start {
        assert(token_body(t@).len() == 0);
        return None;
    }
    proof {
        if start == 1 {
            assert(t@.take(1).drop_last() =~= Seq::<char>::empty());
            assert(t@.take(1).last() == '+');
            assert(!is_digit_char('+'));
            assert(token_val(Seq::<char>::empty()) == 0);
            assert(token_val(t@.take(1)) == token_val(t@.take(1).drop_last()) * 10 + digit_val(
                t@.take(1).last(),
            ));
            assert(token_val(t@.take(1)) == 0);
        } else {
            assert(t@.take(0) =~= Seq::<char>::empty());
        }
    }
    let mut acc: u64 = 0;
    let mut j: usize = start;
    while j < t.len()
        invariant
            start <= j <= t@.len(),
            t@.len() >= 1,
            start == 1 ==> t@[0] == '+',
            start == 0 ==> t@[0] != '+',
            start <= 1,
            forall|i: int| start <= i < j ==> is_digit_char(#[trigger] t@[i]),
            acc as nat == token_val(t@.take(j as int)),
        decreases t@.len() - j,
    {
        let c = t[j];
        let u = c as u32;
        if u < 48 || u > 57 {
            proof {
                assert(!is_digit_char(t@[j as int]));
                assert(token_body(t@)[j - start] == t@[j as int]);
            }
            return None;
        }
        let d = (u - 48) as u64;
        proof {
            assert(t@.take(j as int + 1).drop_last() =~= t@.take(j as int));
            assert(t@.take(j as int + 1).last() == t@[j as int]);
            assert(token_val(t@.take(j as int + 1)) == (acc as nat) * 10 + d);
        }
        if acc > (u64::MAX - d) / 10 {
            proof {
                lemma_fundamental_div_mod(u64::MAX - d, 10);
                lemma_token_val_prefix(t@, j as int + 1);
            }
            return None;
        }
        proof {
            lemma_mul_inequality(acc as int, ((u64::MAX - d) / 10) as int, 10);
            lemma_fundamental_div_mod(u64::MAX - d, 10);
        }
        acc = acc * 10 + d;
        j += 1;
    }
    proof {
        assert(t@.take(t@.len() as int) =~= t@);
        assert forall|i: int| 0 <= i < token_body(t@).len() implies is_digit_char(
            #[trigger] token_body(t@)[i],
        ) by {
            assert(token_body(t@)[i] == t@[i + start]);
        }
    }
    Some(acc)
}

/// Parses a row of whitespace-separated unsigned 64-bit decimal numbers,
/// failing when any token is not such a number.
pub fn parse_row(chars: &Vec<char>) -> (r: Result<Vec<u64>, GridError>)
    ensures
        match r {
            Ok(v) => {
                &&& row_ok(chars@)
                &&& v@.len() == tokens_of(chars@).len()
                &&& forall|j: int|
                    0 <= j < v@.len() ==> v@[j] as nat == token_val(
                        #[trigger] tokens_of(chars@)[j],
                    )
            },
            Err(e) => !row_ok(chars@) && e == GridError::InvalidNumber,
        },
{
    let toks = split_tokens(chars);
    let mut out: Vec<u64> = Vec::new();
    let mut j: usize = 0;
    while j < toks.len()
        invariant
            views_of(toks@) == tokens_of(chars@),
            j <= toks@.len(),
            out@.len() == j,
            forall|t: int|
                0 <= t < j ==> token_ok(#[trigger] tokens_of(chars@)[t]) && out@[t] as nat
                    == token_val(tokens_of(chars@)[t]),
        decreases toks@.len() - j,
    {
        proof {
            assert(views_of(toks@)[j as int] == toks@[j as int]@);
        }
        match parse_token(&toks[j]) {
            Some(v) => {
                out.push(v);
            },
            None => {
                assert(!token_ok(tokens_of(chars@)[j as int]));
                return Err(GridError::InvalidNumber);
            },
        }
        j += 1;
    }
    Ok(out)
}

} // verus!
