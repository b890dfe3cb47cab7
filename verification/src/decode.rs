//! The value decoder: raw attribute bytes -> decimal record value.
//!
//! A record value is kept as a sign, a decimal mantissa and a power-of-ten
//! exponent, read from the attribute text in one pass. The text must be valid
//! UTF-8 (else the decode fails with an encoding error) and must match the
//! decimal-literal grammar `sign? (digits ('.' digits?)? | '.' digits)
//! (('e'|'E') sign? digits)?` (else it fails with a number-format error).
//! Precision is deliberately capped for memory density: only the first 19
//! significant digits of the mantissa are kept (the exponent is adjusted for
//! any dropped digits) and the exponent magnitude saturates at 1000000.

use vstd::prelude::*;

use crate::LinkParserError;

verus! {

/// A finite decimal quantity: `(-1)^neg * mant * 10^exp10`.
#[derive(Clone, Copy, Debug, PartialEq, Eq, Structural)]
pub struct LinkValue {
    pub neg: bool,
    pub mant: u64,
    pub exp10: i128,
}

pub open spec fn pow10(n: nat) -> nat
    decreases n,
{
    if n == 0 {
        1
    } else {
        10 * pow10((n - 1) as nat)
    }
}

pub open spec fn is_ascii_digit(b: u8) -> bool {
    48 <= b && b <= 57
}

pub open spec fn all_digits(s: Seq<u8>) -> bool {
    forall|i: int| 0 <= i < s.len() ==> is_ascii_digit(#[trigger] s[i])
}

/// The number a digit string denotes, most significant digit first.
pub open spec fn digits_val(s: Seq<u8>) -> nat
    decreases s.len(),
{
    if s.len() == 0 {
        0
    } else {
        digits_val(s.drop_last()) * 10 + (s.last() - 48) as nat
    }
}

/// The digit string with its leading zeros removed.
pub open spec fn strip_zeros(s: Seq<u8>) -> Seq<u8>
    decreases s.len(),
{
    if s.len() == 0 {
        s
    } else if s[0] == 48 {
        strip_zeros(s.drop_first())
    } else {
        s
    }
}

/// The first position at or after `i` that does not hold a digit.
pub open spec fn digits_end(s: Seq<u8>, i: int) -> int
    decreases s.len() - i,
{
    if i < 0 || i >= s.len() {
        i
    } else if is_ascii_digit(s[i]) {
        digits_end(s, i + 1)
    } else {
        i
    }
}

pub open spec fn sign_len(s: Seq<u8>) -> int {
    if s.len() > 0 && (s[0] == 43 || s[0] == 45) {
        1
    } else {
        0
    }
}

pub open spec fn int_end(s: Seq<u8>) -> int {
    digits_end(s, sign_len(s))
}

pub open spec fn has_dot(s: Seq<u8>) -> bool {
    int_end(s) < s.len() && s[int_end(s)] == 46
}

pub open spec fn frac_start(s: Seq<u8>) -> int {
    if has_dot(s) {
        int_end(s) + 1
    } else {
        int_end(s)
    }
}

pub open spec fn frac_end(s: Seq<u8>) -> int {
    digits_end(s, frac_start(s))
}

pub open spec fn has_exp(s: Seq<u8>) -> bool {
    frac_end(s) < s.len() && (s[frac_end(s)] == 101 || s[frac_end(s)] == 69)
}

pub open spec fn exp_neg(s: Seq<u8>) -> bool {
    has_exp(s) && frac_end(s) + 1 < s.len() && s[frac_end(s) + 1] == 45
}

pub open spec fn exp_digits_start(s: Seq<u8>) -> int {
    let j = frac_end(s) + 1;
    if j < s.len() && (s[j] == 43 || s[j] == 45) {
        j + 1
    } else {
        j
    }
}

pub open spec fn exp_end(s: Seq<u8>) -> int {
    digits_end(s, exp_digits_start(s))
}

/// The decimal-literal grammar: an optional sign, at least one digit split
/// around an optional dot, and an optional signed exponent; nothing after.
pub open spec fn valid_number(s: Seq<u8>) -> bool {
    &&& (int_end(s) > sign_len(s) || frac_end(s) > frac_start(s))
    &&& (if has_exp(s) {
        exp_end(s) > exp_digits_start(s) && exp_end(s) == s.len()
    } else {
        frac_end(s) == s.len()
    })
}

/// All significant digits: the integer digits then the fraction digits, with
/// leading zeros removed.
pub open spec fn sig_digits(s: Seq<u8>) -> Seq<u8> {
    strip_zeros(s.subrange(sign_len(s), int_end(s)) + s.subrange(frac_start(s), frac_end(s)))
}

/// The significant digits that the decoder keeps: the first 19.
pub open spec fn kept_digits(s: Seq<u8>) -> Seq<u8> {
    if sig_digits(s).len() <= 19 {
        sig_digits(s)
    } else {
        sig_digits(s).take(19)
    }
}

/// The exponent magnitude written in the text, saturated at 1000000.
pub open spec fn exp_mag(s: Seq<u8>) -> nat {
    if has_exp(s) {
        let v = digits_val(s.subrange(exp_digits_start(s), exp_end(s)));
        if v > 1000000 {
            1000000nat
        } else {
            v
        }
    } else {
        0
    }
}

pub open spec fn exp_value(s: Seq<u8>) -> int {
    if exp_neg(s) {
        -(exp_mag(s) as int)
    } else {
        exp_mag(s) as int
    }
}

/// What a valid decimal text decodes to.
pub open spec fn spec_decoded(s: Seq<u8>) -> LinkValue {
    LinkValue {
        neg: s.len() > 0 && s[0] == 45,
        mant: digits_val(kept_digits(s)) as u64,
        exp10: (exp_value(s) - (frac_end(s) - frac_start(s)) + (sig_digits(s).len()
            - kept_digits(s).len())) as i128,
    }
}

// --- UTF-8 validity (RFC 3629 byte ranges) ---

pub open spec fn is_cont(b: u8) -> bool {
    128 <= b && b <= 191
}

/// The bytes from position `i` on form a well-formed UTF-8 suffix.
pub open spec fn utf8_from(s: Seq<u8>, i: int) -> bool
    decreases s.len() - i,
{
    if i < 0 {
        false
    } else if i >= s.len() {
        true
    } else {
        let b = s[i];
        if b < 128 {
            utf8_from(s, i + 1)
        } else if 194 <= b && b <= 223 {
            i + 2 <= s.len() && is_cont(s[i + 1]) && utf8_from(s, i + 2)
        } else if b == 224 {
            i + 3 <= s.len() && 160 <= s[i + 1] && s[i + 1] <= 191 && is_cont(s[i + 2])
                && utf8_from(s, i + 3)
        } else if 225 <= b && b <= 236 {
            i + 3 <= s.len() && is_cont(s[i + 1]) && is_cont(s[i + 2]) && utf8_from(s, i + 3)
        } else if b == 237 {
            i + 3 <= s.len() && 128 <= s[i + 1] && s[i + 1] <= 159 && is_cont(s[i + 2])
                && utf8_from(s, i + 3)
        } else if 238 <= b && b <= 239 {
            i + 3 <= s.len() && is_cont(s[i + 1]) && is_cont(s[i + 2]) && utf8_from(s, i + 3)
        } else if b == 240 {
            i + 4 <= s.len() && 144 <= s[i + 1] && s[i + 1] <= 191 && is_cont(s[i + 2]) && is_cont(
                s[i + 3],
            ) && utf8_from(s, i + 4)
        } else if 241 <= b && b <= 243 {
            i + 4 <= s.len() && is_cont(s[i + 1]) && is_cont(s[i + 2]) && is_cont(s[i + 3])
                && utf8_from(s, i + 4)
        } else if b == 244 {
            i + 4 <= s.len() && 128 <= s[i + 1] && s[i + 1] <= 143 && is_cont(s[i + 2]) && is_cont(
                s[i + 3],
            ) && utf8_from(s, i + 4)
        } else {
            false
        }
    }
}

pub open spec fn is_utf8(s: Seq<u8>) -> bool {
    utf8_from(s, 0)
}

/// Checks that `v` is well-formed UTF-8.
pub fn utf8_ok(v: &[u8]) -> (r: bool)
    ensures
        r == is_utf8(v@),
{
    let n = v.len();
    let mut i: usize = 0;
    while i < n
        invariant
            i <= n,
            n == v@.len(),
            is_utf8(v@) == utf8_from(v@, i as int),
        decreases n - i,
    {
        let b = v[i];
        if b < 128 {
            i = i + 1;
        } else if 194 <= b && b <= 223 {
            if i + 1 < n && is_cont_byte(v[i + 1]) {
                i = i + 2;
            } else {
                return false;
            }
        } else if 224 <= b && b <= 239 {
            let lo: u8 = if b == 224 {
                160
            } else {
                128
            };
            let hi: u8 = if b == 237 {
                159
            } else {
                191
            };
            if n - i > 2 && lo <= v[i + 1] && v[i + 1] <= hi && is_cont_byte(v[i + 2]) {
                i = i + 3;
            } else {
                return false;
            }
        } else if 240 <= b && b <= 244 {
            let lo: u8 = if b == 240 {
                144
            } else {
                128
            };
            let hi: u8 = if b == 244 {
                143
            } else {
                191
            };
            if n - i > 3 && lo <= v[i + 1] && v[i + 1] <= hi && is_cont_byte(v[i + 2])
                && is_cont_byte(v[i + 3]) {
                i = i + 4;
            } else {
                return false;
            }
        } else {
            return false;
        }
    }
    true
}

fn is_cont_byte(b: u8) -> (r: bool)
    ensures
        r == is_cont(b),
{
    128 <= b && b <= 191
}

// --- arithmetic bounds ---

pub proof fn lemma_pow10_vals()
    ensures
        pow10(18) == 1000000000000000000,
        pow10(19) == 10000000000000000000,
{
    assert(pow10(0) == 1);
    assert(pow10(1) == 10);
    assert(pow10(2) == 100);
    assert(pow10(3) == 1000);
    assert(pow10(4) == 10000);
    assert(pow10(5) == 100000);
    assert(pow10(6) == 1000000);
    assert(pow10(7) == 10000000);
    assert(pow10(8) == 100000000);
    assert(pow10(9) == 1000000000);
    assert(pow10(10) == 10000000000);
    assert(pow10(11) == 100000000000);
    assert(pow10(12) == 1000000000000);
    assert(pow10(13) == 10000000000000);
    assert(pow10(14) == 100000000000000);
    assert(pow10(15) == 1000000000000000);
    assert(pow10(16) == 10000000000000000);
    assert(pow10(17) == 100000000000000000);
    assert(pow10(18) == 1000000000000000000);
    assert(pow10(19) == 10000000000000000000);
}

/// A digit string of length `n` denotes a number below `10^n`.
pub proof fn lemma_digits_val_bound(s: Seq<u8>)
    requires
        all_digits(s),
    ensures
        digits_val(s) < pow10(s.len()),
    decreases s.len(),
{
    if s.len() == 0 {
    } else {
        assert(all_digits(s.drop_last())) by {
            assert(forall|i: int|
                0 <= i < s.len() - 1 ==> #[trigger] s.drop_last()[i] == s[i]);
        }
        lemma_digits_val_bound(s.drop_last());
    }
}

/// Stripping leading zeros keeps a digit string a digit string.
proof fn lemma_all_digits_strip(s: Seq<u8>)
    requires
        all_digits(s),
    ensures
        all_digits(strip_zeros(s)),
    decreases s.len(),
{
    if s.len() > 0 && s[0] == 48 {
        assert(all_digits(s.drop_first())) by {
            assert(forall|i: int|
                0 <= i < s.len() - 1 ==> #[trigger] s.drop_first()[i] == s[i + 1]);
        }
        lemma_all_digits_strip(s.drop_first());
    }
}

/// The kept prefix of a digit string is a digit string, below `10^19`.
proof fn lemma_kept_bound(sig: Seq<u8>)
    requires
        all_digits(sig),
    ensures
        digits_val(if sig.len() <= 19 { sig } else { sig.take(19) }) < pow10(19),
        all_digits(if sig.len() <= 19 { sig } else { sig.take(19) }),
{
    let kept = if sig.len() <= 19 { sig } else { sig.take(19) };
    assert(all_digits(kept)) by {
        assert(forall|i: int| 0 <= i < kept.len() ==> #[trigger] kept[i] == sig[i]);
    }
    lemma_digits_val_bound(kept);
    lemma_pow10_mono(kept.len() as nat, 19);
}

proof fn lemma_digits_end_at(s: Seq<u8>, j: int, i: int)
    requires
        0 <= j <= i <= s.len(),
        forall|k: int| j <= k < i ==> is_ascii_digit(#[trigger] s[k]),
        i == s.len() || !is_ascii_digit(s[i]),
    ensures
        digits_end(s, j) == i,
    decreases i - j,
{
    if j < i {
        lemma_digits_end_at(s, j + 1, i);
    }
}

/// Appending one byte to a digit string: the stripped form either stays empty
/// (a leading zero) or gains the byte at its end.
proof fn lemma_strip_push(c: Seq<u8>, d: u8)
    ensures
        strip_zeros(c.push(d)) == if strip_zeros(c).len() == 0 && d == 48 {
            Seq::<u8>::empty()
        } else if strip_zeros(c).len() == 0 {
            seq![d]
        } else {
            strip_zeros(c).push(d)
        },
    decreases c.len(),
{
    reveal_with_fuel(strip_zeros, 3);
    if c.len() == 0 {
        assert(c.push(d).drop_first() =~= Seq::<u8>::empty());
        if d == 48 {
            assert(strip_zeros(c.push(d)) =~= Seq::<u8>::empty());
        } else {
            assert(strip_zeros(c.push(d)) =~= seq![d]);
        }
    } else {
        if c[0] == 48 {
            assert(c.push(d).drop_first() =~= c.drop_first().push(d));
            lemma_strip_push(c.drop_first(), d);
        } else {
            assert(strip_zeros(c.push(d)) =~= c.push(d));
            assert(strip_zeros(c) =~= c);
        }
    }
}

// --- the running mantissa state ---

/// Relates the mantissa accumulator to the digits `c` consumed so far.
pub open spec fn sig_state(c: Seq<u8>, mant: u64, kept: usize, dropped: usize) -> bool {
    let sig = strip_zeros(c);
    &&& mant == digits_val(if sig.len() <= 19 {
        sig
    } else {
        sig.take(19)
    })
    &&& kept == if sig.len() <= 19 {
        sig.len()
    } else {
        19
    }
    &&& dropped == sig.len() - kept
}

/// Consumes the run of digits starting at `start`, folding them into the
/// capped mantissa accumulator. `prev` holds the digits consumed by earlier
/// runs, so the accumulator always reflects `prev` plus this run.
fn scan_sig_digits(v: &[u8], start: usize, mant: u64, kept: usize, dropped: usize, prev: Ghost<
    Seq<u8>,
>) -> (out: (usize, u64, usize, usize))
    requires
        start <= v@.len(),
        prev@.len() <= start as int,
        all_digits(prev@),
        sig_state(prev@, mant, kept, dropped),
        dropped <= prev@.len(),
    ensures
        start <= out.0 <= v@.len(),
        forall|k: int| start <= k < out.0 ==> is_ascii_digit(#[trigger] v@[k]),
        out.0 == v@.len() || !is_ascii_digit(v@[out.0 as int]),
        sig_state(prev@ + v@.subrange(start as int, out.0 as int), out.1, out.2, out.3),
        all_digits(prev@ + v@.subrange(start as int, out.0 as int)),
        out.3 <= prev@.len() + (out.0 - start),
    decreases v@.len() - start,
{
    let n = v.len();
    let mut i: usize = start;
    let mut m: u64 = mant;
    let mut k: usize = kept;
    let mut d: usize = dropped;
    proof {
        assert(prev@ + v@.subrange(start as int, start as int) =~= prev@);
    }
    while i < n && 48 <= v[i] && v[i] <= 57
        invariant
            start <= i <= n,
            n == v@.len(),
            prev@.len() <= start as int,
            forall|t: int| start <= t < i ==> is_ascii_digit(#[trigger] v@[t]),
            all_digits(prev@ + v@.subrange(start as int, i as int)),
            sig_state(prev@ + v@.subrange(start as int, i as int), m, k, d),
            d <= prev@.len() + (i - start),
        decreases n - i,
    {
        let b = v[i];
        let ghost c = prev@ + v@.subrange(start as int, i as int);
        let ghost c2 = prev@ + v@.subrange(start as int, i as int + 1);
        proof {
            assert(v@.subrange(start as int, i as int + 1) =~= v@.subrange(
                start as int,
                i as int,
            ).push(v@[i as int]));
            assert(c2 =~= c.push(b));
            lemma_strip_push(c, b);
            let sig = strip_zeros(c);
            lemma_all_digits_strip(c);
            lemma_kept_bound(sig);
            lemma_pow10_vals();
            if sig.len() > 0 || b != 48 {
                let sig2 = strip_zeros(c2);
                assert(sig2 =~= if sig.len() == 0 {
                    seq![b]
                } else {
                    sig.push(b)
                });
                if sig.len() < 19 {
                    assert(sig2.len() <= 19 ==> sig2 =~= sig.push(b) || sig2 =~= seq![b]);
                    assert(sig2.drop_last() =~= sig);
                    assert(sig2.last() == b);
                } else {
                    assert(sig2.take(19) =~= if sig.len() <= 19 {
                        sig
                    } else {
                        sig.take(19)
                    });
                }
            }
        }
        if b == 48 && k == 0 && d == 0 {
            // a leading zero: not significant
        } else if k < 19 {
            proof {
                let sig = strip_zeros(c);
                assert(k == sig.len());
                lemma_digits_val_bound(sig);
                assert(m < pow10(k as nat));
                lemma_pow10_mono(k as nat, 18);
            }
            m = m * 10 + ((b - 48) as u64);
            k = k + 1;
        } else {
            proof {
                assert(d <= i);
            }
            d = d + 1;
        }
        i = i + 1;
    }
    proof {
        if i < n {
            assert(!is_ascii_digit(v@[i as int]));
        }
    }
    (i, m, k, d)
}

/// `10^a <= 10^b` when `a <= b`.
pub proof fn lemma_pow10_mono(a: nat, b: nat)
    requires
        a <= b,
    ensures
        pow10(a) <= pow10(b),
    decreases b,
{
    if a < b {
        lemma_pow10_mono(a, (b - 1) as nat);
        assert(pow10(b) == 10 * pow10((b - 1) as nat));
        assert(pow10((b - 1) as nat) >= 1) by {
            lemma_pow10_pos((b - 1) as nat);
        }
    }
}

pub proof fn lemma_pow10_pos(n: nat)
    ensures
        pow10(n) >= 1,
    decreases n,
{
    if n > 0 {
        lemma_pow10_pos((n - 1) as nat);
    }
}

/// Decodes raw attribute bytes into a record value. Fails with
/// `InvalidEncoding` exactly when the bytes are not UTF-8 text, and with
/// `InvalidNumber` exactly when the text does not match the decimal grammar.
#[verifier::rlimit(100)]
pub fn decode_value(v: &[u8]) -> (r: Result<LinkValue, LinkParserError>)
    ensures
        match r {
            Ok(val) => is_utf8(v@) && valid_number(v@) && val == spec_decoded(v@),
            Err(e) => (e == LinkParserError::InvalidEncoding && !is_utf8(v@)) || (e
                == LinkParserError::InvalidNumber && is_utf8(v@) && !valid_number(v@)),
        },
{
    if !utf8_ok(v) {
        return Err(LinkParserError::InvalidEncoding);
    }
    let n = v.len();
    let mut neg = false;
    let mut i: usize = 0;
    if n > 0 && (v[0] == 43 || v[0] == 45) {
        neg = v[0] == 45;
        i = 1;
    }
    proof {
        assert(i as int == sign_len(v@));
    }
    let int_start = i;
    let (ie, m1, k1, d1) = scan_sig_digits(v, int_start, 0, 0, 0, Ghost(Seq::empty()));
    proof {
        lemma_digits_end_at(v@, int_start as int, ie as int);
        assert(ie as int == int_end(v@));
        assert(Seq::<u8>::empty() + v@.subrange(int_start as int, ie as int) =~= v@.subrange(
            sign_len(v@),
            int_end(v@),
        ));
    }
    let fs: usize = if ie < n && v[ie] == 46 {
        ie + 1
    } else {
        ie
    };
    proof {
        assert(fs as int == frac_start(v@));
    }
    let (fe, m2, k2, d2) = scan_sig_digits(
        v,
        fs,
        m1,
        k1,
        d1,
        Ghost(v@.subrange(sign_len(v@), int_end(v@))),
    );
    proof {
        lemma_digits_end_at(v@, fs as int, fe as int);
        assert(fe as int == frac_end(v@));
        assert(v@.subrange(sign_len(v@), int_end(v@)) + v@.subrange(fs as int, fe as int)
            =~= v@.subrange(sign_len(v@), int_end(v@)) + v@.subrange(
            frac_start(v@),
            frac_end(v@),
        ));
    }
    if ie == int_start && fe == fs {
        return Err(LinkParserError::InvalidNumber);
    }
    let mut emag: u64 = 0;
    let mut eneg = false;
    if fe < n && (v[fe] == 101 || v[fe] == 69) {
        let mut j: usize = fe + 1;
        if j < n && (v[j] == 43 || v[j] == 45) {
            eneg = v[j] == 45;
            j = j + 1;
        }
        proof {
            assert(has_exp(v@));
            assert(j as int == exp_digits_start(v@));
            assert(eneg == exp_neg(v@));
        }
        let es = j;
        let ghost pre: Seq<u8> = Seq::empty();
        while j < n && 48 <= v[j] && v[j] <= 57
            invariant
                es <= j <= n,
                n == v@.len(),
                es as int == exp_digits_start(v@),
                forall|t: int| es <= t < j ==> is_ascii_digit(#[trigger] v@[t]),
                emag == (if digits_val(v@.subrange(es as int, j as int)) > 1000000 {
                    1000000nat
                } else {
                    digits_val(v@.subrange(es as int, j as int))
                }),
            decreases n - j,
        {
            let b = v[j];
            proof {
                assert(v@.subrange(es as int, j as int + 1) =~= v@.subrange(
                    es as int,
                    j as int,
                ).push(v@[j as int]));
                assert(v@.subrange(es as int, j as int + 1).drop_last() =~= v@.subrange(
                    es as int,
                    j as int,
                ));
            }
            let t = emag * 10 + ((b - 48) as u64);
            emag = if t > 1000000 {
                1000000
            } else {
                t
            };
            j = j + 1;
        }
        proof {
            lemma_digits_end_at(v@, es as int, j as int);
            assert(j as int == exp_end(v@));
        }
        if j == es || j != n {
            return Err(LinkParserError::InvalidNumber);
        }
    } else {
        if fe != n {
            return Err(LinkParserError::InvalidNumber);
        }
        proof {
            assert(!has_exp(v@));
        }
    }
    proof {
        assert(valid_number(v@));
        let c = v@.subrange(sign_len(v@), int_end(v@)) + v@.subrange(
            frac_start(v@),
            frac_end(v@),
        );
        assert(all_digits(c));
        lemma_all_digits_strip(c);
        lemma_kept_bound(sig_digits(v@));
        lemma_pow10_vals();
    }
    let exp10: i128 = (if eneg {
        -(emag as i128)
    } else {
        emag as i128
    }) - ((fe - fs) as i128) + (d2 as i128);
    Ok(LinkValue { neg, mant: m2, exp10 })
}

} // verus!
