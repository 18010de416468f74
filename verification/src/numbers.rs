//! Canonical decimal digit strings: the ASCII form `i<digits>e` integers and
//! `<len>:` length prefixes use, with no leading zero except for `0` itself.

use vstd::prelude::*;

verus! {

/// The canonical ASCII decimal digits of `n` (most significant first,
/// no leading zero; `0` is the single byte `b'0'`).
pub open spec fn digits_of(n: nat) -> Seq<u8>
    decreases n,
{
    if n < 10 {
        seq![(n + 48) as u8]
    } else {
        digits_of(n / 10) + seq![(n % 10 + 48) as u8]
    }
}

/// Every byte of `s` is an ASCII decimal digit.
pub open spec fn is_digit_seq(s: Seq<u8>) -> bool {
    forall|i: int| 0 <= i < s.len() ==> 48 <= #[trigger] s[i] <= 57
}

/// `s` is the canonical decimal form of some natural number: non-empty,
/// all digits, and no leading zero unless `s` is exactly "0".
pub open spec fn is_canonical_digits(s: Seq<u8>) -> bool {
    &&& is_digit_seq(s)
    &&& s.len() >= 1
    &&& (s.len() > 1 ==> s[0] != 48)
}

/// The numeric value of an ASCII digit string (most significant first).
pub open spec fn dec_value(s: Seq<u8>) -> int
    decreases s.len(),
{
    if s.len() == 0 {
        0
    } else {
        dec_value(s.drop_last()) * 10 + (s.last() - 48)
    }
}

pub proof fn lemma_dec_value_push(s: Seq<u8>, b: u8)
    ensures
        dec_value(s.push(b)) == dec_value(s) * 10 + (b - 48),
{
    assert(s.push(b).drop_last() =~= s);
    assert(s.push(b).last() == b);
}

pub proof fn lemma_dec_value_single(s: Seq<u8>)
    requires
        s.len() == 1,
    ensures
        dec_value(s) == s[0] - 48,
{
    assert(s.drop_last().len() == 0);
    assert(dec_value(s.drop_last()) == 0);
    assert(s.last() == s[0]);
}

pub proof fn lemma_dec_value_nonneg(s: Seq<u8>)
    requires
        is_digit_seq(s),
    ensures
        dec_value(s) >= 0,
    decreases s.len(),
{
    if s.len() > 0 {
        assert(is_digit_seq(s.drop_last()));
        lemma_dec_value_nonneg(s.drop_last());
    }
}

pub proof fn lemma_dec_value_first_nonzero(s: Seq<u8>)
    requires
        is_digit_seq(s),
        s.len() >= 1,
        s[0] != 48,
    ensures
        dec_value(s) >= 1,
    decreases s.len(),
{
    if s.len() == 1 {
        assert(s.drop_last().len() == 0);
    } else {
        assert(is_digit_seq(s.drop_last()));
        assert(s.drop_last()[0] == s[0]);
        lemma_dec_value_first_nonzero(s.drop_last());
    }
}

/// The canonical digits of `n` are indeed canonical and evaluate back to `n`.
pub proof fn lemma_digits_of_canonical(n: nat)
    ensures
        is_canonical_digits(digits_of(n)),
        dec_value(digits_of(n)) == n,
    decreases n,
{
    if n < 10 {
        let s = digits_of(n);
        assert(s =~= seq![(n + 48) as u8]);
        lemma_dec_value_single(s);
    } else {
        lemma_digits_of_canonical(n / 10);
        let p = digits_of(n / 10);
        let s = digits_of(n);
        assert(s == p + seq![(n % 10 + 48) as u8]);
        assert(s.drop_last() =~= p);
        assert(s.last() == (n % 10 + 48) as u8);
        assert(dec_value(s) == dec_value(p) * 10 + (n % 10));
        assert(n / 10 * 10 + n % 10 == n) by {
            vstd::arithmetic::div_mod::lemma_fundamental_div_mod(n as int, 10);
        }
        // the leading digit cannot be zero: n / 10 >= 1
        assert(n / 10 >= 1);
        if p[0] == 48 {
            if p.len() > 1 {
                assert(false);
            } else {
                lemma_dec_value_single(p);
                assert(false);
            }
        }
        assert(forall|i: int| 0 <= i < s.len() ==> 48 <= #[trigger] s[i] <= 57);
    }
}

/// A canonical digit string is the canonical form of its own value:
/// `digits_of` and `dec_value` are inverse on canonical strings.
pub proof fn lemma_canonical_digits_of_value(s: Seq<u8>)
    requires
        is_canonical_digits(s),
    ensures
        dec_value(s) >= 0,
        digits_of(dec_value(s) as nat) == s,
    decreases s.len(),
{
    lemma_dec_value_nonneg(s);
    if s.len() == 1 {
        lemma_dec_value_single(s);
        assert(dec_value(s) < 10);
        assert(digits_of(dec_value(s) as nat) =~= seq![((dec_value(s) as nat) + 48) as u8]);
        assert(digits_of(dec_value(s) as nat) =~= s);
    } else {
        let p = s.drop_last();
        assert(is_digit_seq(p));
        assert(p[0] == s[0]);
        assert(p[0] != 48);
        lemma_canonical_digits_of_value(p);
        lemma_dec_value_first_nonzero(p);
        let v = dec_value(s);
        let d = s.last() - 48;
        assert(v == dec_value(p) * 10 + d);
        assert(0 <= d <= 9);
        assert(v / 10 == dec_value(p) && v % 10 == d) by {
            vstd::arithmetic::div_mod::lemma_fundamental_div_mod_converse(
                v, 10, dec_value(p), d);
        }
        assert(v >= 10) by {
            assert(dec_value(p) >= 1);
            assert(dec_value(p) * 10 >= 10) by (nonlinear_arith)
                requires dec_value(p) >= 1;
        }
        assert(digits_of(v as nat) == digits_of((v as nat) / 10) + seq![((v as nat) % 10 + 48) as u8]);
        assert((v as nat) / 10 == dec_value(p) as nat);
        assert((v as nat) % 10 == d);
        assert(digits_of(v as nat) =~= p + seq![s.last()]);
        assert(p + seq![s.last()] =~= s);
    }
}


/// The value of a prefix of a digit string never exceeds the whole.
pub proof fn lemma_dec_value_take_le(s: Seq<u8>, k: int)
    requires
        is_digit_seq(s),
        0 <= k <= s.len(),
    ensures
        0 <= dec_value(s.take(k)) <= dec_value(s),
    decreases s.len() - k,
{
    assert(is_digit_seq(s.take(k)));
    lemma_dec_value_nonneg(s.take(k));
    if k == s.len() {
        assert(s.take(k) =~= s);
    } else {
        assert(s.take(k + 1).drop_last() =~= s.take(k));
        assert(s.take(k + 1).last() == s[k]);
        assert(dec_value(s.take(k + 1)) == dec_value(s.take(k)) * 10 + (s[k] - 48));
        lemma_dec_value_take_le(s, k + 1);
    }
}

/// Appends the canonical decimal digits of `n` to `out`.
pub fn push_decimal(out: &mut Vec<u8>, n: u64)
    ensures
        final(out)@ == old(out)@ + digits_of(n as nat),
{
    let mut tmp: Vec<u8> = Vec::new();
    let mut m: u64 = n;
    if m == 0 {
        tmp.push(48);
        assert(digits_of(0) =~= seq![48u8]);
    } else {
        while m > 0
            invariant
                (if m > 0 {
                    digits_of(n as nat) == digits_of(m as nat) + tmp@
                } else {
                    digits_of(n as nat) == tmp@
                }),
            decreases m,
        {
            let d: u8 = (m % 10) as u8 + 48;
            proof {
                if m >= 10 {
                    assert(digits_of(m as nat) == digits_of((m as nat) / 10) + seq![((m as nat) % 10 + 48) as u8]);
                    assert(digits_of((m as nat) / 10) + (seq![d] + tmp@)
                        =~= (digits_of((m as nat) / 10) + seq![d]) + tmp@);
                } else {
                    assert(digits_of(m as nat) =~= seq![d]);
                    assert(seq![d] + tmp@ =~= digits_of(m as nat) + tmp@);
                    assert(digits_of(m as nat) + tmp@ == digits_of(n as nat));
                }
            }
            let ghost old_tmp = tmp@;
            tmp.insert(0, d);
            proof {
                assert(tmp@ =~= seq![d] + old_tmp);
            }
            m = m / 10;
            proof {
                if m == 0 {
                    assert(digits_of(n as nat) == tmp@);
                }
            }
        }
    }
    let ghost pre = out@;
    out.append(&mut tmp);
    proof {
        assert(out@ == pre + digits_of(n as nat));
    }
}

} // verus!
