//! The bencode decoder: recursive descent over a byte buffer.
//!
//! The decoder is proved sound and complete against `bencode::encoded`:
//! every successfully decoded value re-encodes to exactly the bytes it was
//! parsed from (byte fidelity), and decoding succeeds on every buffer that
//! is the encoding of some value, so `decode(encode(v))` cannot fail.

use vstd::prelude::*;
use crate::bencode::{BencodeValue, encoded, encoded_items, encoded_pairs, int_encoded, int_body,
    string_encoded, lemma_encoded_items_push, lemma_encoded_pairs_push, lemma_encoded_unambiguous,
    lemma_first_byte, lemma_int_encoded_shape, lemma_string_encoded_shape,
    lemma_string_encoded_unambiguous};
use crate::numbers::{dec_value, digits_of, is_canonical_digits, is_digit_seq,
    lemma_canonical_digits_of_value, lemma_dec_value_push, lemma_dec_value_single,
    lemma_dec_value_take_le, lemma_digits_of_canonical};

verus! {

broadcast use vstd::std_specs::vec::group_vec_axioms;

/// Why a buffer failed to parse as bencode.
#[derive(Debug, Clone, Copy, PartialEq, Eq, Structural)]
pub enum ParseErrorKind {
    /// The input ended in the middle of a term.
    UnexpectedEnd,
    /// A byte at a term boundary begins no production.
    UnexpectedByte,
    /// An integer with empty digits, a leading zero, a negative zero,
    /// or a stray byte where a digit or `e` was expected.
    InvalidInteger,
    /// An integer that does not fit in a signed 64-bit value.
    IntegerOverflow,
    /// A length prefix with a leading zero or a stray byte where a digit
    /// or `:` was expected.
    InvalidLength,
    /// A declared byte-string length that exceeds the remaining input.
    LengthExceedsInput,
    /// A dictionary key that is not a byte string.
    InvalidKey,
    /// Well-formed value followed by unconsumed bytes.
    TrailingData,
}

/// A bencode grammar violation: the byte offset where parsing stopped,
/// and the reason.
#[derive(Debug, Clone, Copy, PartialEq, Eq, Structural)]
pub struct ParseError {
    pub offset: usize,
    pub kind: ParseErrorKind,
}

pub open spec fn is_digit(b: u8) -> bool {
    48 <= b <= 57
}

/// The input from offset `i` on.
pub open spec fn suffix_from(s: Seq<u8>, i: int) -> Seq<u8> {
    s.subrange(i, s.len() as int)
}

/// `s` opens with the canonical digit run `ds`, which `rest` (if non-empty)
/// terminates with a non-digit.
pub open spec fn digit_run_at(s: Seq<u8>, ds: Seq<u8>, rest: Seq<u8>) -> bool {
    &&& s == ds + rest
    &&& is_canonical_digits(ds)
    &&& (rest.len() > 0 ==> !is_digit(rest[0]))
}

/// `s` opens with the string production for `b`.
pub open spec fn string_at(s: Seq<u8>, b: Seq<u8>, rest: Seq<u8>) -> bool {
    s == string_encoded(b) + rest
}

/// `s` opens with the encoding of the value `v`.
pub open spec fn value_at(s: Seq<u8>, v: BencodeValue, rest: Seq<u8>) -> bool {
    s == encoded(v) + rest
}

/// `s` holds the encodings of the values of `l`, a closing `e`, then `rest`.
pub open spec fn items_at(s: Seq<u8>, l: Seq<BencodeValue>, rest: Seq<u8>) -> bool {
    s == encoded_items(l) + seq![101u8] + rest
}

/// `s` holds the encodings of the entries of `l`, a closing `e`, then `rest`.
pub open spec fn pairs_at(s: Seq<u8>, l: Seq<(Vec<u8>, BencodeValue)>, rest: Seq<u8>) -> bool {
    s == encoded_pairs(l) + seq![101u8] + rest
}

/// The canonical digits of an integer value's magnitude.
pub open spec fn int_digits_of(v: BencodeValue) -> Seq<u8> {
    let m = v->Integer_0 as int;
    if m < 0 {
        digits_of((-m) as nat)
    } else {
        digits_of(m as nat)
    }
}

/// A digit run ends at the first non-digit, so two terminated runs from the
/// same start coincide.
proof fn lemma_digit_run_unique(s: Seq<u8>, a: int, b: int)
    requires
        0 <= a <= s.len(),
        0 <= b <= s.len(),
        forall|i: int| 0 <= i < a ==> is_digit(#[trigger] s[i]),
        forall|i: int| 0 <= i < b ==> is_digit(#[trigger] s[i]),
        a < s.len() ==> !is_digit(s[a]),
        b < s.len() ==> !is_digit(s[b]),
    ensures
        a == b,
{
    if a < b {
        assert(is_digit(s[a]));
        assert(false);
    } else if b < a {
        assert(is_digit(s[b]));
        assert(false);
    }
}

/// Dropping a known head of a suffix lands on a later suffix.
proof fn lemma_suffix_peel(s: Seq<u8>, i: int, head: Seq<u8>, tail: Seq<u8>)
    requires
        0 <= i <= s.len(),
        suffix_from(s, i) == head + tail,
    ensures
        i + head.len() <= s.len(),
        suffix_from(s, i + head.len()) == tail,
{
    assert(suffix_from(s, i).len() == head.len() + tail.len());
    assert(suffix_from(s, i + head.len()) =~= tail) by {
        assert forall|j: int| 0 <= j < tail.len()
            implies suffix_from(s, i + head.len())[j] == tail[j] by {
            assert((head + tail)[head.len() + j] == tail[j]);
            assert(suffix_from(s, i)[head.len() + j] == s[i + head.len() + j]);
            assert(suffix_from(s, i + head.len())[j] == s[i + head.len() + j]);
        }
    }
}

/// A suffix splits at any interior offset into a subrange and a later suffix.
proof fn lemma_suffix_split(s: Seq<u8>, i: int, j: int)
    requires
        0 <= i <= j <= s.len(),
    ensures
        suffix_from(s, i) == s.subrange(i, j) + suffix_from(s, j),
{
    assert(suffix_from(s, i) =~= s.subrange(i, j) + suffix_from(s, j));
}

/// Scans a canonical decimal digit run beginning at `pos` (first byte is a
/// digit), rejecting leading zeros and values above `cap`. Complete: it
/// accepts every properly terminated canonical run whose value is in range.
#[verifier::loop_isolation(false)]
fn scan_digits(bytes: &Vec<u8>, pos: usize, cap: u64, overflow_kind: ParseErrorKind,
    malformed_kind: ParseErrorKind) -> (r: Result<(u64, usize), ParseError>)
    requires
        pos < bytes@.len(),
        is_digit(bytes@[pos as int]),
    ensures
        (r matches Ok((val, end)) ==> {
            &&& pos < end <= bytes@.len()
            &&& is_canonical_digits(bytes@.subrange(pos as int, end as int))
            &&& dec_value(bytes@.subrange(pos as int, end as int)) == val as int
            &&& val <= cap
            &&& (end < bytes@.len() ==> !is_digit(bytes@[end as int]))
        }),
        forall|ds: Seq<u8>, rest: Seq<u8>|
            #[trigger] digit_run_at(suffix_from(bytes@, pos as int), ds, rest)
                && dec_value(ds) <= cap as int ==> r is Ok,
{
    let n = bytes.len();
    let ghost sfx = suffix_from(bytes@, pos as int);
    if bytes[pos] == 48 {
        // a run that starts with '0' is canonical only as the single digit 0
        if pos + 1 < n && bytes[pos + 1] >= 48 && bytes[pos + 1] <= 57 {
            proof {
                assert forall|ds: Seq<u8>, rest: Seq<u8>|
                    !(#[trigger] digit_run_at(sfx, ds, rest) && dec_value(ds) <= cap as int) by {
                    if digit_run_at(sfx, ds, rest) {
                        assert(ds[0] == sfx[0]);
                        assert(ds[0] == 48);
                        assert(ds.len() == 1);
                        assert(rest.len() > 0);
                        assert(rest[0] == sfx[1]);
                        assert(is_digit(rest[0]));
                        assert(false);
                    }
                }
            }
            return Err(ParseError { offset: pos, kind: malformed_kind });
        }
        proof {
            let s = bytes@.subrange(pos as int, pos as int + 1);
            assert(s.len() == 1 && s[0] == 48);
            lemma_dec_value_single(s);
        }
        return Ok((0, pos + 1));
    }
    let mut p: usize = pos;
    let mut val: u64 = 0;
    while p < n && bytes[p] >= 48 && bytes[p] <= 57
        invariant
            pos <= p <= n,
            is_digit_seq(bytes@.subrange(pos as int, p as int)),
            p > pos ==> bytes@.subrange(pos as int, p as int)[0] != 48,
            dec_value(bytes@.subrange(pos as int, p as int)) == val as int,
            val <= cap,
            forall|ds: Seq<u8>, rest: Seq<u8>|
                #[trigger] digit_run_at(sfx, ds, rest) ==> p - pos <= ds.len(),
        decreases n - p,
    {
        let d: u8 = bytes[p] - 48;
        proof {
            assert forall|ds: Seq<u8>, rest: Seq<u8>|
                #[trigger] digit_run_at(sfx, ds, rest)
                implies p + 1 - pos <= ds.len() && dec_value(ds) >= val * 10 + d by {
                assert(p - pos <= ds.len());
                if p - pos == ds.len() {
                    assert(rest.len() == sfx.len() - ds.len());
                    assert(rest[0] == sfx[p - pos]);
                    assert(sfx[p - pos] == bytes@[p as int]);
                    assert(is_digit(rest[0]));
                    assert(false);
                }
                assert(p - pos < ds.len());
                assert(bytes@.subrange(pos as int, p as int) =~= ds.take(p - pos)) by {
                    assert forall|i: int| 0 <= i < p - pos
                        implies bytes@.subrange(pos as int, p as int)[i] == ds.take(p - pos)[i] by {
                        assert(sfx[i] == ds[i]);
                        assert(bytes@.subrange(pos as int, p as int)[i] == bytes@[pos + i]);
                        assert(sfx[i] == bytes@[pos + i]);
                    }
                }
                assert(ds.take(p - pos + 1).drop_last() =~= ds.take(p - pos));
                assert(ds.take(p - pos + 1).last() == ds[p - pos]);
                assert(ds[p - pos] == sfx[p - pos]);
                assert(sfx[p - pos] == bytes@[p as int]);
                assert(dec_value(ds.take(p - pos + 1)) == val * 10 + (bytes@[p as int] - 48));
                lemma_dec_value_take_le(ds, p - pos + 1);
            }
        }
        if (d as u64) > cap || val > (cap - (d as u64)) / 10 {
            proof {
                assert(val * 10 + d > cap) by {
                    let c = cap as int;
                    let dd = d as int;
                    let v = val as int;
                    if dd > c {
                        assert(v * 10 >= 0) by (nonlinear_arith)
                            requires v >= 0,
                        ;
                    } else {
                        assert(v >= (c - dd) / 10 + 1);
                        assert(v * 10 >= ((c - dd) / 10 + 1) * 10) by (nonlinear_arith)
                            requires v >= (c - dd) / 10 + 1,
                        ;
                        assert(((c - dd) / 10) * 10 > c - dd - 10) by {
                            vstd::arithmetic::div_mod::lemma_fundamental_div_mod(c - dd, 10);
                        }
                        assert(((c - dd) / 10 + 1) * 10 == ((c - dd) / 10) * 10 + 10)
                            by (nonlinear_arith);
                    }
                }
                assert forall|ds: Seq<u8>, rest: Seq<u8>|
                    !(#[trigger] digit_run_at(sfx, ds, rest) && dec_value(ds) <= cap as int) by {
                    if digit_run_at(sfx, ds, rest) {
                        assert(dec_value(ds) >= val * 10 + d);
                    }
                }
            }
            return Err(ParseError { offset: p, kind: overflow_kind });
        }
        proof {
            let c = cap as int;
            let dd = d as int;
            let v = val as int;
            assert(v * 10 <= ((c - dd) / 10) * 10) by (nonlinear_arith)
                requires v <= (c - dd) / 10, v >= 0,
            ;
            assert(((c - dd) / 10) * 10 <= c - dd) by {
                vstd::arithmetic::div_mod::lemma_fundamental_div_mod(c - dd, 10);
            }
            lemma_dec_value_push(bytes@.subrange(pos as int, p as int), bytes@[p as int]);
            assert(bytes@.subrange(pos as int, p as int).push(bytes@[p as int])
                =~= bytes@.subrange(pos as int, p as int + 1));
        }
        val = val * 10 + (d as u64);
        p = p + 1;
    }
    proof {
        assert(bytes@.subrange(pos as int, p as int)[0] == bytes@[pos as int]);
    }
    Ok((val, p))
}

/// When a canonical, terminated digit run opens the suffix at `pos` and the
/// scanner accepted a run ending at `end`, the two runs are the same run.
proof fn lemma_scan_matches_run(
    s: Seq<u8>,
    pos: int,
    end: int,
    ds: Seq<u8>,
    rest: Seq<u8>,
)
    requires
        0 <= pos < end <= s.len(),
        digit_run_at(suffix_from(s, pos), ds, rest),
        is_canonical_digits(s.subrange(pos, end)),
        end < s.len() ==> !is_digit(s[end]),
    ensures
        end - pos == ds.len(),
        s.subrange(pos, end) == ds,
        rest == suffix_from(s, pos + ds.len()),
{
    let sfx = suffix_from(s, pos);
    assert forall|i: int| 0 <= i < ds.len() implies is_digit(#[trigger] sfx[i]) by {
        assert(sfx[i] == ds[i]);
    }
    assert forall|i: int| 0 <= i < end - pos implies is_digit(#[trigger] sfx[i]) by {
        assert(sfx[i] == s.subrange(pos, end)[i]);
    }
    assert(ds.len() < sfx.len() ==> !is_digit(sfx[ds.len() as int])) by {
        if ds.len() < sfx.len() {
            assert(rest[0] == sfx[ds.len() as int]);
        }
    }
    assert(end - pos < sfx.len() ==> !is_digit(sfx[end - pos])) by {
        if end - pos < sfx.len() {
            assert(sfx[end - pos] == s[end]);
        }
    }
    lemma_digit_run_unique(sfx, end - pos, ds.len() as int);
    assert(s.subrange(pos, end) =~= ds) by {
        assert forall|i: int| 0 <= i < ds.len() implies s.subrange(pos, end)[i] == ds[i] by {
            assert(sfx[i] == ds[i]);
            assert(s.subrange(pos, end)[i] == s[pos + i]);
            assert(sfx[i] == s[pos + i]);
        }
    }
    assert(rest =~= suffix_from(s, pos + ds.len())) by {
        assert forall|i: int| 0 <= i < rest.len()
            implies rest[i] == suffix_from(s, pos + ds.len())[i] by {
            assert((ds + rest)[ds.len() + i] == rest[i]);
            assert(sfx[ds.len() + i] == s[pos + ds.len() + i]);
            assert(suffix_from(s, pos + ds.len())[i] == s[pos + ds.len() + i]);
        }
    }
}

/// If an integer opens the suffix at `pos`, its canonical magnitude digits
/// form a terminated run right after the sign, with the value in 64-bit range.
proof fn lemma_int_pre(s: Seq<u8>, pos: int, neg: bool, p: int)
    requires
        0 <= pos < s.len(),
        s[pos] == 105,
        p == if neg { pos + 2 } else { pos + 1 },
        neg ==> pos + 1 < s.len() && s[pos + 1] == 45,
        !neg ==> !(pos + 1 < s.len() && s[pos + 1] == 45),
    ensures
        forall|v: BencodeValue, rest: Seq<u8>|
            #[trigger] value_at(suffix_from(s, pos), v, rest) ==> {
                &&& v matches BencodeValue::Integer(m)
                &&& p < s.len()
                &&& is_digit(s[p])
                &&& digit_run_at(suffix_from(s, p), int_digits_of(v), seq![101u8] + rest)
                &&& (neg <==> v->Integer_0 < 0)
                &&& dec_value(int_digits_of(v))
                    <= if neg { 0x8000_0000_0000_0000int } else { 0x7fff_ffff_ffff_ffffint }
                &&& (neg ==> dec_value(int_digits_of(v)) >= 1)
            },
{
    let sfx = suffix_from(s, pos);
    assert forall|v: BencodeValue, rest: Seq<u8>| #[trigger] value_at(sfx, v, rest)
        implies {
            &&& v matches BencodeValue::Integer(m)
            &&& p < s.len()
            &&& is_digit(s[p])
            &&& digit_run_at(suffix_from(s, p), int_digits_of(v), seq![101u8] + rest)
            &&& (neg <==> v->Integer_0 < 0)
            &&& dec_value(int_digits_of(v))
                <= if neg { 0x8000_0000_0000_0000int } else { 0x7fff_ffff_ffff_ffffint }
            &&& (neg ==> dec_value(int_digits_of(v)) >= 1)
        } by {
        lemma_first_byte(v);
        assert(sfx[0] == encoded(v)[0]);
        let m = v->Integer_0 as int;
        lemma_int_encoded_shape(m);
        assert(sfx =~= seq![105u8] + int_body(m) + seq![101u8] + rest);
        assert(int_body(m)[0] == sfx[1]);
        assert(sfx[1] == s[pos + 1]);
        if m < 0 {
            lemma_digits_of_canonical((-m) as nat);
            assert(int_body(m)[0] == 45);
            assert(s[pos + 1] == 45);
            assert(neg);
            assert(sfx =~= seq![105u8, 45u8]
                + (digits_of((-m) as nat) + (seq![101u8] + rest)));
            lemma_suffix_peel(s, pos, seq![105u8, 45u8],
                digits_of((-m) as nat) + (seq![101u8] + rest));
            assert(suffix_from(s, p) == digits_of((-m) as nat) + (seq![101u8] + rest));
            assert(int_digits_of(v) == digits_of((-m) as nat));
            assert(suffix_from(s, p)[0] == digits_of((-m) as nat)[0]);
            assert(suffix_from(s, p)[0] == s[p]);
            assert((seq![101u8] + rest)[0] == 101);
            assert(dec_value(digits_of((-m) as nat)) == -m);
        } else {
            lemma_digits_of_canonical(m as nat);
            assert(48 <= int_body(m)[0] <= 57);
            assert(!neg);
            assert(sfx =~= seq![105u8] + (digits_of(m as nat) + (seq![101u8] + rest)));
            lemma_suffix_peel(s, pos, seq![105u8],
                digits_of(m as nat) + (seq![101u8] + rest));
            assert(suffix_from(s, p) == digits_of(m as nat) + (seq![101u8] + rest));
            assert(int_digits_of(v) == digits_of(m as nat));
            assert(suffix_from(s, p)[0] == digits_of(m as nat)[0]);
            assert(suffix_from(s, p)[0] == s[p]);
            assert((seq![101u8] + rest)[0] == 101);
            assert(dec_value(digits_of(m as nat)) == m);
        }
    }
}

/// After the magnitude run has been scanned, an integer hypothesis pins the
/// run's end on the closing `e` and the scanned value on the magnitude.
proof fn lemma_int_post(s: Seq<u8>, pos: int, neg: bool, p: int, dend: int, val: int)
    requires
        0 <= pos < s.len(),
        s[pos] == 105,
        p == if neg { pos + 2 } else { pos + 1 },
        neg ==> pos + 1 < s.len() && s[pos + 1] == 45,
        !neg ==> !(pos + 1 < s.len() && s[pos + 1] == 45),
        p < dend <= s.len(),
        is_canonical_digits(s.subrange(p, dend)),
        dec_value(s.subrange(p, dend)) == val,
        dend < s.len() ==> !is_digit(s[dend]),
    ensures
        forall|v: BencodeValue, rest: Seq<u8>|
            #[trigger] value_at(suffix_from(s, pos), v, rest) ==> {
                &&& dend < s.len()
                &&& s[dend] == 101
                &&& val == dec_value(int_digits_of(v))
                &&& (neg ==> val >= 1)
            },
{
    lemma_int_pre(s, pos, neg, p);
    let sfx = suffix_from(s, pos);
    assert forall|v: BencodeValue, rest: Seq<u8>| #[trigger] value_at(sfx, v, rest)
        implies {
            &&& dend < s.len()
            &&& s[dend] == 101
            &&& val == dec_value(int_digits_of(v))
            &&& (neg ==> val >= 1)
        } by {
        let tail = seq![101u8] + rest;
        assert(digit_run_at(suffix_from(s, p), int_digits_of(v), tail));
        lemma_scan_matches_run(s, p, dend, int_digits_of(v), tail);
        assert(tail == suffix_from(s, p + int_digits_of(v).len()));
        assert(tail[0] == s[dend]) by {
            assert(suffix_from(s, dend)[0] == s[dend]);
        }
        assert(tail.len() == s.len() - dend);
    }
}

/// Inside a list body, a non-`e` byte means another value follows.
proof fn lemma_items_step(s: Seq<u8>, p: int)
    requires
        0 <= p < s.len(),
        s[p] != 101,
    ensures
        forall|l: Seq<BencodeValue>, lrest: Seq<u8>|
            #[trigger] items_at(suffix_from(s, p), l, lrest) ==> l.len() >= 1
                && value_at(suffix_from(s, p), l[0],
                    encoded_items(l.drop_first()) + seq![101u8] + lrest),
{
    let psfx = suffix_from(s, p);
    assert forall|l: Seq<BencodeValue>, lrest: Seq<u8>| #[trigger] items_at(psfx, l, lrest)
        implies l.len() >= 1
            && value_at(psfx, l[0], encoded_items(l.drop_first()) + seq![101u8] + lrest) by {
        if l.len() == 0 {
            assert(psfx =~= seq![101u8] + lrest);
            assert(psfx[0] == 101);
            assert(psfx[0] == s[p]);
            assert(false);
        }
        assert(encoded_items(l) == encoded(l[0]) + encoded_items(l.drop_first()));
        assert(psfx =~= encoded(l[0]) + (encoded_items(l.drop_first()) + seq![101u8] + lrest));
    }
}

/// Consuming the list element that the hypothesis says is next keeps the
/// rest of the body intact.
proof fn lemma_items_advance(s: Seq<u8>, p: int, np: int, v: BencodeValue)
    requires
        0 <= p < np <= s.len(),
        s[p] != 101,
        encoded(v) == s.subrange(p, np),
    ensures
        forall|l: Seq<BencodeValue>, lrest: Seq<u8>|
            #[trigger] items_at(suffix_from(s, p), l, lrest)
                ==> items_at(suffix_from(s, np), l.drop_first(), lrest),
{
    lemma_items_step(s, p);
    let psfx = suffix_from(s, p);
    assert forall|l: Seq<BencodeValue>, lrest: Seq<u8>| #[trigger] items_at(psfx, l, lrest)
        implies items_at(suffix_from(s, np), l.drop_first(), lrest) by {
        let after = encoded_items(l.drop_first()) + seq![101u8] + lrest;
        assert(value_at(psfx, l[0], after));
        lemma_suffix_split(s, p, np);
        assert(psfx == encoded(v) + suffix_from(s, np));
        lemma_encoded_unambiguous(v, l[0], suffix_from(s, np), after);
    }
}

/// Inside a dictionary body, a non-`e` byte means a key string follows.
proof fn lemma_pairs_step(s: Seq<u8>, p: int)
    requires
        0 <= p < s.len(),
        s[p] != 101,
    ensures
        forall|l: Seq<(Vec<u8>, BencodeValue)>, lrest: Seq<u8>|
            #[trigger] pairs_at(suffix_from(s, p), l, lrest) ==> l.len() >= 1
                && is_digit(s[p])
                && string_at(suffix_from(s, p), l[0].0@,
                    encoded(l[0].1) + encoded_pairs(l.drop_first()) + seq![101u8] + lrest),
{
    let psfx = suffix_from(s, p);
    assert forall|l: Seq<(Vec<u8>, BencodeValue)>, lrest: Seq<u8>|
        #[trigger] pairs_at(psfx, l, lrest)
        implies l.len() >= 1 && is_digit(s[p])
            && string_at(psfx, l[0].0@,
                encoded(l[0].1) + encoded_pairs(l.drop_first()) + seq![101u8] + lrest) by {
        if l.len() == 0 {
            assert(psfx =~= seq![101u8] + lrest);
            assert(psfx[0] == 101);
            assert(psfx[0] == s[p]);
            assert(false);
        }
        assert(encoded_pairs(l) == string_encoded(l[0].0@) + encoded(l[0].1)
            + encoded_pairs(l.drop_first()));
        let after = encoded(l[0].1) + encoded_pairs(l.drop_first()) + seq![101u8] + lrest;
        assert(psfx =~= string_encoded(l[0].0@) + after);
        lemma_string_encoded_shape(l[0].0@);
        assert(psfx[0] == string_encoded(l[0].0@)[0]);
        assert(psfx[0] == s[p]);
    }
}

/// Consuming the key string that the hypothesis says is next leaves the
/// entry's value at the front.
proof fn lemma_pairs_key_advance(s: Seq<u8>, p: int, kend: int, k: Seq<u8>)
    requires
        0 <= p < kend <= s.len(),
        s[p] != 101,
        string_encoded(k) == s.subrange(p, kend),
    ensures
        forall|l: Seq<(Vec<u8>, BencodeValue)>, lrest: Seq<u8>|
            #[trigger] pairs_at(suffix_from(s, p), l, lrest)
                ==> value_at(suffix_from(s, kend), l[0].1,
                    encoded_pairs(l.drop_first()) + seq![101u8] + lrest),
{
    lemma_pairs_step(s, p);
    let psfx = suffix_from(s, p);
    assert forall|l: Seq<(Vec<u8>, BencodeValue)>, lrest: Seq<u8>|
        #[trigger] pairs_at(psfx, l, lrest)
        implies value_at(suffix_from(s, kend), l[0].1,
            encoded_pairs(l.drop_first()) + seq![101u8] + lrest) by {
        let after = encoded(l[0].1) + encoded_pairs(l.drop_first()) + seq![101u8] + lrest;
        assert(string_at(psfx, l[0].0@, after));
        lemma_suffix_split(s, p, kend);
        assert(psfx == string_encoded(k) + suffix_from(s, kend));
        lemma_string_encoded_unambiguous(k, l[0].0@, suffix_from(s, kend), after);
        assert(suffix_from(s, kend)
            =~= encoded(l[0].1) + (encoded_pairs(l.drop_first()) + seq![101u8] + lrest));
    }
}

/// Consuming a whole entry keeps the rest of the dictionary body intact.
proof fn lemma_pairs_advance(s: Seq<u8>, p: int, kend: int, np: int, k: Seq<u8>, v: BencodeValue)
    requires
        0 <= p < kend < np <= s.len(),
        s[p] != 101,
        string_encoded(k) == s.subrange(p, kend),
        encoded(v) == s.subrange(kend, np),
    ensures
        forall|l: Seq<(Vec<u8>, BencodeValue)>, lrest: Seq<u8>|
            #[trigger] pairs_at(suffix_from(s, p), l, lrest)
                ==> pairs_at(suffix_from(s, np), l.drop_first(), lrest),
{
    lemma_pairs_key_advance(s, p, kend, k);
    lemma_pairs_step(s, p);
    let psfx = suffix_from(s, p);
    assert forall|l: Seq<(Vec<u8>, BencodeValue)>, lrest: Seq<u8>|
        #[trigger] pairs_at(psfx, l, lrest)
        implies pairs_at(suffix_from(s, np), l.drop_first(), lrest) by {
        let vafter = encoded_pairs(l.drop_first()) + seq![101u8] + lrest;
        assert(value_at(suffix_from(s, kend), l[0].1, vafter));
        lemma_suffix_split(s, kend, np);
        assert(suffix_from(s, kend) == encoded(v) + suffix_from(s, np));
        lemma_encoded_unambiguous(v, l[0].1, suffix_from(s, np), vafter);
    }
}

/// Parses a `<len>:<raw bytes>` production beginning at `pos`. Complete: it
/// accepts every suffix that opens with a string production.
#[verifier::loop_isolation(false)]
fn parse_string(bytes: &Vec<u8>, pos: usize) -> (r: Result<(Vec<u8>, usize), ParseError>)
    requires
        pos < bytes@.len(),
        is_digit(bytes@[pos as int]),
    ensures
        (r matches Ok((s, end)) ==> {
            &&& pos < end <= bytes@.len()
            &&& string_encoded(s@) == bytes@.subrange(pos as int, end as int)
        }),
        forall|b: Seq<u8>, rest: Seq<u8>|
            #[trigger] string_at(suffix_from(bytes@, pos as int), b, rest) ==> r is Ok,
{
    let n = bytes.len();
    let ghost sfx = suffix_from(bytes@, pos as int);
    proof {
        assert forall|b: Seq<u8>, rest: Seq<u8>| #[trigger] string_at(sfx, b, rest)
            implies digit_run_at(sfx, digits_of(b.len()), seq![58u8] + b + rest)
                && dec_value(digits_of(b.len())) <= n as int by {
            lemma_digits_of_canonical(b.len());
            assert(sfx =~= digits_of(b.len()) + (seq![58u8] + b + rest));
            assert((seq![58u8] + b + rest)[0] == 58);
            assert(sfx.len() <= n);
            assert(b.len() <= sfx.len());
        }
    }
    let (val, dend) = match scan_digits(bytes, pos, n as u64, ParseErrorKind::LengthExceedsInput,
        ParseErrorKind::InvalidLength) {
        Ok(x) => x,
        Err(e) => {
            return Err(e);
        },
    };
    proof {
        assert forall|b: Seq<u8>, rest: Seq<u8>| #[trigger] string_at(sfx, b, rest)
            implies {
                &&& dend - pos == digits_of(b.len()).len()
                &&& val as int == b.len()
                &&& dend < n
                &&& bytes@[dend as int] == 58
                &&& b.len() <= n - (dend + 1)
            } by {
            lemma_digits_of_canonical(b.len());
            let tail = seq![58u8] + b + rest;
            assert(sfx =~= digits_of(b.len()) + (seq![58u8] + b + rest));
            assert(tail[0] == 58);
            assert(digit_run_at(sfx, digits_of(b.len()), tail));
            lemma_scan_matches_run(bytes@, pos as int, dend as int, digits_of(b.len()), tail);
            assert(tail == suffix_from(bytes@, pos + digits_of(b.len()).len()));
            assert(tail[0] == bytes@[dend as int]) by {
                assert(suffix_from(bytes@, dend as int)[0] == bytes@[dend as int]);
            }
            assert(tail.len() == n - dend);
            assert(tail.len() == 1 + b.len() + rest.len());
        }
    }
    if dend >= n {
        return Err(ParseError { offset: dend, kind: ParseErrorKind::UnexpectedEnd });
    }
    if bytes[dend] != 58 {
        return Err(ParseError { offset: dend, kind: ParseErrorKind::InvalidLength });
    }
    let start = dend + 1;
    let l = val as usize;
    if l > n - start {
        return Err(ParseError { offset: pos, kind: ParseErrorKind::LengthExceedsInput });
    }
    let mut s: Vec<u8> = Vec::new();
    let mut i: usize = 0;
    while i < l
        invariant
            i <= l,
            s@ == bytes@.subrange(start as int, start as int + i as int),
        decreases l - i,
    {
        s.push(bytes[start + i]);
        proof {
            assert(bytes@.subrange(start as int, start as int + i as int).push(
                bytes@[start as int + i as int])
                =~= bytes@.subrange(start as int, start as int + i as int + 1));
        }
        i = i + 1;
    }
    proof {
        let digits = bytes@.subrange(pos as int, dend as int);
        lemma_canonical_digits_of_value(digits);
        assert(digits_of(s@.len()) == digits);
        assert(string_encoded(s@)
            =~= bytes@.subrange(pos as int, start as int + l as int));
    }
    Ok((s, start + l))
}

/// Parses one bencoded term beginning at `pos`. Sound: on success the
/// returned value's canonical encoding is exactly the consumed byte range.
/// Complete: it accepts every suffix that opens with an encoded value.
#[verifier::loop_isolation(false)]
#[verifier::rlimit(60)]
fn parse_value(bytes: &Vec<u8>, pos: usize) -> (r: Result<(BencodeValue, usize), ParseError>)
    requires
        pos <= bytes@.len(),
    ensures
        (r matches Ok((v, end)) ==> {
            &&& pos < end <= bytes@.len()
            &&& encoded(v) == bytes@.subrange(pos as int, end as int)
        }),
        forall|v: BencodeValue, rest: Seq<u8>|
            #[trigger] value_at(suffix_from(bytes@, pos as int), v, rest) ==> r is Ok,
    decreases bytes@.len() - pos,
{
    let n = bytes.len();
    let ghost sfx = suffix_from(bytes@, pos as int);
    if pos >= n {
        proof {
            assert forall|v: BencodeValue, rest: Seq<u8>| !(#[trigger] value_at(sfx, v, rest)) by {
                if value_at(sfx, v, rest) {
                    lemma_first_byte(v);
                    assert(sfx.len() == 0);
                    assert(false);
                }
            }
        }
        return Err(ParseError { offset: pos, kind: ParseErrorKind::UnexpectedEnd });
    }
    let b = bytes[pos];
    proof {
        assert(sfx[0] == b);
        assert forall|v: BencodeValue, rest: Seq<u8>| #[trigger] value_at(sfx, v, rest)
            implies encoded(v)[0] == b by {
            lemma_first_byte(v);
        }
    }
    if b == 105 {
        // integer: i <optional -> <digits> e
        let mut p = pos + 1;
        let mut neg = false;
        if p < n && bytes[p] == 45 {
            neg = true;
            p = p + 1;
        }
        proof {
            lemma_int_pre(bytes@, pos as int, neg, p as int);
        }
        if p >= n {
            return Err(ParseError { offset: p, kind: ParseErrorKind::UnexpectedEnd });
        }
        if bytes[p] < 48 || bytes[p] > 57 {
            return Err(ParseError { offset: p, kind: ParseErrorKind::InvalidInteger });
        }
        let cap: u64 = if neg { 9223372036854775808u64 } else { 9223372036854775807u64 };
        let (val, dend) = match scan_digits(bytes, p, cap, ParseErrorKind::IntegerOverflow,
            ParseErrorKind::InvalidInteger) {
            Ok(x) => x,
            Err(e) => {
                return Err(e);
            },
        };
        proof {
            lemma_int_post(bytes@, pos as int, neg, p as int, dend as int, val as int);
        }
        if dend >= n {
            return Err(ParseError { offset: dend, kind: ParseErrorKind::UnexpectedEnd });
        }
        if bytes[dend] != 101 {
            return Err(ParseError { offset: dend, kind: ParseErrorKind::InvalidInteger });
        }
        if neg && val == 0 {
            // -0 is not a bencode integer
            return Err(ParseError { offset: pos + 1, kind: ParseErrorKind::InvalidInteger });
        }
        let value: i64 = if neg {
            if val == 9223372036854775808u64 {
                i64::MIN
            } else {
                -(val as i64)
            }
        } else {
            val as i64
        };
        proof {
            let digits = bytes@.subrange(p as int, dend as int);
            lemma_canonical_digits_of_value(digits);
            if neg {
                assert((-(value as int)) as nat == val as nat);
                assert(digits_of((-(value as int)) as nat) == digits);
                assert(int_encoded(value as int)
                    =~= bytes@.subrange(pos as int, dend as int + 1));
            } else {
                assert(digits_of(value as nat) == digits);
                assert(int_encoded(value as int)
                    =~= bytes@.subrange(pos as int, dend as int + 1));
            }
        }
        Ok((BencodeValue::Integer(value), dend + 1))
    } else if b >= 48 && b <= 57 {
        // byte string: <len>:<raw bytes>
        proof {
            assert forall|v: BencodeValue, rest: Seq<u8>| #[trigger] value_at(sfx, v, rest)
                implies string_at(sfx, v->ByteString_0@, rest) by {
                lemma_first_byte(v);
            }
        }
        match parse_string(bytes, pos) {
            Ok((s, end)) => Ok((BencodeValue::ByteString(s), end)),
            Err(e) => Err(e),
        }
    } else if b == 108 {
        // list: l <values> e
        let mut items: Vec<BencodeValue> = Vec::new();
        let mut p = pos + 1;
        proof {
            assert forall|v: BencodeValue, rest: Seq<u8>| #[trigger] value_at(sfx, v, rest)
                implies items_at(suffix_from(bytes@, pos + 1), v->List_0@, rest) by {
                lemma_first_byte(v);
                assert(sfx =~= seq![108u8]
                    + (encoded_items(v->List_0@) + seq![101u8] + rest));
                lemma_suffix_peel(bytes@, pos as int, seq![108u8],
                    encoded_items(v->List_0@) + seq![101u8] + rest);
            }
        }
        loop
            invariant
                pos < p <= n,
                seq![108u8] + encoded_items(items@) == bytes@.subrange(pos as int, p as int),
                (exists|v: BencodeValue, rest: Seq<u8>| #[trigger] value_at(sfx, v, rest))
                    ==> exists|l: Seq<BencodeValue>, rest: Seq<u8>|
                        #[trigger] items_at(suffix_from(bytes@, p as int), l, rest),
            decreases n - p,
        {
            let ghost psfx = suffix_from(bytes@, p as int);
            if p >= n {
                proof {
                    assert forall|v: BencodeValue, rest: Seq<u8>|
                        !(#[trigger] value_at(sfx, v, rest)) by {
                        if value_at(sfx, v, rest) {
                            let (l, lrest) = choose|l: Seq<BencodeValue>, lrest: Seq<u8>|
                                #[trigger] items_at(psfx, l, lrest);
                            assert(psfx.len() == 0);
                            assert(psfx.len() >= 1);
                        }
                    }
                }
                return Err(ParseError { offset: p, kind: ParseErrorKind::UnexpectedEnd });
            }
            if bytes[p] == 101 {
                proof {
                    assert(encoded(BencodeValue::List(items))
                        =~= bytes@.subrange(pos as int, p as int + 1));
                }
                return Ok((BencodeValue::List(items), p + 1));
            }
            proof {
                assert(psfx[0] == bytes@[p as int]);
                lemma_items_step(bytes@, p as int);
                assert forall|v: BencodeValue, rest: Seq<u8>| #[trigger] value_at(sfx, v, rest)
                    implies exists|w: BencodeValue, wrest: Seq<u8>|
                        #[trigger] value_at(psfx, w, wrest) by {
                    let (l, lrest) = choose|l: Seq<BencodeValue>, lrest: Seq<u8>|
                        #[trigger] items_at(psfx, l, lrest);
                    assert(value_at(psfx, l[0],
                        encoded_items(l.drop_first()) + seq![101u8] + lrest));
                }
            }
            let (v, np) = match parse_value(bytes, p) {
                Ok(x) => x,
                Err(e) => {
                    return Err(e);
                },
            };
            proof {
                lemma_encoded_items_push(items@, v);
                assert(seq![108u8] + encoded_items(items@.push(v))
                    =~= bytes@.subrange(pos as int, np as int));
                lemma_items_advance(bytes@, p as int, np as int, v);
                assert forall|v0: BencodeValue, rest: Seq<u8>| #[trigger] value_at(sfx, v0, rest)
                    implies exists|l: Seq<BencodeValue>, lrest: Seq<u8>|
                        #[trigger] items_at(suffix_from(bytes@, np as int), l, lrest) by {
                    let (l, lrest) = choose|l: Seq<BencodeValue>, lrest: Seq<u8>|
                        #[trigger] items_at(psfx, l, lrest);
                    assert(items_at(suffix_from(bytes@, np as int), l.drop_first(), lrest));
                }
            }
            items.push(v);
            p = np;
        }
    } else if b == 100 {
        // dictionary: d (<key string> <value>)* e
        let mut pairs: Vec<(Vec<u8>, BencodeValue)> = Vec::new();
        let mut p = pos + 1;
        proof {
            assert forall|v: BencodeValue, rest: Seq<u8>| #[trigger] value_at(sfx, v, rest)
                implies pairs_at(suffix_from(bytes@, pos + 1), v->Dictionary_0@, rest) by {
                lemma_first_byte(v);
                assert(sfx =~= seq![100u8]
                    + (encoded_pairs(v->Dictionary_0@) + seq![101u8] + rest));
                lemma_suffix_peel(bytes@, pos as int, seq![100u8],
                    encoded_pairs(v->Dictionary_0@) + seq![101u8] + rest);
            }
        }
        loop
            invariant
                pos < p <= n,
                seq![100u8] + encoded_pairs(pairs@) == bytes@.subrange(pos as int, p as int),
                (exists|v: BencodeValue, rest: Seq<u8>| #[trigger] value_at(sfx, v, rest))
                    ==> exists|l: Seq<(Vec<u8>, BencodeValue)>, rest: Seq<u8>|
                        #[trigger] pairs_at(suffix_from(bytes@, p as int), l, rest),
            decreases n - p,
        {
            let ghost psfx = suffix_from(bytes@, p as int);
            if p >= n {
                proof {
                    assert forall|v: BencodeValue, rest: Seq<u8>|
                        !(#[trigger] value_at(sfx, v, rest)) by {
                        if value_at(sfx, v, rest) {
                            let (l, lrest) = choose|l: Seq<(Vec<u8>, BencodeValue)>,
                                lrest: Seq<u8>| #[trigger] pairs_at(psfx, l, lrest);
                            assert(psfx.len() == 0);
                            assert(psfx.len() >= 1);
                        }
                    }
                }
                return Err(ParseError { offset: p, kind: ParseErrorKind::UnexpectedEnd });
            }
            if bytes[p] == 101 {
                proof {
                    assert(encoded(BencodeValue::Dictionary(pairs))
                        =~= bytes@.subrange(pos as int, p as int + 1));
                }
                return Ok((BencodeValue::Dictionary(pairs), p + 1));
            }
            proof {
                assert(psfx[0] == bytes@[p as int]);
                lemma_pairs_step(bytes@, p as int);
                assert forall|v: BencodeValue, rest: Seq<u8>| #[trigger] value_at(sfx, v, rest)
                    implies is_digit(bytes@[p as int])
                        && (exists|kb: Seq<u8>, krest: Seq<u8>|
                            #[trigger] string_at(psfx, kb, krest)) by {
                    let (l, lrest) = choose|l: Seq<(Vec<u8>, BencodeValue)>, lrest: Seq<u8>|
                        #[trigger] pairs_at(psfx, l, lrest);
                    assert(string_at(psfx, l[0].0@,
                        encoded(l[0].1) + encoded_pairs(l.drop_first()) + seq![101u8] + lrest));
                }
            }
            if bytes[p] < 48 || bytes[p] > 57 {
                // a key must be a byte string, whose production starts with a digit
                return Err(ParseError { offset: p, kind: ParseErrorKind::InvalidKey });
            }
            let (k, kend) = match parse_string(bytes, p) {
                Ok(x) => x,
                Err(e) => {
                    return Err(e);
                },
            };
            proof {
                lemma_pairs_key_advance(bytes@, p as int, kend as int, k@);
                assert forall|v: BencodeValue, rest: Seq<u8>| #[trigger] value_at(sfx, v, rest)
                    implies exists|w: BencodeValue, wrest: Seq<u8>|
                        #[trigger] value_at(suffix_from(bytes@, kend as int), w, wrest) by {
                    let (l, lrest) = choose|l: Seq<(Vec<u8>, BencodeValue)>, lrest: Seq<u8>|
                        #[trigger] pairs_at(psfx, l, lrest);
                    assert(value_at(suffix_from(bytes@, kend as int), l[0].1,
                        encoded_pairs(l.drop_first()) + seq![101u8] + lrest));
                }
            }
            let (v, np) = match parse_value(bytes, kend) {
                Ok(x) => x,
                Err(e) => {
                    return Err(e);
                },
            };
            proof {
                lemma_encoded_pairs_push(pairs@, k, v);
                assert(seq![100u8] + encoded_pairs(pairs@.push((k, v)))
                    =~= bytes@.subrange(pos as int, np as int));
                lemma_pairs_advance(bytes@, p as int, kend as int, np as int, k@, v);
                assert forall|v0: BencodeValue, rest: Seq<u8>| #[trigger] value_at(sfx, v0, rest)
                    implies exists|l: Seq<(Vec<u8>, BencodeValue)>, lrest: Seq<u8>|
                        #[trigger] pairs_at(suffix_from(bytes@, np as int), l, lrest) by {
                    let (l, lrest) = choose|l: Seq<(Vec<u8>, BencodeValue)>, lrest: Seq<u8>|
                        #[trigger] pairs_at(psfx, l, lrest);
                    assert(pairs_at(suffix_from(bytes@, np as int), l.drop_first(), lrest));
                }
            }
            pairs.push((k, v));
            p = np;
        }
    } else {
        proof {
            assert forall|v: BencodeValue, rest: Seq<u8>| !(#[trigger] value_at(sfx, v, rest)) by {
                if value_at(sfx, v, rest) {
                    lemma_first_byte(v);
                }
            }
        }
        Err(ParseError { offset: pos, kind: ParseErrorKind::UnexpectedByte })
    }
}

/// Decodes a whole buffer as one bencoded term. Sound: the returned value
/// re-encodes to exactly the input, so decoding preserves the bytes
/// (including dictionary key order) of any input it accepts. Complete: it
/// returns a value whenever the buffer is the encoding of some value, so
/// `decode(encode(v))` never fails.
pub fn decode(bytes: &Vec<u8>) -> (r: Result<BencodeValue, ParseError>)
    ensures
        (r matches Ok(v) ==> encoded(v) == bytes@),
        (exists|v: BencodeValue| encoded(v) == bytes@) ==> r is Ok,
{
    proof {
        if exists|v: BencodeValue| encoded(v) == bytes@ {
            let v = choose|v: BencodeValue| encoded(v) == bytes@;
            assert(value_at(suffix_from(bytes@, 0), v, Seq::empty())) by {
                assert(suffix_from(bytes@, 0) =~= encoded(v) + Seq::<u8>::empty());
            }
        }
    }
    match parse_value(bytes, 0) {
        Ok((v, end)) => {
            if end == bytes.len() {
                proof {
                    assert(bytes@.subrange(0, bytes@.len() as int) =~= bytes@);
                }
                Ok(v)
            } else {
                proof {
                    if exists|w: BencodeValue| encoded(w) == bytes@ {
                        let w = choose|w: BencodeValue| encoded(w) == bytes@;
                        lemma_suffix_split(bytes@, 0, end as int);
                        assert(suffix_from(bytes@, 0) =~= bytes@);
                        assert(bytes@ == encoded(v) + suffix_from(bytes@, end as int)) by {
                            assert(encoded(v) == bytes@.subrange(0, end as int));
                        }
                        assert(bytes@ =~= encoded(w) + Seq::<u8>::empty());
                        lemma_encoded_unambiguous(v, w, suffix_from(bytes@, end as int),
                            Seq::empty());
                        assert(suffix_from(bytes@, end as int).len() == 0);
                        assert(false);
                    }
                }
                Err(ParseError { offset: end, kind: ParseErrorKind::TrailingData })
            }
        },
        Err(e) => {
            proof {
                if exists|w: BencodeValue| encoded(w) == bytes@ {
                    let w = choose|w: BencodeValue| encoded(w) == bytes@;
                    assert(value_at(suffix_from(bytes@, 0), w, Seq::empty()));
                    assert(false);
                }
            }
            Err(e)
        },
    }
}

} // verus!
