//! The bencode value model and its canonical byte encoding.
//!
//! `encoded` is the mathematical definition of the format; the executable
//! encoder produces exactly those bytes, and the decoder (in `decoder`)
//! returns only values whose encoding reproduces the consumed input.

use vstd::prelude::*;
use crate::numbers::{digits_of, dec_value};

verus! {

broadcast use vstd::std_specs::vec::group_vec_axioms;

/// A bencoded term: integer, raw byte string, list, or dictionary.
/// Dictionary entries keep the order in which they were encountered, so a
/// decoded value re-encodes to the original bytes.
#[derive(Debug, PartialEq, Eq)]
pub enum BencodeValue {
    Integer(i64),
    ByteString(Vec<u8>),
    List(Vec<BencodeValue>),
    Dictionary(Vec<(Vec<u8>, BencodeValue)>),
}

/// The bytes of `i<decimal>e` for the integer `n`.
pub open spec fn int_encoded(n: int) -> Seq<u8> {
    if n < 0 {
        seq![105u8] + seq![45u8] + digits_of((-n) as nat) + seq![101u8]
    } else {
        seq![105u8] + digits_of(n as nat) + seq![101u8]
    }
}

/// The bytes of `<len>:<raw bytes>` for the byte string `b`.
pub open spec fn string_encoded(b: Seq<u8>) -> Seq<u8> {
    digits_of(b.len()) + seq![58u8] + b
}

/// The canonical bencoding of `v`.
pub open spec fn encoded(v: BencodeValue) -> Seq<u8>
    decreases v,
{
    match v {
        BencodeValue::Integer(n) => int_encoded(n as int),
        BencodeValue::ByteString(b) => string_encoded(b@),
        BencodeValue::List(items) => seq![108u8] + encoded_items(items@) + seq![101u8],
        BencodeValue::Dictionary(pairs) => seq![100u8] + encoded_pairs(pairs@) + seq![101u8],
    }
}

/// The concatenated encodings of a sequence of values (a list body).
pub open spec fn encoded_items(items: Seq<BencodeValue>) -> Seq<u8>
    decreases items,
{
    if items.len() == 0 {
        Seq::empty()
    } else {
        encoded(items[0]) + encoded_items(items.drop_first())
    }
}

/// The concatenated key/value encodings of dictionary entries (a dict body).
pub open spec fn encoded_pairs(pairs: Seq<(Vec<u8>, BencodeValue)>) -> Seq<u8>
    decreases pairs,
{
    if pairs.len() == 0 {
        Seq::empty()
    } else {
        string_encoded(pairs[0].0@) + encoded(pairs[0].1) + encoded_pairs(pairs.drop_first())
    }
}

pub proof fn lemma_encoded_items_push(items: Seq<BencodeValue>, v: BencodeValue)
    ensures
        encoded_items(items.push(v)) == encoded_items(items) + encoded(v),
    decreases items.len(),
{
    if items.len() == 0 {
        assert(items.push(v)[0] == v);
        assert(items.push(v).drop_first() =~= Seq::<BencodeValue>::empty());
        assert(encoded_items(Seq::<BencodeValue>::empty()) == Seq::<u8>::empty());
        assert(encoded_items(items.push(v)) =~= encoded(v) + Seq::<u8>::empty());
        assert(encoded_items(items) + encoded(v) =~= encoded(v) + Seq::<u8>::empty());
    } else {
        assert(items.push(v).drop_first() =~= items.drop_first().push(v));
        lemma_encoded_items_push(items.drop_first(), v);
        assert(items.push(v)[0] == items[0]);
        assert(encoded_items(items.push(v))
            =~= encoded(items[0]) + (encoded_items(items.drop_first()) + encoded(v)));
        assert(encoded(items[0]) + (encoded_items(items.drop_first()) + encoded(v))
            =~= (encoded(items[0]) + encoded_items(items.drop_first())) + encoded(v));
    }
}

pub proof fn lemma_encoded_pairs_push(pairs: Seq<(Vec<u8>, BencodeValue)>, k: Vec<u8>, v: BencodeValue)
    ensures
        encoded_pairs(pairs.push((k, v)))
            == encoded_pairs(pairs) + string_encoded(k@) + encoded(v),
    decreases pairs.len(),
{
    if pairs.len() == 0 {
        assert(pairs.push((k, v))[0] == (k, v));
        assert(pairs.push((k, v)).drop_first() =~= Seq::<(Vec<u8>, BencodeValue)>::empty());
        assert(encoded_pairs(Seq::<(Vec<u8>, BencodeValue)>::empty()) == Seq::<u8>::empty());
        assert(encoded_pairs(pairs.push((k, v)))
            =~= (string_encoded(k@) + encoded(v)) + Seq::<u8>::empty());
        assert((encoded_pairs(pairs) + string_encoded(k@)) + encoded(v)
            =~= (string_encoded(k@) + encoded(v)) + Seq::<u8>::empty());
    } else {
        assert(pairs.push((k, v)).drop_first() =~= pairs.drop_first().push((k, v)));
        lemma_encoded_pairs_push(pairs.drop_first(), k, v);
        assert(pairs.push((k, v))[0] == pairs[0]);
        assert(encoded_pairs(pairs.push((k, v)))
            =~= string_encoded(pairs[0].0@) + encoded(pairs[0].1)
                + ((encoded_pairs(pairs.drop_first()) + string_encoded(k@)) + encoded(v)));
        assert(string_encoded(pairs[0].0@) + encoded(pairs[0].1)
                + ((encoded_pairs(pairs.drop_first()) + string_encoded(k@)) + encoded(v))
            =~= ((string_encoded(pairs[0].0@) + encoded(pairs[0].1)
                + encoded_pairs(pairs.drop_first())) + string_encoded(k@)) + encoded(v));
    }
}

/// Appends the raw bytes of `b` to `out`.
pub(crate) fn push_bytes(out: &mut Vec<u8>, b: &Vec<u8>)
    ensures
        final(out)@ == old(out)@ + b@,
{
    let ghost pre = out@;
    let mut i: usize = 0;
    while i < b.len()
        invariant
            i <= b@.len(),
            out@ == pre + b@.take(i as int),
        decreases b@.len() - i,
    {
        out.push(b[i]);
        proof {
            assert(pre + b@.take(i as int) + seq![b@[i as int]] =~= pre + b@.take(i as int + 1));
        }
        i = i + 1;
    }
    proof {
        assert(b@.take(b@.len() as int) =~= b@);
    }
}

/// Appends `<len>:<raw bytes>` for `b` to `out`.
fn push_string_encoded(out: &mut Vec<u8>, b: &Vec<u8>)
    ensures
        final(out)@ == old(out)@ + string_encoded(b@),
{
    let ghost pre = out@;
    crate::numbers::push_decimal(out, b.len() as u64);
    out.push(58);
    push_bytes(out, b);
    proof {
        assert(out@ =~= pre + string_encoded(b@));
    }
}

/// Appends the canonical bencoding of `v` to `out`.
#[verifier::loop_isolation(false)]
fn encode_into(v: &BencodeValue, out: &mut Vec<u8>)
    ensures
        final(out)@ == old(out)@ + encoded(*v),
    decreases *v,
{
    let ghost pre = out@;
    match v {
        BencodeValue::Integer(n) => {
            out.push(105);
            if *n < 0 {
                out.push(45);
                let mag: u64 = if *n == i64::MIN {
                    9223372036854775808u64
                } else {
                    (-(*n)) as u64
                };
                assert(mag as nat == (-(*n as int)) as nat);
                crate::numbers::push_decimal(out, mag);
            } else {
                crate::numbers::push_decimal(out, *n as u64);
            }
            out.push(101);
            proof {
                assert(out@ =~= pre + int_encoded(*n as int));
            }
        },
        BencodeValue::ByteString(b) => {
            push_string_encoded(out, b);
        },
        BencodeValue::List(items) => {
            out.push(108);
            let ghost l_items = items@;
            let mut i: usize = 0;
            while i < items.len()
                invariant
                    i <= l_items.len(),
                    items@ == l_items,
                    out@ == pre + seq![108u8] + encoded_items(l_items.take(i as int)),
                decreases l_items.len() - i,
            {
                proof {
                    assert(l_items.take(i as int).push(l_items[i as int]) =~= l_items.take(i as int + 1));
                    lemma_encoded_items_push(l_items.take(i as int), l_items[i as int]);
                }
                encode_into(&items[i], out);
                proof {
                    assert(out@ =~= pre + seq![108u8] + encoded_items(l_items.take(i as int + 1)));
                }
                i = i + 1;
            }
            out.push(101);
            proof {
                assert(l_items.take(l_items.len() as int) =~= l_items);
                assert(out@ =~= pre + (seq![108u8] + encoded_items(l_items) + seq![101u8]));
            }
        },
        BencodeValue::Dictionary(pairs) => {
            out.push(100);
            let ghost l_pairs = pairs@;
            let mut i: usize = 0;
            while i < pairs.len()
                invariant
                    i <= l_pairs.len(),
                    pairs@ == l_pairs,
                    out@ == pre + seq![100u8] + encoded_pairs(l_pairs.take(i as int)),
                decreases l_pairs.len() - i,
            {
                proof {
                    assert(l_pairs.take(i as int).push(l_pairs[i as int]) =~= l_pairs.take(i as int + 1));
                    assert(l_pairs[i as int] == (l_pairs[i as int].0, l_pairs[i as int].1));
                    lemma_encoded_pairs_push(l_pairs.take(i as int), l_pairs[i as int].0, l_pairs[i as int].1);
                }
                push_string_encoded(out, &pairs[i].0);
                encode_into(&pairs[i].1, out);
                proof {
                    assert(out@ =~= pre + seq![100u8] + encoded_pairs(l_pairs.take(i as int + 1)));
                }
                i = i + 1;
            }
            out.push(101);
            proof {
                assert(l_pairs.take(l_pairs.len() as int) =~= l_pairs);
                assert(out@ =~= pre + (seq![100u8] + encoded_pairs(l_pairs) + seq![101u8]));
            }
        },
    }
}

/// Serializes `v` to its canonical bencoding. Total: every in-memory value
/// is encodable, and the result is exactly `encoded(*v)`.
pub fn encode(v: &BencodeValue) -> (r: Vec<u8>)
    ensures
        r@ == encoded(*v),
{
    let mut out: Vec<u8> = Vec::new();
    encode_into(v, &mut out);
    proof {
        assert(Seq::<u8>::empty() + encoded(*v) =~= encoded(*v));
    }
    out
}

/// Structural equivalence of two bencode values: equal integers, byte
/// strings with the same bytes, and element-wise equivalent lists and
/// dictionaries (keys compared by their bytes).
pub open spec fn value_eq(v1: BencodeValue, v2: BencodeValue) -> bool
    decreases v1,
{
    match (v1, v2) {
        (BencodeValue::Integer(a), BencodeValue::Integer(b)) => a == b,
        (BencodeValue::ByteString(a), BencodeValue::ByteString(b)) => a@ == b@,
        (BencodeValue::List(a), BencodeValue::List(b)) => {
            &&& a@.len() == b@.len()
            &&& forall|i: int| 0 <= i < a@.len() ==> value_eq(#[trigger] a@[i], b@[i])
        },
        (BencodeValue::Dictionary(a), BencodeValue::Dictionary(b)) => {
            &&& a@.len() == b@.len()
            &&& forall|i: int| 0 <= i < a@.len()
                ==> (#[trigger] a@[i]).0@ == b@[i].0@ && value_eq(a@[i].1, b@[i].1)
        },
        _ => false,
    }
}

/// The digits-and-sign part of an integer encoding, between `i` and `e`.
pub open spec fn int_body(n: int) -> Seq<u8> {
    if n < 0 {
        seq![45u8] + digits_of((-n) as nat)
    } else {
        digits_of(n as nat)
    }
}

pub(crate) proof fn lemma_int_encoded_shape(n: int)
    ensures
        int_encoded(n) == seq![105u8] + int_body(n) + seq![101u8],
        int_body(n).len() >= 1,
        forall|i: int| 0 <= i < int_body(n).len() ==> #[trigger] int_body(n)[i] != 101,
        n < 0 ==> int_body(n)[0] == 45,
        n >= 0 ==> 48 <= int_body(n)[0] <= 57,
{
    if n < 0 {
        crate::numbers::lemma_digits_of_canonical((-n) as nat);
        assert(int_encoded(n) =~= seq![105u8] + (seq![45u8] + digits_of((-n) as nat)) + seq![101u8]);
        let body = int_body(n);
        assert(body[0] == 45);
        assert forall|i: int| 0 <= i < body.len() implies #[trigger] body[i] != 101 by {
            if i >= 1 {
                assert(body[i] == digits_of((-n) as nat)[i - 1]);
            }
        }
    } else {
        crate::numbers::lemma_digits_of_canonical(n as nat);
        assert(int_encoded(n) =~= seq![105u8] + int_body(n) + seq![101u8]);
    }
}

proof fn lemma_int_body_injective(n1: int, n2: int)
    requires
        int_body(n1) == int_body(n2),
    ensures
        n1 == n2,
{
    lemma_int_encoded_shape(n1);
    lemma_int_encoded_shape(n2);
    if n1 < 0 && n2 < 0 {
        let d1 = digits_of((-n1) as nat);
        let d2 = digits_of((-n2) as nat);
        assert(d1 =~= d2) by {
            assert forall|i: int| 0 <= i < d1.len() implies d1[i] == d2[i] by {
                assert(d1[i] == int_body(n1)[i + 1]);
                assert(d2[i] == int_body(n2)[i + 1]);
            }
            assert(d1.len() == int_body(n1).len() - 1);
            assert(d2.len() == int_body(n2).len() - 1);
        }
        crate::numbers::lemma_digits_of_canonical((-n1) as nat);
        crate::numbers::lemma_digits_of_canonical((-n2) as nat);
        assert(dec_value(d1) == dec_value(d2));
    } else if n1 >= 0 && n2 >= 0 {
        crate::numbers::lemma_digits_of_canonical(n1 as nat);
        crate::numbers::lemma_digits_of_canonical(n2 as nat);
        assert(dec_value(digits_of(n1 as nat)) == dec_value(digits_of(n2 as nat)));
    } else {
        assert(false);
    }
}

/// A terminated run is unambiguous: when neither prefix contains the
/// terminator byte, equal framed streams have equal prefixes and equal rests.
proof fn lemma_terminated_unique(x1: Seq<u8>, x2: Seq<u8>, t: u8, r1: Seq<u8>, r2: Seq<u8>)
    requires
        x1 + seq![t] + r1 == x2 + seq![t] + r2,
        forall|i: int| 0 <= i < x1.len() ==> #[trigger] x1[i] != t,
        forall|i: int| 0 <= i < x2.len() ==> #[trigger] x2[i] != t,
    ensures
        x1 == x2,
        r1 == r2,
{
    let s1 = x1 + seq![t] + r1;
    let s2 = x2 + seq![t] + r2;
    if x1.len() < x2.len() {
        assert(s1[x1.len() as int] == t);
        assert(s2[x1.len() as int] == x2[x1.len() as int]);
        assert(false);
    } else if x2.len() < x1.len() {
        assert(s2[x2.len() as int] == t);
        assert(s1[x2.len() as int] == x1[x2.len() as int]);
        assert(false);
    } else {
        assert(x1 =~= x2) by {
            assert forall|i: int| 0 <= i < x1.len() implies x1[i] == x2[i] by {
                assert(s1[i] == x1[i]);
                assert(s2[i] == x2[i]);
            }
        }
        assert(s1 == s2);
        assert(s1.len() == x1.len() + 1 + r1.len());
        assert(s2.len() == x2.len() + 1 + r2.len());
        assert(r1.len() == r2.len());
        assert(r1 =~= r2) by {
            assert forall|i: int| 0 <= i < r1.len() implies r1[i] == r2[i] by {
                assert(s1[x1.len() + 1 + i] == r1[i]);
                assert(s2[x2.len() + 1 + i] == r2[i]);
            }
        }
    }
}

pub(crate) proof fn lemma_string_encoded_shape(b: Seq<u8>)
    ensures
        string_encoded(b).len() >= 2,
        48 <= string_encoded(b)[0] <= 57,
{
    crate::numbers::lemma_digits_of_canonical(b.len());
    assert(string_encoded(b)[0] == digits_of(b.len())[0]);
}

/// A length-prefixed byte string is unambiguous in a longer stream.
pub(crate) proof fn lemma_string_encoded_unambiguous(b1: Seq<u8>, b2: Seq<u8>, r1: Seq<u8>, r2: Seq<u8>)
    requires
        string_encoded(b1) + r1 == string_encoded(b2) + r2,
    ensures
        b1 == b2,
        r1 == r2,
{
    let d1 = digits_of(b1.len());
    let d2 = digits_of(b2.len());
    crate::numbers::lemma_digits_of_canonical(b1.len());
    crate::numbers::lemma_digits_of_canonical(b2.len());
    assert(d1 + seq![58u8] + (b1 + r1) =~= string_encoded(b1) + r1);
    assert(d2 + seq![58u8] + (b2 + r2) =~= string_encoded(b2) + r2);
    lemma_terminated_unique(d1, d2, 58, b1 + r1, b2 + r2);
    assert(dec_value(d1) == dec_value(d2));
    assert(b1.len() == b2.len());
    assert(b1 =~= b2) by {
        assert forall|i: int| 0 <= i < b1.len() implies b1[i] == b2[i] by {
            assert((b1 + r1)[i] == b1[i]);
            assert((b2 + r2)[i] == b2[i]);
        }
    }
    assert(r1 =~= r2) by {
        assert forall|i: int| 0 <= i < r1.len() implies r1[i] == r2[i] by {
            assert((b1 + r1)[b1.len() + i] == r1[i]);
            assert((b2 + r2)[b2.len() + i] == r2[i]);
        }
    }
}

pub(crate) proof fn lemma_first_byte(v: BencodeValue)
    ensures
        encoded(v).len() >= 2,
        (v matches BencodeValue::Integer(n) ==> encoded(v)[0] == 105),
        (v matches BencodeValue::ByteString(b) ==> 48 <= encoded(v)[0] <= 57),
        (v matches BencodeValue::List(l) ==> encoded(v)[0] == 108),
        (v matches BencodeValue::Dictionary(d) ==> encoded(v)[0] == 100),
{
    match v {
        BencodeValue::Integer(n) => {
            lemma_int_encoded_shape(n as int);
            assert(encoded(v)[0] == 105);
        },
        BencodeValue::ByteString(b) => {
            lemma_string_encoded_shape(b@);
        },
        BencodeValue::List(items) => {
            assert(encoded(v)[0] == 108);
        },
        BencodeValue::Dictionary(pairs) => {
            assert(encoded(v)[0] == 100);
        },
    }
}

/// The bencode grammar is a prefix code: one value followed by arbitrary
/// rest bytes determines both the value (up to structural equivalence) and
/// the rest.
pub proof fn lemma_encoded_unambiguous(v1: BencodeValue, v2: BencodeValue, r1: Seq<u8>, r2: Seq<u8>)
    requires
        encoded(v1) + r1 == encoded(v2) + r2,
    ensures
        value_eq(v1, v2),
        r1 == r2,
    decreases v1,
{
    lemma_first_byte(v1);
    lemma_first_byte(v2);
    assert((encoded(v1) + r1)[0] == encoded(v1)[0]);
    assert((encoded(v2) + r2)[0] == encoded(v2)[0]);
    match v1 {
        BencodeValue::Integer(n1) => {
            match v2 {
                BencodeValue::Integer(n2) => {
                    lemma_int_encoded_shape(n1 as int);
                    lemma_int_encoded_shape(n2 as int);
                    let b1 = int_body(n1 as int);
                    let b2 = int_body(n2 as int);
                    assert(b1 + seq![101u8] + r1 =~= b2 + seq![101u8] + r2) by {
                        let s1 = encoded(v1) + r1;
                        let s2 = encoded(v2) + r2;
                        assert(seq![105u8] + (b1 + seq![101u8] + r1) =~= s1);
                        assert(seq![105u8] + (b2 + seq![101u8] + r2) =~= s2);
                        assert forall|i: int| 0 <= i < (b1 + seq![101u8] + r1).len()
                            implies (b1 + seq![101u8] + r1)[i] == (b2 + seq![101u8] + r2)[i] by {
                            assert((seq![105u8] + (b1 + seq![101u8] + r1))[i + 1]
                                == (b1 + seq![101u8] + r1)[i]);
                            assert((seq![105u8] + (b2 + seq![101u8] + r2))[i + 1]
                                == (b2 + seq![101u8] + r2)[i]);
                        }
                        assert(s1.len() == s2.len());
                    }
                    lemma_terminated_unique(b1, b2, 101, r1, r2);
                    lemma_int_body_injective(n1 as int, n2 as int);
                },
                _ => {
                    assert(false);
                },
            }
        },
        BencodeValue::ByteString(bs1) => {
            match v2 {
                BencodeValue::ByteString(bs2) => {
                    assert(string_encoded(bs1@) + r1 == string_encoded(bs2@) + r2);
                    lemma_string_encoded_unambiguous(bs1@, bs2@, r1, r2);
                },
                _ => {
                    assert(false);
                },
            }
        },
        BencodeValue::List(items1) => {
            match v2 {
                BencodeValue::List(items2) => {
                    assert(encoded_items(items1@) + seq![101u8] + r1
                        =~= encoded_items(items2@) + seq![101u8] + r2) by {
                        let t1 = encoded_items(items1@) + seq![101u8] + r1;
                        let t2 = encoded_items(items2@) + seq![101u8] + r2;
                        let s1 = encoded(v1) + r1;
                        let s2 = encoded(v2) + r2;
                        assert(seq![108u8] + t1 =~= s1);
                        assert(seq![108u8] + t2 =~= s2);
                        assert forall|i: int| 0 <= i < t1.len() implies t1[i] == t2[i] by {
                            assert((seq![108u8] + t1)[i + 1] == t1[i]);
                            assert((seq![108u8] + t2)[i + 1] == t2[i]);
                        }
                        assert(t1.len() == t2.len());
                    }
                    lemma_items_unambiguous(items1@, items2@, r1, r2);
                },
                _ => {
                    assert(false);
                },
            }
        },
        BencodeValue::Dictionary(pairs1) => {
            match v2 {
                BencodeValue::Dictionary(pairs2) => {
                    assert(encoded_pairs(pairs1@) + seq![101u8] + r1
                        =~= encoded_pairs(pairs2@) + seq![101u8] + r2) by {
                        let t1 = encoded_pairs(pairs1@) + seq![101u8] + r1;
                        let t2 = encoded_pairs(pairs2@) + seq![101u8] + r2;
                        let s1 = encoded(v1) + r1;
                        let s2 = encoded(v2) + r2;
                        assert(seq![100u8] + t1 =~= s1);
                        assert(seq![100u8] + t2 =~= s2);
                        assert forall|i: int| 0 <= i < t1.len() implies t1[i] == t2[i] by {
                            assert((seq![100u8] + t1)[i + 1] == t1[i]);
                            assert((seq![100u8] + t2)[i + 1] == t2[i]);
                        }
                        assert(t1.len() == t2.len());
                    }
                    lemma_pairs_unambiguous(pairs1@, pairs2@, r1, r2);
                },
                _ => {
                    assert(false);
                },
            }
        },
    }
}

proof fn lemma_items_unambiguous(
    l1: Seq<BencodeValue>,
    l2: Seq<BencodeValue>,
    r1: Seq<u8>,
    r2: Seq<u8>,
)
    requires
        encoded_items(l1) + seq![101u8] + r1 == encoded_items(l2) + seq![101u8] + r2,
    ensures
        l1.len() == l2.len(),
        forall|i: int| 0 <= i < l1.len() ==> value_eq(#[trigger] l1[i], l2[i]),
        r1 == r2,
    decreases l1,
{
    let s1 = encoded_items(l1) + seq![101u8] + r1;
    let s2 = encoded_items(l2) + seq![101u8] + r2;
    if l1.len() == 0 && l2.len() == 0 {
        assert(encoded_items(l1) == Seq::<u8>::empty());
        assert(encoded_items(l2) == Seq::<u8>::empty());
        assert(r1 =~= r2) by {
            assert(s1.len() == s2.len());
            assert forall|i: int| 0 <= i < r1.len() implies r1[i] == r2[i] by {
                assert(s1[1 + i] == r1[i]);
                assert(s2[1 + i] == r2[i]);
            }
        }
    } else if l1.len() == 0 {
        lemma_first_byte(l2[0]);
        assert(s1[0] == 101);
        assert(s2[0] == encoded(l2[0])[0]) by {
            assert(encoded_items(l2) == encoded(l2[0]) + encoded_items(l2.drop_first()));
            assert(encoded_items(l2)[0] == encoded(l2[0])[0]);
        }
        assert(false);
    } else if l2.len() == 0 {
        lemma_first_byte(l1[0]);
        assert(s2[0] == 101);
        assert(s1[0] == encoded(l1[0])[0]) by {
            assert(encoded_items(l1) == encoded(l1[0]) + encoded_items(l1.drop_first()));
            assert(encoded_items(l1)[0] == encoded(l1[0])[0]);
        }
        assert(false);
    } else {
        let u1 = encoded_items(l1.drop_first()) + seq![101u8] + r1;
        let u2 = encoded_items(l2.drop_first()) + seq![101u8] + r2;
        assert(encoded(l1[0]) + u1 =~= s1);
        assert(encoded(l2[0]) + u2 =~= s2);
        lemma_encoded_unambiguous(l1[0], l2[0], u1, u2);
        lemma_items_unambiguous(l1.drop_first(), l2.drop_first(), r1, r2);
        assert forall|i: int| 0 <= i < l1.len() implies value_eq(#[trigger] l1[i], l2[i]) by {
            if i >= 1 {
                assert(l1.drop_first()[i - 1] == l1[i]);
                assert(l2.drop_first()[i - 1] == l2[i]);
                assert(value_eq(l1.drop_first()[i - 1], l2.drop_first()[i - 1]));
            }
        }
    }
}

proof fn lemma_pairs_unambiguous(
    p1: Seq<(Vec<u8>, BencodeValue)>,
    p2: Seq<(Vec<u8>, BencodeValue)>,
    r1: Seq<u8>,
    r2: Seq<u8>,
)
    requires
        encoded_pairs(p1) + seq![101u8] + r1 == encoded_pairs(p2) + seq![101u8] + r2,
    ensures
        p1.len() == p2.len(),
        forall|i: int| 0 <= i < p1.len()
            ==> (#[trigger] p1[i]).0@ == p2[i].0@ && value_eq(p1[i].1, p2[i].1),
        r1 == r2,
    decreases p1,
{
    let s1 = encoded_pairs(p1) + seq![101u8] + r1;
    let s2 = encoded_pairs(p2) + seq![101u8] + r2;
    if p1.len() == 0 && p2.len() == 0 {
        assert(encoded_pairs(p1) == Seq::<u8>::empty());
        assert(encoded_pairs(p2) == Seq::<u8>::empty());
        assert(r1 =~= r2) by {
            assert(s1.len() == s2.len());
            assert forall|i: int| 0 <= i < r1.len() implies r1[i] == r2[i] by {
                assert(s1[1 + i] == r1[i]);
                assert(s2[1 + i] == r2[i]);
            }
        }
    } else if p1.len() == 0 {
        lemma_string_encoded_shape(p2[0].0@);
        assert(s1[0] == 101);
        assert(s2[0] == string_encoded(p2[0].0@)[0]) by {
            assert(encoded_pairs(p2)
                == string_encoded(p2[0].0@) + encoded(p2[0].1) + encoded_pairs(p2.drop_first()));
            assert(encoded_pairs(p2)[0] == string_encoded(p2[0].0@)[0]);
        }
        assert(false);
    } else if p2.len() == 0 {
        lemma_string_encoded_shape(p1[0].0@);
        assert(s2[0] == 101);
        assert(s1[0] == string_encoded(p1[0].0@)[0]) by {
            assert(encoded_pairs(p1)
                == string_encoded(p1[0].0@) + encoded(p1[0].1) + encoded_pairs(p1.drop_first()));
            assert(encoded_pairs(p1)[0] == string_encoded(p1[0].0@)[0]);
        }
        assert(false);
    } else {
        let w1 = encoded(p1[0].1) + encoded_pairs(p1.drop_first()) + seq![101u8] + r1;
        let w2 = encoded(p2[0].1) + encoded_pairs(p2.drop_first()) + seq![101u8] + r2;
        assert(string_encoded(p1[0].0@) + w1 =~= s1);
        assert(string_encoded(p2[0].0@) + w2 =~= s2);
        lemma_string_encoded_unambiguous(p1[0].0@, p2[0].0@, w1, w2);
        let u1 = encoded_pairs(p1.drop_first()) + seq![101u8] + r1;
        let u2 = encoded_pairs(p2.drop_first()) + seq![101u8] + r2;
        assert(encoded(p1[0].1) + u1 =~= w1);
        assert(encoded(p2[0].1) + u2 =~= w2);
        lemma_encoded_unambiguous(p1[0].1, p2[0].1, u1, u2);
        lemma_pairs_unambiguous(p1.drop_first(), p2.drop_first(), r1, r2);
        assert forall|i: int| 0 <= i < p1.len()
            implies (#[trigger] p1[i]).0@ == p2[i].0@ && value_eq(p1[i].1, p2[i].1) by {
            if i >= 1 {
                assert(p1.drop_first()[i - 1] == p1[i]);
                assert(p2.drop_first()[i - 1] == p2[i]);
                assert(p1.drop_first()[i - 1].0@ == p2.drop_first()[i - 1].0@
                    && value_eq(p1.drop_first()[i - 1].1, p2.drop_first()[i - 1].1));
            }
        }
    }
}

/// Round-trip: the canonical encoding is injective. Together with the
/// decoder's contract (a decoded value re-encodes to the consumed bytes),
/// decoding the encoder's output can only return the encoded value:
/// `decode(encode(v))`, when it succeeds, is structurally equivalent to `v`.
pub proof fn lemma_encoded_injective(v1: BencodeValue, v2: BencodeValue)
    requires
        encoded(v1) == encoded(v2),
    ensures
        value_eq(v1, v2),
{
    assert(encoded(v1) + Seq::<u8>::empty() =~= encoded(v2) + Seq::<u8>::empty());
    lemma_encoded_unambiguous(v1, v2, Seq::empty(), Seq::empty());
}


} // verus!
