//! Text projections of raw bytes: UTF-8 decoding (trusted, via std),
//! lowercase hex, and the two percent-encodings the tracker query needs.

use vstd::prelude::*;

verus! {

broadcast use vstd::std_specs::vec::group_vec_axioms;

/// Every byte is ASCII.
pub open spec fn is_ascii_bytes(s: Seq<u8>) -> bool {
    forall|i: int| 0 <= i < s.len() ==> #[trigger] s[i] < 128
}

/// The one-character-per-byte text of an ASCII byte sequence.
pub open spec fn ascii_chars(s: Seq<u8>) -> Seq<char> {
    s.map_values(|b: u8| b as char)
}

/// The characters of `bytes` decoded as UTF-8, or `None` when the bytes are
/// not valid UTF-8. The encoding itself is not modelled; `string_from_utf8`
/// below is trusted to compute this function.
pub uninterp spec fn utf8_chars(bytes: Seq<u8>) -> Option<Seq<char>>;

/// Relies on `String::from_utf8` (std): it succeeds exactly on valid UTF-8,
/// the characters depend on the bytes alone, and ASCII bytes decode to one
/// identical character each.
#[verifier::external_body]
pub(crate) fn string_from_utf8(bytes: Vec<u8>) -> (r: Option<String>)
    ensures
        (r is Some <==> utf8_chars(bytes@) is Some),
        (r matches Some(s) ==> utf8_chars(bytes@) == Some(s@)),
        (r matches Some(s) ==> (is_ascii_bytes(bytes@) ==> s@ == ascii_chars(bytes@))),
        (is_ascii_bytes(bytes@) ==> r is Some),
{
    String::from_utf8(bytes).ok()
}

/// Builds the text of a byte sequence already known to be ASCII.
pub(crate) fn ascii_string(bytes: Vec<u8>) -> (r: String)
    requires
        is_ascii_bytes(bytes@),
    ensures
        r@ == ascii_chars(bytes@),
{
    match string_from_utf8(bytes) {
        Some(s) => s,
        None => {
            proof {
                assert(false);
            }
            String::new()
        },
    }
}

/// The lowercase hex digit for `n` in 0..16.
pub open spec fn hex_digit(n: int) -> u8 {
    if n < 10 {
        (48 + n) as u8
    } else {
        (87 + n) as u8
    }
}

/// Two lowercase hex digits per byte, concatenated.
pub open spec fn hex_bytes(s: Seq<u8>) -> Seq<u8>
    decreases s.len(),
{
    if s.len() == 0 {
        Seq::empty()
    } else {
        seq![hex_digit(s[0] as int / 16), hex_digit(s[0] as int % 16)] + hex_bytes(s.drop_first())
    }
}

/// The uppercase hex digit for `n` in 0..16.
pub open spec fn hex_digit_upper(n: int) -> u8 {
    if n < 10 {
        (48 + n) as u8
    } else {
        (55 + n) as u8
    }
}

/// `%XX` (uppercase hex) for one byte.
pub open spec fn percent_byte(b: u8) -> Seq<u8> {
    seq![37u8, hex_digit_upper(b as int / 16), hex_digit_upper(b as int % 16)]
}

/// Every byte percent-encoded unconditionally: the encoding of a raw,
/// not-necessarily-text value such as an info hash.
pub open spec fn percent_all(s: Seq<u8>) -> Seq<u8>
    decreases s.len(),
{
    if s.len() == 0 {
        Seq::empty()
    } else {
        percent_byte(s[0]) + percent_all(s.drop_first())
    }
}

/// A byte that conventional percent-encoding passes through unchanged.
pub open spec fn is_unreserved(b: u8) -> bool {
    ||| 48 <= b <= 57
    ||| 65 <= b <= 90
    ||| 97 <= b <= 122
    ||| b == 45
    ||| b == 46
    ||| b == 95
    ||| b == 126
}

/// Conventional percent-encoding: unreserved bytes kept, the rest `%XX`.
pub open spec fn form_encoded(s: Seq<u8>) -> Seq<u8>
    decreases s.len(),
{
    if s.len() == 0 {
        Seq::empty()
    } else {
        (if is_unreserved(s[0]) {
            seq![s[0]]
        } else {
            percent_byte(s[0])
        }) + form_encoded(s.drop_first())
    }
}

pub proof fn lemma_hex_bytes_push(s: Seq<u8>, b: u8)
    ensures
        hex_bytes(s.push(b)) == hex_bytes(s) + seq![hex_digit(b as int / 16), hex_digit(b as int % 16)],
    decreases s.len(),
{
    let unit = seq![hex_digit(b as int / 16), hex_digit(b as int % 16)];
    if s.len() == 0 {
        assert(s.push(b)[0] == b);
        assert(s.push(b).drop_first() =~= Seq::<u8>::empty());
        assert(hex_bytes(Seq::<u8>::empty()) == Seq::<u8>::empty());
        assert(hex_bytes(s.push(b)) =~= unit + Seq::<u8>::empty());
        assert(hex_bytes(s) + unit =~= unit + Seq::<u8>::empty());
    } else {
        assert(s.push(b).drop_first() =~= s.drop_first().push(b));
        lemma_hex_bytes_push(s.drop_first(), b);
        assert(s.push(b)[0] == s[0]);
        let head = seq![hex_digit(s[0] as int / 16), hex_digit(s[0] as int % 16)];
        assert(hex_bytes(s.push(b)) =~= head + (hex_bytes(s.drop_first()) + unit));
        assert(head + (hex_bytes(s.drop_first()) + unit)
            =~= (head + hex_bytes(s.drop_first())) + unit);
    }
}

pub proof fn lemma_percent_all_push(s: Seq<u8>, b: u8)
    ensures
        percent_all(s.push(b)) == percent_all(s) + percent_byte(b),
    decreases s.len(),
{
    if s.len() == 0 {
        assert(s.push(b)[0] == b);
        assert(s.push(b).drop_first() =~= Seq::<u8>::empty());
        assert(percent_all(Seq::<u8>::empty()) == Seq::<u8>::empty());
        assert(percent_all(s.push(b)) =~= percent_byte(b) + Seq::<u8>::empty());
        assert(percent_all(s) + percent_byte(b) =~= percent_byte(b) + Seq::<u8>::empty());
    } else {
        assert(s.push(b).drop_first() =~= s.drop_first().push(b));
        lemma_percent_all_push(s.drop_first(), b);
        assert(s.push(b)[0] == s[0]);
        assert(percent_all(s.push(b))
            =~= percent_byte(s[0]) + (percent_all(s.drop_first()) + percent_byte(b)));
        assert(percent_byte(s[0]) + (percent_all(s.drop_first()) + percent_byte(b))
            =~= (percent_byte(s[0]) + percent_all(s.drop_first())) + percent_byte(b));
    }
}

pub proof fn lemma_form_encoded_push(s: Seq<u8>, b: u8)
    ensures
        form_encoded(s.push(b)) == form_encoded(s)
            + (if is_unreserved(b) { seq![b] } else { percent_byte(b) }),
    decreases s.len(),
{
    let unit = if is_unreserved(b) { seq![b] } else { percent_byte(b) };
    if s.len() == 0 {
        assert(s.push(b)[0] == b);
        assert(s.push(b).drop_first() =~= Seq::<u8>::empty());
        assert(form_encoded(Seq::<u8>::empty()) == Seq::<u8>::empty());
        assert(form_encoded(s.push(b)) =~= unit + Seq::<u8>::empty());
        assert(form_encoded(s) + unit =~= unit + Seq::<u8>::empty());
    } else {
        assert(s.push(b).drop_first() =~= s.drop_first().push(b));
        lemma_form_encoded_push(s.drop_first(), b);
        assert(s.push(b)[0] == s[0]);
        let head = if is_unreserved(s[0]) { seq![s[0]] } else { percent_byte(s[0]) };
        assert(form_encoded(s.push(b)) =~= head + (form_encoded(s.drop_first()) + unit));
        assert(head + (form_encoded(s.drop_first()) + unit)
            =~= (head + form_encoded(s.drop_first())) + unit);
    }
}

pub proof fn lemma_hex_bytes_ascii(s: Seq<u8>)
    ensures
        is_ascii_bytes(hex_bytes(s)),
    decreases s.len(),
{
    if s.len() > 0 {
        lemma_hex_bytes_ascii(s.drop_first());
    }
}

pub proof fn lemma_percent_all_ascii(s: Seq<u8>)
    ensures
        is_ascii_bytes(percent_all(s)),
    decreases s.len(),
{
    if s.len() > 0 {
        lemma_percent_all_ascii(s.drop_first());
    }
}

pub proof fn lemma_form_encoded_ascii(s: Seq<u8>)
    ensures
        is_ascii_bytes(form_encoded(s)),
    decreases s.len(),
{
    if s.len() > 0 {
        lemma_form_encoded_ascii(s.drop_first());
    }
}

/// Appends the two lowercase hex digits of `b` to `out`.
pub(crate) fn push_hex_byte(out: &mut Vec<u8>, b: u8)
    ensures
        final(out)@ == old(out)@ + seq![hex_digit(b as int / 16), hex_digit(b as int % 16)],
{
    let hi = b / 16;
    let lo = b % 16;
    out.push(if hi < 10 { 48 + hi } else { 87 + hi });
    out.push(if lo < 10 { 48 + lo } else { 87 + lo });
    proof {
        assert(old(out)@ + seq![hex_digit(b as int / 16)] + seq![hex_digit(b as int % 16)]
            =~= old(out)@ + seq![hex_digit(b as int / 16), hex_digit(b as int % 16)]);
    }
}

/// Appends the two uppercase hex digits of `b` to `out`.
pub(crate) fn push_hex_byte_upper(out: &mut Vec<u8>, b: u8)
    ensures
        final(out)@ == old(out)@ + seq![hex_digit_upper(b as int / 16), hex_digit_upper(b as int % 16)],
{
    let hi = b / 16;
    let lo = b % 16;
    out.push(if hi < 10 { 48 + hi } else { 55 + hi });
    out.push(if lo < 10 { 48 + lo } else { 55 + lo });
    proof {
        assert(old(out)@ + seq![hex_digit_upper(b as int / 16)]
            + seq![hex_digit_upper(b as int % 16)]
            =~= old(out)@ + seq![hex_digit_upper(b as int / 16), hex_digit_upper(b as int % 16)]);
    }
}

/// The lowercase hex text of a byte string (two digits per byte), as the
/// `info` and `peers` commands print hashes.
#[verifier::loop_isolation(false)]
pub fn to_hex(bytes: &Vec<u8>) -> (r: String)
    ensures
        r@ == ascii_chars(hex_bytes(bytes@)),
{
    let mut out: Vec<u8> = Vec::new();
    let mut i: usize = 0;
    while i < bytes.len()
        invariant
            i <= bytes@.len(),
            out@ == hex_bytes(bytes@.take(i as int)),
        decreases bytes@.len() - i,
    {
        proof {
            lemma_hex_bytes_push(bytes@.take(i as int), bytes@[i as int]);
            assert(bytes@.take(i as int).push(bytes@[i as int]) =~= bytes@.take(i as int + 1));
        }
        push_hex_byte(&mut out, bytes[i]);
        i = i + 1;
    }
    proof {
        assert(bytes@.take(bytes@.len() as int) =~= bytes@);
        lemma_hex_bytes_ascii(bytes@);
    }
    ascii_string(out)
}

} // verus!
