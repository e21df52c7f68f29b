//! Byte-level query-string encoding.
//!
//! Query parameter names and values are embedded into the token with the
//! `application/x-www-form-urlencoded` byte encoding: ASCII alphanumerics
//! and `*`, `-`, `.`, `_` pass through, a space becomes `+`, and every
//! other byte becomes `%` followed by two uppercase hex digits.

use vstd::prelude::*;

verus! {

/// Bytes the encoding keeps unchanged.
pub open spec fn is_unreserved(b: u8) -> bool {
    (48 <= b <= 57) || (65 <= b <= 90) || (97 <= b <= 122) || b == 42 || b == 45
        || b == 46 || b == 95
}

/// The uppercase hex digit for a value below 16.
pub open spec fn hex_upper(n: u8) -> u8
    recommends
        n < 16,
{
    if n < 10 {
        (48 + n) as u8
    } else {
        (65 + (n - 10)) as u8
    }
}

/// How a single byte is written in the encoded output.
pub open spec fn encoded_byte(b: u8) -> Seq<u8> {
    if b == 32 {
        seq![43u8]
    } else if is_unreserved(b) {
        seq![b]
    } else {
        seq![37u8, hex_upper(b / 16), hex_upper(b % 16)]
    }
}

/// The encoded form of a byte string.
pub open spec fn form_encoded(s: Seq<u8>) -> Seq<u8>
    decreases s.len(),
{
    if s.len() == 0 {
        Seq::<u8>::empty()
    } else {
        encoded_byte(s.first()) + form_encoded(s.drop_first())
    }
}

/// Bytes that can appear in encoded output.
pub open spec fn is_encoded_output(b: u8) -> bool {
    is_unreserved(b) || b == 37 || b == 43
}

/// Unfolds the encoding one byte from the right.
pub proof fn lemma_form_encoded_snoc(s: Seq<u8>)
    requires
        s.len() > 0,
    ensures
        form_encoded(s) == form_encoded(s.drop_last()) + encoded_byte(s.last()),
    decreases s.len(),
{
    if s.len() == 1 {
        assert(s.drop_first() =~= Seq::<u8>::empty());
        assert(s.drop_last() =~= Seq::<u8>::empty());
        assert(form_encoded(Seq::<u8>::empty()) =~= Seq::<u8>::empty());
        assert(s.first() == s.last());
        assert(form_encoded(s) =~= form_encoded(s.drop_last()) + encoded_byte(s.last()));
    } else {
        lemma_form_encoded_snoc(s.drop_first());
        assert(s.drop_first().drop_last() =~= s.drop_last().drop_first());
        assert(s.drop_first().last() == s.last());
        assert(s.drop_last().len() > 0);
        assert(form_encoded(s) =~= form_encoded(s.drop_last()) + encoded_byte(s.last()));
    }
}

/// Every byte of encoded output is an unreserved byte, `%` or `+`; in
/// particular the output is ASCII and contains none of the separators
/// `&`, `=`, `?`, `#`, `/`, `:`.
pub proof fn lemma_form_encoded_alphabet(s: Seq<u8>)
    ensures
        forall|i: int|
            0 <= i < form_encoded(s).len() ==> is_encoded_output(#[trigger] form_encoded(s)[i]),
    decreases s.len(),
{
    if s.len() > 0 {
        lemma_encoded_byte_alphabet(s.first());
        lemma_form_encoded_alphabet(s.drop_first());
        let head = encoded_byte(s.first());
        let tail = form_encoded(s.drop_first());
        assert(forall|i: int|
            0 <= i < form_encoded(s).len() ==> form_encoded(s)[i] == if i < head.len() {
                head[i]
            } else {
                tail[i - head.len()]
            });
    }
}

/// Every byte of a single encoded byte lies in the output alphabet.
pub proof fn lemma_encoded_byte_alphabet(b: u8)
    ensures
        forall|i: int|
            0 <= i < encoded_byte(b).len() ==> is_encoded_output(#[trigger] encoded_byte(b)[i]),
{
    if b != 32 && !is_unreserved(b) {
        assert(encoded_byte(b)[0] == 37);
        assert(is_unreserved(hex_upper(b / 16)));
        assert(is_unreserved(hex_upper(b % 16)));
    }
}

/// A string of unreserved bytes encodes to itself.
pub proof fn lemma_form_encoded_identity(s: Seq<u8>)
    requires
        forall|i: int| 0 <= i < s.len() ==> is_unreserved(#[trigger] s[i]),
    ensures
        form_encoded(s) == s,
    decreases s.len(),
{
    if s.len() == 0 {
        assert(form_encoded(s) =~= s);
    } else {
        assert(is_unreserved(s.first()));
        lemma_form_encoded_identity(s.drop_first());
        assert(form_encoded(s) =~= s);
    }
}

/// If an encoding consists of unreserved bytes only, it came from itself:
/// the source equals the output.
pub proof fn lemma_form_encoded_unreserved_source(s: Seq<u8>)
    requires
        forall|i: int|
            0 <= i < form_encoded(s).len() ==> is_unreserved(#[trigger] form_encoded(s)[i]),
    ensures
        s == form_encoded(s),
    decreases s.len(),
{
    if s.len() == 0 {
        assert(s =~= form_encoded(s));
    } else {
        let b = s.first();
        assert(form_encoded(s)[0] == encoded_byte(b)[0]);
        if b == 32 {
            assert(!is_unreserved(form_encoded(s)[0]));
        } else if !is_unreserved(b) {
            assert(!is_unreserved(form_encoded(s)[0]));
        } else {
            assert(forall|i: int|
                0 <= i < form_encoded(s.drop_first()).len() ==> is_unreserved(
                    #[trigger] form_encoded(s.drop_first())[i],
                )) by {
                assert(forall|i: int|
                    0 <= i < form_encoded(s.drop_first()).len() ==> form_encoded(s.drop_first())[i]
                        == form_encoded(s)[i + 1]);
            }
            lemma_form_encoded_unreserved_source(s.drop_first());
            assert(s =~= form_encoded(s));
        }
    }
}

/// The exec counterpart of [`hex_upper`].
fn hex_digit_upper(n: u8) -> (r: u8)
    requires
        n < 16,
    ensures
        r == hex_upper(n),
{
    if n < 10 {
        48 + n
    } else {
        65 + (n - 10)
    }
}

/// The exec counterpart of [`is_unreserved`].
fn byte_unreserved(b: u8) -> (r: bool)
    ensures
        r == is_unreserved(b),
{
    (48 <= b && b <= 57) || (65 <= b && b <= 90) || (97 <= b && b <= 122) || b == 42
        || b == 45 || b == 46 || b == 95
}

/// Appends the encoded form of `s` to `out`.
pub fn append_encoded(out: &mut Vec<u8>, s: &Vec<u8>)
    ensures
        final(out)@ == old(out)@ + form_encoded(s@),
{
    let mut i: usize = 0;
    while i < s.len()
        invariant
            i <= s.len(),
            out@ == old(out)@ + form_encoded(s@.take(i as int)),
        decreases s.len() - i,
    {
        let b = s[i];
        proof {
            assert(s@.take(i + 1).drop_last() =~= s@.take(i as int));
            assert(s@.take(i + 1).last() == s@[i as int]);
            lemma_form_encoded_snoc(s@.take(i + 1));
        }
        if b == 32 {
            out.push(43);
        } else if byte_unreserved(b) {
            out.push(b);
        } else {
            out.push(37);
            out.push(hex_digit_upper(b / 16));
            out.push(hex_digit_upper(b % 16));
        }
        assert(out@ =~= old(out)@ + form_encoded(s@.take(i + 1)));
        i = i + 1;
    }
    assert(s@.take(s@.len() as int) =~= s@);
}

} // verus!
