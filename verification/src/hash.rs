//! The 64-bit XXH3 digest and the byte encoding of what is fed to it.

use twox_hash::XxHash3_64;
use vstd::bytes::lemma_auto_spec_u64_to_from_le_bytes;
use vstd::bytes::spec_u64_from_le_bytes;
use vstd::bytes::spec_u64_to_le_bytes;
use vstd::bytes::u64_to_le_bytes;
use vstd::prelude::*;
use vstd::utf8::encode_utf8;
use vstd::utf8::encode_utf8_decode_utf8;

verus! {

/// The 64-bit XXH3 digest of a byte string, with the default seed and secret.
pub uninterp spec fn xxh3_64(bytes: Seq<u8>) -> u64;

/// `XxHash3_64::oneshot`: the digest of the given bytes.
#[verifier::external_body]
fn xxh3_64_oneshot(bytes: &[u8]) -> (digest: u64)
    ensures
        digest == xxh3_64(bytes@),
{
    XxHash3_64::oneshot(bytes)
}

/// The encoding of a number: eight bytes, least significant first.
pub open spec fn number_bytes(value: u64) -> Seq<u8> {
    spec_u64_to_le_bytes(value)
}

/// The encoding of a string: the length of its UTF-8 form as a number, then
/// the UTF-8 form itself.
pub open spec fn string_bytes(text: Seq<char>) -> Seq<u8> {
    number_bytes(encode_utf8(text).len() as u64) + encode_utf8(text)
}

/// The encodings of a list of strings, one after the other.
pub open spec fn strings_bytes(texts: Seq<Seq<char>>) -> Seq<u8>
    decreases texts.len(),
{
    if texts.len() == 0 {
        Seq::empty()
    } else {
        strings_bytes(texts.drop_last()) + string_bytes(texts.last())
    }
}

/// A buffer of bytes that is filled value by value and then digested.
pub struct HashBuffer {
    buffer: Vec<u8>,
}

impl View for HashBuffer {
    type V = Seq<u8>;

    /// The bytes written so far.
    closed spec fn view(&self) -> Seq<u8> {
        self.buffer@
    }
}

impl HashBuffer {
    /// A buffer to which nothing was written.
    pub fn new() -> (result: Self)
        ensures
            result@ == Seq::<u8>::empty(),
    {
        HashBuffer { buffer: Vec::new() }
    }

    /// Appends raw bytes.
    pub fn write_bytes(&mut self, bytes: &[u8])
        ensures
            final(self)@ == old(self)@ + bytes@,
    {
        let mut i: usize = 0;
        while i < bytes.len()
            invariant
                i <= bytes.len(),
                self@ == old(self)@ + bytes@.take(i as int),
            decreases bytes.len() - i,
        {
            self.buffer.push(bytes[i]);
            i += 1;
            assert(self@ =~= old(self)@ + bytes@.take(i as int));
        }
        assert(bytes@.take(i as int) =~= bytes@);
    }

    /// Appends the encoding of a number.
    pub fn write_u64(&mut self, value: u64)
        ensures
            final(self)@ == old(self)@ + number_bytes(value),
    {
        let mut encoded = u64_to_le_bytes(value);
        self.buffer.append(&mut encoded);
    }

    /// Appends the encoding of a string.
    pub fn write_str(&mut self, text: &str)
        ensures
            final(self)@ == old(self)@ + string_bytes(text@),
    {
        let encoded = text.as_bytes();
        self.write_u64(encoded.len() as u64);
        self.write_bytes(encoded);
        assert(self@ =~= old(self)@ + string_bytes(text@));
    }

    /// The digest of everything written so far.
    pub fn finish(&self) -> (digest: u64)
        ensures
            digest == xxh3_64(self@),
    {
        xxh3_64_oneshot(self.buffer.as_slice())
    }
}

/// Whether the UTF-8 form of each string is short enough for its length to be
/// written as a number; every string in memory is.
pub open spec fn lengths_fit(texts: Seq<Seq<char>>) -> bool {
    forall|k: int| 0 <= k < texts.len() ==> encode_utf8(#[trigger] texts[k]).len() <= u64::MAX
}

/// The encoding of a number has eight bytes and determines the number.
pub proof fn lemma_number_bytes_injective(first: u64, second: u64)
    ensures
        number_bytes(first).len() == 8,
        number_bytes(first) == number_bytes(second) ==> first == second,
{
    lemma_auto_spec_u64_to_from_le_bytes();
    if number_bytes(first) == number_bytes(second) {
        assert(spec_u64_from_le_bytes(number_bytes(first)) == first);
        assert(spec_u64_from_le_bytes(number_bytes(second)) == second);
    }
}

/// The encoding of a list of strings starts with the encoding of the first.
pub proof fn lemma_strings_bytes_front(texts: Seq<Seq<char>>)
    requires
        texts.len() > 0,
    ensures
        strings_bytes(texts) == string_bytes(texts[0]) + strings_bytes(texts.drop_first()),
    decreases texts.len(),
{
    if texts.len() == 1 {
        assert(texts.drop_last() =~= Seq::<Seq<char>>::empty());
        assert(texts.drop_first() =~= Seq::<Seq<char>>::empty());
        assert(strings_bytes(texts) =~= string_bytes(texts[0]) + strings_bytes(
            texts.drop_first(),
        ));
    } else {
        lemma_strings_bytes_front(texts.drop_last());
        assert(texts.drop_last().drop_first() =~= texts.drop_first().drop_last());
        assert(texts.drop_last()[0] == texts[0]);
        assert(texts.drop_first().last() == texts.last());
        assert(strings_bytes(texts) =~= string_bytes(texts[0]) + strings_bytes(
            texts.drop_first(),
        ));
    }
}

/// Two byte strings that start with the encodings of two strings, and are
/// equal, start with the same string and go on alike.
pub proof fn lemma_string_bytes_prefix(
    first: Seq<char>,
    first_rest: Seq<u8>,
    second: Seq<char>,
    second_rest: Seq<u8>,
)
    requires
        encode_utf8(first).len() <= u64::MAX,
        encode_utf8(second).len() <= u64::MAX,
        string_bytes(first) + first_rest == string_bytes(second) + second_rest,
    ensures
        first == second,
        first_rest == second_rest,
{
    let first_utf8 = encode_utf8(first);
    let second_utf8 = encode_utf8(second);
    let first_len = first_utf8.len() as u64;
    let second_len = second_utf8.len() as u64;
    let all = string_bytes(first) + first_rest;
    lemma_number_bytes_injective(first_len, second_len);
    lemma_number_bytes_injective(second_len, first_len);
    assert(all.subrange(0, 8) =~= number_bytes(first_len));
    assert((string_bytes(second) + second_rest).subrange(0, 8) =~= number_bytes(second_len));
    assert(first_len == second_len);
    let end = 8 + first_utf8.len();
    assert(all.subrange(8, end as int) =~= first_utf8);
    assert((string_bytes(second) + second_rest).subrange(8, end as int) =~= second_utf8);
    encode_utf8_decode_utf8(first);
    encode_utf8_decode_utf8(second);
    assert(all.subrange(end as int, all.len() as int) =~= first_rest);
    assert((string_bytes(second) + second_rest).subrange(end as int, all.len() as int)
        =~= second_rest);
}

/// The encoding of a list of strings determines the list.
pub proof fn lemma_strings_bytes_injective(first: Seq<Seq<char>>, second: Seq<Seq<char>>)
    requires
        lengths_fit(first),
        lengths_fit(second),
        strings_bytes(first) == strings_bytes(second),
    ensures
        first == second,
    decreases first.len(),
{
    if first.len() == 0 || second.len() == 0 {
        if first.len() > 0 {
            lemma_strings_bytes_front(first);
            lemma_number_bytes_injective(encode_utf8(first[0]).len() as u64, 0);
            assert(strings_bytes(first).len() >= 8);
        }
        if second.len() > 0 {
            lemma_strings_bytes_front(second);
            lemma_number_bytes_injective(encode_utf8(second[0]).len() as u64, 0);
            assert(strings_bytes(second).len() >= 8);
        }
        assert(first =~= second);
    } else {
        lemma_strings_bytes_front(first);
        lemma_strings_bytes_front(second);
        assert(first[0] == first[0] && second[0] == second[0]);
        lemma_string_bytes_prefix(
            first[0],
            strings_bytes(first.drop_first()),
            second[0],
            strings_bytes(second.drop_first()),
        );
        assert forall|k: int| 0 <= k < first.drop_first().len() implies encode_utf8(
            #[trigger] first.drop_first()[k],
        ).len() <= u64::MAX by {
            assert(first.drop_first()[k] == first[k + 1]);
        }
        assert forall|k: int| 0 <= k < second.drop_first().len() implies encode_utf8(
            #[trigger] second.drop_first()[k],
        ).len() <= u64::MAX by {
            assert(second.drop_first()[k] == second[k + 1]);
        }
        lemma_strings_bytes_injective(first.drop_first(), second.drop_first());
        assert(first =~= seq![first[0]] + first.drop_first());
        assert(second =~= seq![second[0]] + second.drop_first());
    }
}

/// What is digested for a parent hash and a list of identities determines
/// both: a different parent hash, a different identity or a different order
/// of the identities gives other bytes to digest.
pub proof fn lemma_digested_bytes_injective(
    first_parent: u64,
    first: Seq<Seq<char>>,
    second_parent: u64,
    second: Seq<Seq<char>>,
)
    requires
        lengths_fit(first),
        lengths_fit(second),
        number_bytes(first_parent) + strings_bytes(first) == number_bytes(second_parent)
            + strings_bytes(second),
    ensures
        first_parent == second_parent,
        first == second,
{
    let all = number_bytes(first_parent) + strings_bytes(first);
    let other = number_bytes(second_parent) + strings_bytes(second);
    lemma_number_bytes_injective(first_parent, second_parent);
    lemma_number_bytes_injective(second_parent, first_parent);
    assert(all.subrange(0, 8) =~= number_bytes(first_parent));
    assert(other.subrange(0, 8) =~= number_bytes(second_parent));
    assert(all.subrange(8, all.len() as int) =~= strings_bytes(first));
    assert(other.subrange(8, other.len() as int) =~= strings_bytes(second));
    lemma_strings_bytes_injective(first, second);
}

} // verus!
