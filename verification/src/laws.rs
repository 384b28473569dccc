//! What holds of the encoding as a whole.
use vstd::prelude::*;
use crate::lemma_pad_words;
use crate::spec_pad_words;
use crate::serialize::Serialize;
use crate::serialize::encoded;
use crate::serialize::serialize;
use crate::deserialize::Deserialize;
use crate::deserialize::RoundTrip;
use crate::deserialize::elem_offset;
use crate::deserialize::elem_words;

verus! {

/// Every encoding is a whole number of padding blocks long, holds the fixed
/// region and the payload at its front, and ends in the zero word that gives
/// the index of its root.
pub proof fn law_block_padding<T: Serialize>(v: &T)
    ensures
        encoded(v).len() % 8 == 0,
        encoded(v).len() > T::spec_fixed_words() + v.var_words(),
        encoded(v).len() - 8 <= T::spec_fixed_words() + v.var_words(),
        encoded(v)[encoded(v).len() - 1] == 0u32,
        forall|k: int|
            T::spec_fixed_words() + v.var_words() <= k < encoded(v).len() ==> encoded(v)[k] == 0u32,
{
    lemma_pad_words(T::spec_fixed_words() + v.var_words());
}

/// Values that are the same, part for part, have the same encoding, word for
/// word: the encoding is canonical.
pub proof fn law_canonical<'a, T: RoundTrip<'a>>(a: &T, b: &T)
    requires
        a.deep_view() == b.deep_view(),
    ensures
        encoded(a) == encoded(b),
{
    a.lemma_canonical(b, <T as Serialize>::spec_fixed_words() as int);
}

/// Decoding the encoding of a value gives the value back.
pub proof fn law_round_trip<'a, T: RoundTrip<'a>>(v: &T)
    requires
        v.fits(),
        spec_pad_words(<T as Serialize>::spec_fixed_words() + v.var_words()) <= u32::MAX,
    ensures
        <T as Deserialize>::readable(encoded(v)),
        <T as Deserialize>::decodable(encoded(v)),
        <T as Deserialize>::decoded(encoded(v)) == v.deep_view(),
{
    let fixed = <T as Serialize>::spec_fixed_words() as int;
    let var = v.var_words() as int;
    let words = encoded(v);
    lemma_pad_words((fixed + var) as nat);
    v.lemma_sizes(fixed);
    assert(words.subrange(0, fixed) =~= v.header(fixed));
    assert(words.subrange(fixed, fixed + var) =~= v.payload());
    v.lemma_round_trip(words, fixed);
    T::lemma_decodable_readable(words);
}

/// Two values whose encodings are the same words are the same value: a hash
/// of the buffer stands for the value. Nothing is said the other way round.
pub proof fn law_equal_encodings<'a, T: RoundTrip<'a>>(a: &T, b: &T)
    requires
        a.fits(),
        b.fits(),
        spec_pad_words(<T as Serialize>::spec_fixed_words() + a.var_words()) <= u32::MAX,
        spec_pad_words(<T as Serialize>::spec_fixed_words() + b.var_words()) <= u32::MAX,
        encoded(a) == encoded(b),
    ensures
        a.deep_view() == b.deep_view(),
{
    law_round_trip(a);
    law_round_trip(b);
}

/// An element of a sequence is decoded from the words that begin at its own
/// fixed region, whatever stands in front of them: two buffers that agree
/// from there on hold the same element.
pub proof fn law_random_access<'a, T: Deserialize<'a>>(a: Seq<u32>, b: Seq<u32>, i: int)
    requires
        0 <= elem_offset::<T>(i) <= a.len(),
        a.len() == b.len(),
        forall|k: int| elem_offset::<T>(i) <= k < a.len() ==> a[k] == b[k],
    ensures
        T::readable(elem_words::<T>(a, i)) == T::readable(elem_words::<T>(b, i)),
        T::decodable(elem_words::<T>(a, i)) == T::decodable(elem_words::<T>(b, i)),
        T::decoded(elem_words::<T>(a, i)) == T::decoded(elem_words::<T>(b, i)),
{
    assert(elem_words::<T>(a, i) =~= elem_words::<T>(b, i));
}

/// Encodes `val`, decodes the buffer and copies the view out: what comes
/// back is the value that went in.
pub fn test_round_trip_no_containers<T: for<'a> RoundTrip<'a>>(val: &T) -> (actual: T)
    requires
        val.fits(),
        spec_pad_words(<T as Serialize>::spec_fixed_words() + val.var_words()) <= u32::MAX,
    ensures
        actual.deep_view() == val.deep_view(),
{
    let u32s: Vec<u32> = serialize(val).unwrap();
    proof {
        law_round_trip(val);
    }
    let deser = T::deserialize_from(u32s.as_slice());
    T::into_orig(deser)
}

} // verus!
