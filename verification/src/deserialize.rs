//! The read path: views over a word buffer, which locate what they are asked
//! for by index arithmetic alone, and the step that copies a view out into an
//! owned value.
use vstd::prelude::*;
use vstd::slice::slice_subrange;
use core::marker::PhantomData;
use vstd::utf8::valid_utf8;
use vstd::utf8::decode_utf8;
use vstd::utf8::encode_utf8;
use vstd::utf8::encode_utf8_valid_utf8;
use vstd::utf8::encode_utf8_decode_utf8;
use crate::util::bytes_of_words;
use crate::util::words_padded;
use crate::util::lemma_bytes_of_words_padded;
use crate::util::lemma_bytes_of_words_prefix;
use crate::serialize::Serialize;
use crate::serialize::all_fit;
use crate::serialize::vars_upto;
use crate::serialize::headers_upto;
use crate::serialize::payloads_upto;
use crate::serialize::lemma_elems_sizes;
use crate::serialize::lemma_elem_regions;
use crate::serialize::lemma_vars_monotone;

verus! {

/// A value that can be read back out of a word buffer.
///
/// `deserialize_from` makes a view over the words that start at the value's
/// fixed region; it reads no more than `readable` asks for. `into_orig`
/// copies a view out into an owned value, and needs the whole of it to be
/// well formed, which is `decodable` of the words it was made from.
pub trait Deserialize<'a>: Sized + DeepView {
    /// The view: a handle that borrows the buffer.
    type RefType;

    /// Length of the fixed region, in words.
    spec fn spec_view_words() -> nat;

    /// Making the view reads within `words`.
    spec fn readable(words: Seq<u32>) -> bool;

    /// Everything that the value is made of lies within `words` and is well
    /// formed.
    spec fn decodable(words: Seq<u32>) -> bool;

    /// The value that `words` hold, from their first word on.
    spec fn decoded(words: Seq<u32>) -> <Self as DeepView>::V;

    /// The view can be copied out.
    spec fn ref_ok(r: &Self::RefType) -> bool;

    /// The value that the view stands for.
    spec fn ref_model(r: &Self::RefType) -> <Self as DeepView>::V;

    /// What can be decoded can be viewed.
    proof fn lemma_decodable_readable(words: Seq<u32>)
        ensures
            Self::decodable(words) ==> Self::readable(words),
    ;

    /// Length of the fixed region, in words.
    fn fixed_words() -> (n: usize)
        requires
            Self::spec_view_words() <= usize::MAX,
        ensures
            n == Self::spec_view_words(),
    ;

    /// The view over the value whose fixed region starts at `words[0]`.
    fn deserialize_from(words: &'a [u32]) -> (r: Self::RefType)
        requires
            Self::readable(words@),
        ensures
            Self::ref_ok(&r) == Self::decodable(words@),
            Self::ref_model(&r) == Self::decoded(words@),
    ;

    /// Copies the view out into an owned value.
    fn into_orig(val: Self::RefType) -> (v: Self)
        requires
            Self::ref_ok(&val),
        ensures
            v.deep_view() == Self::ref_model(&val),
    ;
}

/// The view of one field of a record: of the value whose fixed region starts
/// `offset` words into `words`. It reads that field and no other.
pub fn field_at<'a, T: Deserialize<'a>>(words: &'a [u32], offset: usize) -> (r: T::RefType)
    requires
        offset <= words@.len(),
        T::readable(words@.skip(offset as int)),
    ensures
        T::ref_ok(&r) == T::decodable(words@.skip(offset as int)),
        T::ref_model(&r) == T::decoded(words@.skip(offset as int)),
{
    let rest = slice_subrange(words, offset, words.len());
    T::deserialize_from(rest)
}

/// A value whose encoding decodes to itself.
pub trait RoundTrip<'a>: Serialize + Deserialize<'a> {
    /// Both paths agree on the length of the fixed region.
    proof fn lemma_same_size()
        ensures
            <Self as Deserialize>::spec_view_words() == <Self as Serialize>::spec_fixed_words(),
    ;

    /// Values that are the same, part for part, are encoded by the same
    /// words.
    proof fn lemma_canonical(&self, other: &Self, dist: int)
        requires
            self.deep_view() == other.deep_view(),
        ensures
            self.fits() == other.fits(),
            self.var_words() == other.var_words(),
            self.header(dist) == other.header(dist),
            self.payload() == other.payload(),
    ;

    /// Wherever the header of a value stands at the front of `words` and its
    /// payload `dist` words further on, `words` decode to the value.
    proof fn lemma_round_trip(&self, words: Seq<u32>, dist: int)
        requires
            self.fits(),
            <Self as Serialize>::spec_fixed_words() <= dist,
            dist + self.var_words() <= words.len() <= u32::MAX,
            words.subrange(0, <Self as Serialize>::spec_fixed_words() as int) == self.header(dist),
            words.subrange(dist, dist + self.var_words()) == self.payload(),
        ensures
            <Self as Deserialize>::decodable(words),
            <Self as Deserialize>::decoded(words) == self.deep_view(),
    ;
}

impl<'a> Deserialize<'a> for u32 {
    type RefType = u32;

    open spec fn spec_view_words() -> nat {
        1
    }

    open spec fn readable(words: Seq<u32>) -> bool {
        words.len() >= 1
    }

    open spec fn decodable(words: Seq<u32>) -> bool {
        words.len() >= 1
    }

    open spec fn decoded(words: Seq<u32>) -> u32 {
        words[0]
    }

    open spec fn ref_ok(r: &u32) -> bool {
        true
    }

    open spec fn ref_model(r: &u32) -> u32 {
        *r
    }

    proof fn lemma_decodable_readable(words: Seq<u32>) {
    }

    fn fixed_words() -> (n: usize) {
        1
    }

    fn deserialize_from(words: &'a [u32]) -> (r: u32) {
        words[0]
    }

    fn into_orig(val: u32) -> (v: u32) {
        val
    }
}

impl<'a> RoundTrip<'a> for u32 {
    proof fn lemma_same_size() {
    }

    proof fn lemma_canonical(&self, other: &Self, dist: int) {
    }

    proof fn lemma_round_trip(&self, words: Seq<u32>, dist: int) {
        assert(words.subrange(0, 1)[0] == words[0]);
    }
}

impl<'a> Deserialize<'a> for () {
    type RefType = ();

    open spec fn spec_view_words() -> nat {
        0
    }

    open spec fn readable(words: Seq<u32>) -> bool {
        true
    }

    open spec fn decodable(words: Seq<u32>) -> bool {
        true
    }

    open spec fn decoded(words: Seq<u32>) -> () {
        ()
    }

    open spec fn ref_ok(r: &()) -> bool {
        true
    }

    open spec fn ref_model(r: &()) -> () {
        ()
    }

    proof fn lemma_decodable_readable(words: Seq<u32>) {
    }

    fn fixed_words() -> (n: usize) {
        0
    }

    fn deserialize_from(words: &'a [u32]) -> (r: ()) {
        ()
    }

    fn into_orig(val: ()) -> (v: ()) {
        ()
    }
}

impl<'a> RoundTrip<'a> for () {
    proof fn lemma_same_size() {
    }

    proof fn lemma_canonical(&self, other: &Self, dist: int) {
    }

    proof fn lemma_round_trip(&self, words: Seq<u32>, dist: int) {
    }
}

impl<'a, T: Deserialize<'a>> Deserialize<'a> for Option<T> {
    type RefType = Option<T::RefType>;

    open spec fn spec_view_words() -> nat {
        1
    }

    open spec fn readable(words: Seq<u32>) -> bool {
        words.len() >= 1 && (words[0] != 0 ==> words[0] <= words.len() && T::readable(
            words.skip(words[0] as int),
        ))
    }

    open spec fn decodable(words: Seq<u32>) -> bool {
        words.len() >= 1 && (words[0] != 0 ==> words[0] <= words.len() && T::decodable(
            words.skip(words[0] as int),
        ))
    }

    open spec fn decoded(words: Seq<u32>) -> Option<<T as DeepView>::V> {
        if words[0] == 0 {
            None
        } else {
            Some(T::decoded(words.skip(words[0] as int)))
        }
    }

    open spec fn ref_ok(r: &Option<T::RefType>) -> bool {
        match r {
            None => true,
            Some(x) => T::ref_ok(x),
        }
    }

    open spec fn ref_model(r: &Option<T::RefType>) -> Option<<T as DeepView>::V> {
        match r {
            None => None,
            Some(x) => Some(T::ref_model(x)),
        }
    }

    proof fn lemma_decodable_readable(words: Seq<u32>) {
        if words.len() >= 1 && words[0] != 0 {
            T::lemma_decodable_readable(words.skip(words[0] as int));
        }
    }

    fn fixed_words() -> (n: usize) {
        1
    }

    fn deserialize_from(words: &'a [u32]) -> (r: Option<T::RefType>) {
        let ptr: u32 = words[0];
        if ptr == 0 {
            None
        } else {
            let rest = slice_subrange(words, ptr as usize, words.len());
            Some(T::deserialize_from(rest))
        }
    }

    fn into_orig(val: Option<T::RefType>) -> (v: Option<T>) {
        match val {
            None => None,
            Some(x) => Some(T::into_orig(x)),
        }
    }
}

impl<'a, T: RoundTrip<'a>> RoundTrip<'a> for Option<T> {
    proof fn lemma_same_size() {
    }

    proof fn lemma_canonical(&self, other: &Self, dist: int) {
        match (self, other) {
            (Some(a), Some(b)) => {
                a.lemma_canonical(b, <T as Serialize>::spec_fixed_words() as int);
            },
            _ => {},
        }
    }

    proof fn lemma_round_trip(&self, words: Seq<u32>, dist: int) {
        assert(words.subrange(0, 1)[0] == words[0]);
        match self {
            None => {},
            Some(val) => {
                let fixed = <T as Serialize>::spec_fixed_words() as int;
                let var = val.var_words() as int;
                val.lemma_sizes(fixed);
                let child = words.skip(dist);
                let pay = words.subrange(dist, dist + fixed + var);
                assert(child.subrange(0, fixed) =~= pay.subrange(0, fixed));
                assert(child.subrange(fixed, fixed + var) =~= pay.subrange(fixed, fixed + var));
                assert(pay.subrange(0, fixed) =~= val.header(fixed));
                assert(pay.subrange(fixed, fixed + var) =~= val.payload());
                val.lemma_round_trip(child, fixed);
            },
        }
    }
}

impl<'a, T: Deserialize<'a>> Deserialize<'a> for Box<T> {
    type RefType = T::RefType;

    open spec fn spec_view_words() -> nat {
        T::spec_view_words()
    }

    open spec fn readable(words: Seq<u32>) -> bool {
        T::readable(words)
    }

    open spec fn decodable(words: Seq<u32>) -> bool {
        T::decodable(words)
    }

    open spec fn decoded(words: Seq<u32>) -> <T as DeepView>::V {
        T::decoded(words)
    }

    open spec fn ref_ok(r: &T::RefType) -> bool {
        T::ref_ok(r)
    }

    open spec fn ref_model(r: &T::RefType) -> <T as DeepView>::V {
        T::ref_model(r)
    }

    proof fn lemma_decodable_readable(words: Seq<u32>) {
        T::lemma_decodable_readable(words);
    }

    fn fixed_words() -> (n: usize) {
        T::fixed_words()
    }

    fn deserialize_from(words: &'a [u32]) -> (r: T::RefType) {
        T::deserialize_from(words)
    }

    fn into_orig(val: T::RefType) -> (v: Box<T>) {
        Box::new(T::into_orig(val))
    }
}

impl<'a, T: RoundTrip<'a>> RoundTrip<'a> for Box<T> {
    proof fn lemma_same_size() {
        T::lemma_same_size();
    }

    proof fn lemma_canonical(&self, other: &Self, dist: int) {
        (**self).lemma_canonical(&**other, dist);
    }

    proof fn lemma_round_trip(&self, words: Seq<u32>, dist: int) {
        (**self).lemma_round_trip(words, dist);
    }
}

/// The view of a text: the words that hold its bytes, and how many bytes
/// there are. Nothing is copied, and nothing is checked, until the bytes are
/// asked for.
pub struct StrRef<'a> {
    words: &'a [u32],
    len: usize,
}

impl<'a> StrRef<'a> {
    /// The words from the first byte of the text on.
    pub closed spec fn source(&self) -> Seq<u32> {
        self.words@
    }

    /// The length of the text in bytes, as its header gives it.
    pub closed spec fn byte_len(&self) -> nat {
        self.len as nat
    }

    /// The words hold as many bytes as the header announces.
    pub open spec fn in_range(&self) -> bool {
        self.byte_len() <= 4 * self.source().len()
    }

    /// The bytes of the text.
    pub open spec fn bytes(&self) -> Seq<u8> {
        bytes_of_words(self.source(), self.byte_len())
    }

    /// The length of the text in bytes.
    pub fn len(&self) -> (n: usize)
        ensures
            n == self.byte_len(),
    {
        self.len
    }

    /// Byte `i` of the text.
    pub fn byte(&self, i: usize) -> (b: u8)
        requires
            i < self.byte_len(),
            self.in_range(),
        ensures
            b == self.bytes()[i as int],
    {
        let word: u32 = self.words[i / 4];
        let k: usize = i % 4;
        if k == 0 {
            (word % 0x100) as u8
        } else if k == 1 {
            (word / 0x100 % 0x100) as u8
        } else if k == 2 {
            (word / 0x1_0000 % 0x100) as u8
        } else {
            (word / 0x100_0000 % 0x100) as u8
        }
    }

    /// The text as it lies in `bytes`: the front of `bytes`, where that holds
    /// the bytes of the text and they are well-formed UTF-8. Nothing is
    /// copied.
    pub fn text_in<'b>(&self, bytes: &'b [u8]) -> (res: Option<&'b str>)
        requires
            self.in_range(),
        ensures
            res is Some <==> self.byte_len() <= bytes@.len() && bytes@.take(
                self.byte_len() as int,
            ) == self.bytes() && valid_utf8(self.bytes()),
            res is Some ==> res.unwrap()@ == decode_utf8(self.bytes()),
    {
        if bytes.len() < self.len {
            return None;
        }
        let mut i: usize = 0;
        while i < self.len
            invariant
                i <= self.len,
                self.len <= bytes@.len(),
                self.in_range(),
                forall|k: int| 0 <= k < i ==> bytes@[k] == self.bytes()[k],
            decreases self.len - i,
        {
            if bytes[i] != self.byte(i) {
                return None;
            }
            i += 1;
        }
        let front = slice_subrange(bytes, 0, self.len);
        assert(front@ =~= self.bytes());
        str_from_utf8(front)
    }

    /// The text, borrowed from the buffer itself: nothing is copied. It is
    /// there where the machine keeps the lowest byte of a word first, as the
    /// encoding does, and the bytes are well-formed UTF-8. The empty text is
    /// there on every machine; bytes that are no text are nowhere.
    pub fn as_str(&self) -> (res: Option<&'a str>)
        requires
            self.in_range(),
        ensures
            res is Some ==> valid_utf8(self.bytes()) && res.unwrap()@ == decode_utf8(
                self.bytes(),
            ),
            self.byte_len() == 0 ==> res is Some && res.unwrap()@ == Seq::<char>::empty(),
            !valid_utf8(self.bytes()) ==> res is None,
    {
        let bytes = words_as_bytes(self.words);
        proof {
            if self.byte_len() == 0 {
                assert(self.bytes() =~= Seq::<u8>::empty());
                assert(bytes@.take(0) =~= self.bytes());
                assert(valid_utf8(self.bytes()));
                assert(decode_utf8(self.bytes()) =~= Seq::<char>::empty());
            }
        }
        self.text_in(bytes)
    }

    /// The bytes of the text, copied out.
    pub fn to_bytes(&self) -> (out: Vec<u8>)
        requires
            self.in_range(),
        ensures
            out@ == self.bytes(),
    {
        let mut out: Vec<u8> = Vec::new();
        let mut i: usize = 0;
        while i < self.len
            invariant
                i <= self.len,
                self.in_range(),
                out@.len() == i,
                forall|k: int| 0 <= k < i ==> out@[k] == self.bytes()[k],
            decreases self.len - i,
        {
            out.push(self.byte(i));
            i += 1;
        }
        out
    }
}

/// `bytemuck::cast_slice`, from words to bytes: the same memory, seen as
/// bytes, four to each word. In which order the bytes of a word lie there is
/// the machine's affair, so only the length is stated.
#[verifier::external_body]
fn words_as_bytes<'a>(words: &'a [u32]) -> (bytes: &'a [u8])
    ensures
        bytes@.len() == 4 * words@.len(),
{
    bytemuck::cast_slice(words)
}

/// `core::str::from_utf8` of the standard library: it gives the text that the
/// bytes spell, in place, where they are well-formed UTF-8, and fails on all
/// others.
#[verifier::external_body]
fn str_from_utf8<'a>(bytes: &'a [u8]) -> (res: Option<&'a str>)
    ensures
        res is Some <==> valid_utf8(bytes@),
        res is Some ==> res.unwrap()@ == decode_utf8(bytes@),
{
    core::str::from_utf8(bytes).ok()
}

/// `String::from_utf8` of the standard library: it gives the text that the
/// bytes spell where they are well-formed UTF-8, and fails on all others.
#[verifier::external_body]
fn string_from_utf8(bytes: Vec<u8>) -> (res: Option<String>)
    ensures
        res is Some <==> valid_utf8(bytes@),
        res is Some ==> res.unwrap()@ == decode_utf8(bytes@),
{
    String::from_utf8(bytes).ok()
}

impl<'a> Deserialize<'a> for String {
    type RefType = StrRef<'a>;

    open spec fn spec_view_words() -> nat {
        2
    }

    open spec fn readable(words: Seq<u32>) -> bool {
        words.len() >= 2 && words[1] <= words.len()
    }

    open spec fn decodable(words: Seq<u32>) -> bool {
        &&& words.len() >= 2
        &&& words[1] <= words.len()
        &&& words[0] <= 4 * (words.len() - words[1])
        &&& valid_utf8(bytes_of_words(words.skip(words[1] as int), words[0] as nat))
    }

    open spec fn decoded(words: Seq<u32>) -> Seq<char> {
        decode_utf8(bytes_of_words(words.skip(words[1] as int), words[0] as nat))
    }

    open spec fn ref_ok(r: &StrRef<'a>) -> bool {
        r.in_range() && valid_utf8(r.bytes())
    }

    open spec fn ref_model(r: &StrRef<'a>) -> Seq<char> {
        decode_utf8(r.bytes())
    }

    proof fn lemma_decodable_readable(words: Seq<u32>) {
    }

    fn fixed_words() -> (n: usize) {
        2
    }

    fn deserialize_from(words: &'a [u32]) -> (r: StrRef<'a>)
        ensures
            r.byte_len() == words@[0],
            r.source() == words@.skip(words@[1] as int),
    {
        let len: u32 = words[0];
        let ptr: u32 = words[1];
        let rest = slice_subrange(words, ptr as usize, words.len());
        StrRef { words: rest, len: len as usize }
    }

    fn into_orig(val: StrRef<'a>) -> (v: String) {
        match string_from_utf8(val.to_bytes()) {
            Some(s) => s,
            None => String::new(),
        }
    }
}

impl<'a> RoundTrip<'a> for String {
    proof fn lemma_same_size() {
    }

    proof fn lemma_canonical(&self, other: &Self, dist: int) {
    }

    proof fn lemma_round_trip(&self, words: Seq<u32>, dist: int) {
        let bytes = encode_utf8(self@);
        let packed = words_padded(bytes);
        let rest = words.skip(dist);
        assert(rest.subrange(0, packed.len() as int) =~= words.subrange(
            dist,
            dist + packed.len(),
        ));
        lemma_bytes_of_words_prefix(rest, packed, bytes.len());
        lemma_bytes_of_words_padded(bytes);
        encode_utf8_valid_utf8(self@);
        encode_utf8_decode_utf8(self@);
    }
}

/// Where element `i` of a run begins, counted in words from the run's start.
pub open spec fn elem_offset<'a, T: Deserialize<'a>>(i: int) -> int {
    i * T::spec_view_words()
}

/// The words from element `i` on, in a run of elements that starts at
/// `words[0]`.
pub open spec fn elem_words<'a, T: Deserialize<'a>>(words: Seq<u32>, i: int) -> Seq<u32> {
    words.skip(elem_offset::<T>(i))
}

/// Element `i` of the run begins within `words` and can be decoded.
pub open spec fn elem_decodable<'a, T: Deserialize<'a>>(words: Seq<u32>, i: int) -> bool {
    elem_offset::<T>(i) <= words.len() && T::decodable(elem_words::<T>(words, i))
}

/// Each of the first `n` elements of the run can be decoded.
pub open spec fn elems_decodable<'a, T: Deserialize<'a>>(words: Seq<u32>, n: nat) -> bool {
    forall|i: int| 0 <= i < n ==> #[trigger] elem_decodable::<T>(words, i)
}

/// The values of the first `n` elements of the run.
pub open spec fn elems_decoded<'a, T: Deserialize<'a>>(words: Seq<u32>, n: nat) -> Seq<
    <T as DeepView>::V,
> {
    Seq::new(n, |i: int| T::decoded(elem_words::<T>(words, i)))
}

/// The view of a sequence: how many elements there are, and the words from
/// the first element on. Each element is found from its index alone.
pub struct VecRef<'a, T> {
    len: usize,
    words: &'a [u32],
    phantom: PhantomData<T>,
}

/// A walk over the elements of a sequence view, first to last.
pub struct VecRefIter<'a, T> {
    words: &'a [u32],
    items_left: usize,
    phantom: PhantomData<T>,
}

impl<'a, T: Deserialize<'a>> VecRef<'a, T> {
    /// The words from the first element on.
    pub closed spec fn source(&self) -> Seq<u32> {
        self.words@
    }

    /// The number of elements.
    pub closed spec fn count(&self) -> nat {
        self.len as nat
    }

    /// The number of elements.
    pub fn len(&self) -> (n: usize)
        ensures
            n == self.count(),
    {
        self.len
    }

    /// The view of element `index`, found by its index alone: no other
    /// element is read. The index is not held against the length.
    pub fn index(&self, index: usize) -> (r: T::RefType)
        requires
            elem_offset::<T>(index as int) <= self.source().len(),
            T::readable(elem_words::<T>(self.source(), index as int)),
        ensures
            T::ref_ok(&r) == T::decodable(elem_words::<T>(self.source(), index as int)),
            T::ref_model(&r) == T::decoded(elem_words::<T>(self.source(), index as int)),
    {
        let total: usize = self.words.len();
        let offset: usize = if index == 0 {
            assert(index * T::spec_view_words() == 0) by (nonlinear_arith)
                requires
                    index == 0,
            ;
            0
        } else {
            assert(T::spec_view_words() <= index * T::spec_view_words()) by (nonlinear_arith)
                requires
                    index >= 1,
            ;
            let fixed: usize = T::fixed_words();
            assert(fixed * index == index * T::spec_view_words()) by (nonlinear_arith)
                requires
                    fixed == T::spec_view_words(),
            ;
            fixed * index
        };
        let rest = slice_subrange(self.words, offset, total);
        T::deserialize_from(rest)
    }

    /// A walk over the elements from the first on. The view stays as it is,
    /// so the walk can be started again.
    pub fn iter(&self) -> (it: VecRefIter<'a, T>)
        ensures
            it.source() == self.source(),
            it.left() == self.count(),
    {
        VecRefIter { words: self.words, items_left: self.len, phantom: PhantomData }
    }

    /// A walk over the elements from the first on.
    pub fn into_iter(self) -> (it: VecRefIter<'a, T>)
        ensures
            it.source() == self.source(),
            it.left() == self.count(),
    {
        self.iter()
    }
}

impl<'a, T: Deserialize<'a>> VecRefIter<'a, T> {
    /// The words from the next element on.
    pub closed spec fn source(&self) -> Seq<u32> {
        self.words@
    }

    /// The number of elements still to come.
    pub closed spec fn left(&self) -> nat {
        self.items_left as nat
    }

    /// The view of the next element, or `None` after the last.
    pub fn next(&mut self) -> (item: Option<T::RefType>)
        requires
            old(self).left() > 0 ==> T::spec_view_words() <= old(self).source().len()
                && T::readable(old(self).source()),
        ensures
            item is Some <==> old(self).left() > 0,
            item is None ==> *final(self) == *old(self),
            item is Some ==> final(self).left() == old(self).left() - 1 && final(self).source()
                == old(self).source().skip(T::spec_view_words() as int),
            item is Some ==> T::ref_ok(&item.unwrap()) == T::decodable(old(self).source())
                && T::ref_model(&item.unwrap()) == T::decoded(old(self).source()),
    {
        if self.items_left > 0 {
            let total: usize = self.words.len();
            let val = T::deserialize_from(self.words);
            self.items_left -= 1;
            let rest = slice_subrange(self.words, T::fixed_words(), total);
            self.words = rest;
            Some(val)
        } else {
            None
        }
    }
}

/// Copies the elements of a sequence view out, in order.
fn collect_elems<'a, T: Deserialize<'a>>(val: &VecRef<'a, T>) -> (v: Vec<T>)
    requires
        elems_decodable::<T>(val.source(), val.count()),
    ensures
        v@.len() == val.count(),
        v.deep_view() == elems_decoded::<T>(val.source(), val.count()),
{
    let n: usize = val.len();
    let mut v: Vec<T> = Vec::with_capacity(n);
    let mut i: usize = 0;
    while i < n
        invariant
            i <= n,
            n == val.count(),
            v@.len() == i,
            elems_decodable::<T>(val.source(), val.count()),
            forall|k: int|
                0 <= k < i ==> (#[trigger] v@[k]).deep_view() == T::decoded(
                    elem_words::<T>(val.source(), k),
                ),
        decreases n - i,
    {
        proof {
            assert(elem_decodable::<T>(val.source(), i as int));
            T::lemma_decodable_readable(elem_words::<T>(val.source(), i as int));
        }
        let item = T::into_orig(val.index(i));
        v.push(item);
        i += 1;
    }
    v
}

/// `TryFrom<Vec<T>>` of the standard library for arrays: a vector of exactly
/// `N` items becomes the array of those items, in order.
#[verifier::external_body]
fn vec_into_array<T, const N: usize>(v: Vec<T>) -> (res: [T; N])
    requires
        v@.len() == N,
    ensures
        res@ == v@,
{
    v.try_into().ok().unwrap()
}

impl<'a, T: Deserialize<'a>> Deserialize<'a> for Vec<T> {
    type RefType = VecRef<'a, T>;

    open spec fn spec_view_words() -> nat {
        2
    }

    open spec fn readable(words: Seq<u32>) -> bool {
        words.len() >= 2 && words[1] <= words.len()
    }

    open spec fn decodable(words: Seq<u32>) -> bool {
        &&& words.len() >= 2
        &&& words[1] <= words.len()
        &&& elems_decodable::<T>(words.skip(words[1] as int), words[0] as nat)
    }

    open spec fn decoded(words: Seq<u32>) -> Seq<<T as DeepView>::V> {
        elems_decoded::<T>(words.skip(words[1] as int), words[0] as nat)
    }

    open spec fn ref_ok(r: &VecRef<'a, T>) -> bool {
        elems_decodable::<T>(r.source(), r.count())
    }

    open spec fn ref_model(r: &VecRef<'a, T>) -> Seq<<T as DeepView>::V> {
        elems_decoded::<T>(r.source(), r.count())
    }

    proof fn lemma_decodable_readable(words: Seq<u32>) {
    }

    fn fixed_words() -> (n: usize) {
        2
    }

    fn deserialize_from(words: &'a [u32]) -> (r: VecRef<'a, T>)
        ensures
            r.count() == words@[0],
            r.source() == words@.skip(words@[1] as int),
    {
        let len: u32 = words[0];
        let ptr: u32 = words[1];
        let rest = slice_subrange(words, ptr as usize, words.len());
        VecRef { len: len as usize, words: rest, phantom: PhantomData }
    }

    fn into_orig(val: VecRef<'a, T>) -> (v: Vec<T>) {
        collect_elems(&val)
    }
}

impl<'a, T: Deserialize<'a>, const N: usize> Deserialize<'a> for [T; N] {
    type RefType = VecRef<'a, T>;

    open spec fn spec_view_words() -> nat {
        (N * T::spec_view_words()) as nat
    }

    open spec fn readable(words: Seq<u32>) -> bool {
        true
    }

    open spec fn decodable(words: Seq<u32>) -> bool {
        elems_decodable::<T>(words, N as nat)
    }

    open spec fn decoded(words: Seq<u32>) -> Seq<<T as DeepView>::V> {
        elems_decoded::<T>(words, N as nat)
    }

    open spec fn ref_ok(r: &VecRef<'a, T>) -> bool {
        r.count() == N && elems_decodable::<T>(r.source(), N as nat)
    }

    open spec fn ref_model(r: &VecRef<'a, T>) -> Seq<<T as DeepView>::V> {
        elems_decoded::<T>(r.source(), N as nat)
    }

    proof fn lemma_decodable_readable(words: Seq<u32>) {
    }

    fn fixed_words() -> (n: usize) {
        if N == 0 {
            assert(N * T::spec_view_words() == 0) by (nonlinear_arith)
                requires
                    N == 0,
            ;
            0
        } else {
            assert(T::spec_view_words() <= N * T::spec_view_words()) by (nonlinear_arith)
                requires
                    N >= 1,
            ;
            let fixed: usize = T::fixed_words();
            assert(fixed * N == N * T::spec_view_words()) by (nonlinear_arith)
                requires
                    fixed == T::spec_view_words(),
            ;
            fixed * N
        }
    }

    fn deserialize_from(words: &'a [u32]) -> (r: VecRef<'a, T>)
        ensures
            r.count() == N,
            r.source() == words@,
    {
        VecRef { len: N, words, phantom: PhantomData }
    }

    fn into_orig(val: VecRef<'a, T>) -> (v: [T; N]) {
        let items: Vec<T> = collect_elems(&val);
        let ghost model = items.deep_view();
        let v: [T; N] = vec_into_array(items);
        v
    }
}

/// Runs of values that are the same, value for value, fill the same words.
pub proof fn lemma_elems_canonical<'a, T: RoundTrip<'a>>(s: Seq<T>, t: Seq<T>, n: int, dist: int)
    requires
        0 <= n <= s.len(),
        s.len() == t.len(),
        forall|i: int| 0 <= i < s.len() ==> (#[trigger] s[i]).deep_view() == t[i].deep_view(),
    ensures
        all_fit(s) == all_fit(t),
        vars_upto(s, n) == vars_upto(t, n),
        headers_upto(s, n, dist) == headers_upto(t, n, dist),
        payloads_upto(s, n) == payloads_upto(t, n),
    decreases n,
{
    assert forall|i: int| 0 <= i < s.len() implies (#[trigger] s[i].fits()) == t[i].fits() by {
        s[i].lemma_canonical(&t[i], 0);
    }
    assert(all_fit(s) == all_fit(t)) by {
        if all_fit(s) {
            assert forall|i: int| 0 <= i < t.len() implies #[trigger] t[i].fits() by {
                assert(s[i].fits());
            }
        }
        if all_fit(t) {
            assert forall|i: int| 0 <= i < s.len() implies #[trigger] s[i].fits() by {
            }
        }
    }
    if n > 0 {
        lemma_elems_canonical::<T>(s, t, n - 1, dist);
        s[n - 1].lemma_canonical(
            &t[n - 1],
            dist - (n - 1) * <T as Serialize>::spec_fixed_words() + vars_upto(s, n - 1),
        );
    }
}

/// A run of values that was filled in turn decodes, element by element, to
/// those values.
pub proof fn lemma_elems_round_trip<'a, T: RoundTrip<'a>>(s: Seq<T>, words: Seq<u32>, dist: int)
    requires
        all_fit(s),
        s.len() * <T as Serialize>::spec_fixed_words() <= dist,
        dist + vars_upto(s, s.len() as int) <= words.len() <= u32::MAX,
        words.subrange(0, (s.len() * <T as Serialize>::spec_fixed_words()) as int) == headers_upto(
            s,
            s.len() as int,
            dist,
        ),
        words.subrange(dist, dist + vars_upto(s, s.len() as int)) == payloads_upto(
            s,
            s.len() as int,
        ),
    ensures
        elems_decodable::<T>(words, s.len()),
        elems_decoded::<T>(words, s.len()) == Seq::new(s.len(), |i: int| s[i].deep_view()),
{
    let n = s.len() as int;
    let fixed = <T as Serialize>::spec_fixed_words() as int;
    T::lemma_same_size();
    assert forall|i: int| 0 <= i < n implies #[trigger] elem_decodable::<T>(words, i)
        && T::decoded(elem_words::<T>(words, i)) == s[i].deep_view() by {
        lemma_elem_regions(s, n, dist, i);
        lemma_elems_sizes(s, n, dist);
        lemma_vars_monotone(s, i, i + 1);
        let dist_i = dist - i * fixed + vars_upto(s, i);
        let var_i = s[i].var_words() as int;
        s[i].lemma_sizes(dist_i);
        assert((i + 1) * fixed == i * fixed + fixed) by (nonlinear_arith);
        assert(0 <= i * fixed) by (nonlinear_arith)
            requires
                0 <= i,
                0 <= fixed,
        ;
        let w = elem_words::<T>(words, i);
        assert(w.subrange(0, fixed) =~= words.subrange(0, n * fixed).subrange(
            i * fixed,
            (i + 1) * fixed,
        ));
        assert(w.subrange(dist_i, dist_i + var_i) =~= words.subrange(
            dist,
            dist + vars_upto(s, n),
        ).subrange(vars_upto(s, i) as int, vars_upto(s, i + 1) as int));
        s[i].lemma_round_trip(w, dist_i);
    }
    assert forall|i: int| 0 <= i < n implies T::decoded(elem_words::<T>(words, i))
        == #[trigger] s[i].deep_view() by {
        assert(elem_decodable::<T>(words, i));
    }
}

impl<'a, T: RoundTrip<'a>> RoundTrip<'a> for Vec<T> {
    proof fn lemma_same_size() {
    }

    proof fn lemma_canonical(&self, other: &Self, dist: int) {
        let n = self@.len() as int;
        let mine = Seq::new(self@.len(), |i: int| self@[i].deep_view());
        let theirs = Seq::new(other@.len(), |i: int| other@[i].deep_view());
        assert(self.deep_view() =~= mine);
        assert(other.deep_view() =~= theirs);
        assert forall|i: int| 0 <= i < n implies (#[trigger] self@[i]).deep_view()
            == other@[i].deep_view() by {
            assert(mine[i] == theirs[i]);
        }
        lemma_elems_canonical::<T>(
            self@,
            other@,
            n,
            n * <T as Serialize>::spec_fixed_words(),
        );
    }

    proof fn lemma_round_trip(&self, words: Seq<u32>, dist: int) {
        let n = self@.len() as int;
        let fixed = <T as Serialize>::spec_fixed_words() as int;
        let vars = vars_upto(self@, n) as int;
        lemma_elems_sizes(self@, n, n * fixed);
        let rest = words.skip(dist);
        let pay = words.subrange(dist, dist + n * fixed + vars);
        assert(rest.subrange(0, n * fixed) =~= pay.subrange(0, n * fixed));
        assert(rest.subrange(n * fixed, n * fixed + vars) =~= pay.subrange(
            n * fixed,
            n * fixed + vars,
        ));
        assert(pay.subrange(0, n * fixed) =~= headers_upto(self@, n, n * fixed));
        assert(pay.subrange(n * fixed, n * fixed + vars) =~= payloads_upto(self@, n));
        lemma_elems_round_trip::<T>(self@, rest, n * fixed);
    }
}

impl<'a, T: RoundTrip<'a>, const N: usize> RoundTrip<'a> for [T; N] {
    proof fn lemma_same_size() {
        T::lemma_same_size();
    }

    proof fn lemma_canonical(&self, other: &Self, dist: int) {
        let mine = Seq::new(self@.len(), |i: int| self@[i].deep_view());
        let theirs = Seq::new(other@.len(), |i: int| other@[i].deep_view());
        assert forall|i: int| 0 <= i < N implies (#[trigger] self@[i]).deep_view()
            == other@[i].deep_view() by {
            assert(mine[i] == theirs[i]);
        }
        lemma_elems_canonical::<T>(self@, other@, N as int, dist);
    }

    proof fn lemma_round_trip(&self, words: Seq<u32>, dist: int) {
        lemma_elems_round_trip::<T>(self@, words, dist);
    }
}

} // verus!
