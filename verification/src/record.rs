//! Records with a view of their own: the fields of a record are found one by
//! one, each from the sizes of the fields in front of it, and a field that is
//! not asked for is never read.
use vstd::prelude::*;
use core::marker::PhantomData;
use crate::GuestioError;
use crate::serialize::Alloc;
use crate::serialize::AllocBuf;
use crate::serialize::Serialize;
use crate::deserialize::Deserialize;
use crate::deserialize::RoundTrip;
use crate::deserialize::field_at;

verus! {

/// A record, given by the tuple of its fields in the order in which they are
/// declared. It is encoded as the tuple is; what differs is its view, which
/// reads nothing until a field is asked for.
#[derive(Debug, Clone, PartialEq, Eq)]
pub struct Record<F>(pub F);

/// The view of a record: the words from its fixed region on.
pub struct RecordRef<'a, F> {
    buf: &'a [u32],
    phantom: PhantomData<F>,
}

impl<F: DeepView> DeepView for Record<F> {
    type V = F::V;

    open spec fn deep_view(&self) -> F::V {
        self.0.deep_view()
    }
}

impl<F: Serialize> Serialize for Record<F> {
    open spec fn spec_fixed_words() -> nat {
        F::spec_fixed_words()
    }

    open spec fn var_words(&self) -> nat {
        self.0.var_words()
    }

    open spec fn fits(&self) -> bool {
        self.0.fits()
    }

    open spec fn header(&self, dist: int) -> Seq<u32> {
        self.0.header(dist)
    }

    open spec fn payload(&self) -> Seq<u32> {
        self.0.payload()
    }

    proof fn lemma_sizes(&self, dist: int) {
        self.0.lemma_sizes(dist);
    }

    fn fixed_words() -> (n: usize) {
        F::fixed_words()
    }

    fn tot_len(&self) -> (n: usize) {
        self.0.tot_len()
    }

    fn fill(&self, buf: &AllocBuf, a: &mut Alloc) -> (res: Result<(), GuestioError>) {
        self.0.fill(buf, a)
    }
}

impl<'a, F> RecordRef<'a, F> {
    /// The words from the record's fixed region on.
    pub closed spec fn source(&self) -> Seq<u32> {
        self.buf@
    }
}

impl<'a, F: Deserialize<'a>> Deserialize<'a> for Record<F> {
    type RefType = RecordRef<'a, F>;

    open spec fn spec_view_words() -> nat {
        F::spec_view_words()
    }

    open spec fn readable(words: Seq<u32>) -> bool {
        true
    }

    open spec fn decodable(words: Seq<u32>) -> bool {
        F::decodable(words)
    }

    open spec fn decoded(words: Seq<u32>) -> <F as DeepView>::V {
        F::decoded(words)
    }

    open spec fn ref_ok(r: &RecordRef<'a, F>) -> bool {
        F::decodable(r.source())
    }

    open spec fn ref_model(r: &RecordRef<'a, F>) -> <F as DeepView>::V {
        F::decoded(r.source())
    }

    proof fn lemma_decodable_readable(words: Seq<u32>) {
    }

    fn fixed_words() -> (n: usize) {
        F::fixed_words()
    }

    fn deserialize_from(words: &'a [u32]) -> (r: RecordRef<'a, F>)
        ensures
            r.source() == words@,
    {
        RecordRef { buf: words, phantom: PhantomData }
    }

    fn into_orig(val: RecordRef<'a, F>) -> (v: Record<F>) {
        proof {
            F::lemma_decodable_readable(val.source());
        }
        Record(F::into_orig(F::deserialize_from(val.buf)))
    }
}

impl<'a, F: RoundTrip<'a>> RoundTrip<'a> for Record<F> {
    proof fn lemma_same_size() {
        F::lemma_same_size();
    }

    proof fn lemma_canonical(&self, other: &Self, dist: int) {
        self.0.lemma_canonical(&other.0, dist);
    }

    proof fn lemma_round_trip(&self, words: Seq<u32>, dist: int) {
        self.0.lemma_round_trip(words, dist);
    }
}

impl<'a, A0: Deserialize<'a>> RecordRef<'a, (A0,)> {
    /// The view of field 0: it is found from the sizes of the fields in front
    /// of it, and no other field is read.
    pub fn field0(&self) -> (r: A0::RefType)
        requires
            0 <= self.source().len(),
            A0::readable(self.source().skip(0 as int)),
        ensures
            A0::ref_ok(&r) == A0::decodable(self.source().skip(0 as int)),
            A0::ref_model(&r) == A0::decoded(self.source().skip(0 as int)),
    {
        field_at::<A0>(self.buf, 0)
    }
}

impl<'a, A0: Deserialize<'a>, A1: Deserialize<'a>> RecordRef<'a, (A0, A1)> {
    /// The view of field 0: it is found from the sizes of the fields in front
    /// of it, and no other field is read.
    pub fn field0(&self) -> (r: A0::RefType)
        requires
            0 <= self.source().len(),
            A0::readable(self.source().skip(0 as int)),
        ensures
            A0::ref_ok(&r) == A0::decodable(self.source().skip(0 as int)),
            A0::ref_model(&r) == A0::decoded(self.source().skip(0 as int)),
    {
        field_at::<A0>(self.buf, 0)
    }

    /// The view of field 1: it is found from the sizes of the fields in front
    /// of it, and no other field is read.
    pub fn field1(&self) -> (r: A1::RefType)
        requires
            A0::spec_view_words() <= self.source().len(),
            A1::readable(self.source().skip(A0::spec_view_words() as int)),
        ensures
            A1::ref_ok(&r) == A1::decodable(self.source().skip(A0::spec_view_words() as int)),
            A1::ref_model(&r) == A1::decoded(self.source().skip(A0::spec_view_words() as int)),
    {
        assert(self.buf.len() == self.source().len());
        field_at::<A1>(self.buf, A0::fixed_words())
    }
}

impl<
    'a,
    A0: Deserialize<'a>,
    A1: Deserialize<'a>,
    A2: Deserialize<'a>,
> RecordRef<'a, (A0, A1, A2)> {
    /// The view of field 0: it is found from the sizes of the fields in front
    /// of it, and no other field is read.
    pub fn field0(&self) -> (r: A0::RefType)
        requires
            0 <= self.source().len(),
            A0::readable(self.source().skip(0 as int)),
        ensures
            A0::ref_ok(&r) == A0::decodable(self.source().skip(0 as int)),
            A0::ref_model(&r) == A0::decoded(self.source().skip(0 as int)),
    {
        field_at::<A0>(self.buf, 0)
    }

    /// The view of field 1: it is found from the sizes of the fields in front
    /// of it, and no other field is read.
    pub fn field1(&self) -> (r: A1::RefType)
        requires
            A0::spec_view_words() <= self.source().len(),
            A1::readable(self.source().skip(A0::spec_view_words() as int)),
        ensures
            A1::ref_ok(&r) == A1::decodable(self.source().skip(A0::spec_view_words() as int)),
            A1::ref_model(&r) == A1::decoded(self.source().skip(A0::spec_view_words() as int)),
    {
        assert(self.buf.len() == self.source().len());
        field_at::<A1>(self.buf, A0::fixed_words())
    }

    /// The view of field 2: it is found from the sizes of the fields in front
    /// of it, and no other field is read.
    pub fn field2(&self) -> (r: A2::RefType)
        requires
            A0::spec_view_words() + A1::spec_view_words() <= self.source().len(),
            A2::readable(
                self.source().skip((A0::spec_view_words() + A1::spec_view_words()) as int),
            ),
        ensures
            A2::ref_ok(&r) == A2::decodable(
                self.source().skip((A0::spec_view_words() + A1::spec_view_words()) as int),
            ),
            A2::ref_model(&r) == A2::decoded(
                self.source().skip((A0::spec_view_words() + A1::spec_view_words()) as int),
            ),
    {
        assert(self.buf.len() == self.source().len());
        field_at::<A2>(self.buf, A0::fixed_words() + A1::fixed_words())
    }
}

impl<
    'a,
    A0: Deserialize<'a>,
    A1: Deserialize<'a>,
    A2: Deserialize<'a>,
    A3: Deserialize<'a>,
> RecordRef<'a, (A0, A1, A2, A3)> {
    /// The view of field 0: it is found from the sizes of the fields in front
    /// of it, and no other field is read.
    pub fn field0(&self) -> (r: A0::RefType)
        requires
            0 <= self.source().len(),
            A0::readable(self.source().skip(0 as int)),
        ensures
            A0::ref_ok(&r) == A0::decodable(self.source().skip(0 as int)),
            A0::ref_model(&r) == A0::decoded(self.source().skip(0 as int)),
    {
        field_at::<A0>(self.buf, 0)
    }

    /// The view of field 1: it is found from the sizes of the fields in front
    /// of it, and no other field is read.
    pub fn field1(&self) -> (r: A1::RefType)
        requires
            A0::spec_view_words() <= self.source().len(),
            A1::readable(self.source().skip(A0::spec_view_words() as int)),
        ensures
            A1::ref_ok(&r) == A1::decodable(self.source().skip(A0::spec_view_words() as int)),
            A1::ref_model(&r) == A1::decoded(self.source().skip(A0::spec_view_words() as int)),
    {
        assert(self.buf.len() == self.source().len());
        field_at::<A1>(self.buf, A0::fixed_words())
    }

    /// The view of field 2: it is found from the sizes of the fields in front
    /// of it, and no other field is read.
    pub fn field2(&self) -> (r: A2::RefType)
        requires
            A0::spec_view_words() + A1::spec_view_words() <= self.source().len(),
            A2::readable(
                self.source().skip((A0::spec_view_words() + A1::spec_view_words()) as int),
            ),
        ensures
            A2::ref_ok(&r) == A2::decodable(
                self.source().skip((A0::spec_view_words() + A1::spec_view_words()) as int),
            ),
            A2::ref_model(&r) == A2::decoded(
                self.source().skip((A0::spec_view_words() + A1::spec_view_words()) as int),
            ),
    {
        assert(self.buf.len() == self.source().len());
        field_at::<A2>(self.buf, A0::fixed_words() + A1::fixed_words())
    }

    /// The view of field 3: it is found from the sizes of the fields in front
    /// of it, and no other field is read.
    pub fn field3(&self) -> (r: A3::RefType)
        requires
            A0::spec_view_words() + A1::spec_view_words() + A2::spec_view_words() <= self.source().len(),
            A3::readable(
                self.source().skip(
                    (A0::spec_view_words() + A1::spec_view_words() + A2::spec_view_words()) as int,
                ),
            ),
        ensures
            A3::ref_ok(&r) == A3::decodable(
                self.source().skip(
                    (A0::spec_view_words() + A1::spec_view_words() + A2::spec_view_words()) as int,
                ),
            ),
            A3::ref_model(&r) == A3::decoded(
                self.source().skip(
                    (A0::spec_view_words() + A1::spec_view_words() + A2::spec_view_words()) as int,
                ),
            ),
    {
        assert(self.buf.len() == self.source().len());
        field_at::<A3>(self.buf, A0::fixed_words() + A1::fixed_words() + A2::fixed_words())
    }
}

impl<
    'a,
    A0: Deserialize<'a>,
    A1: Deserialize<'a>,
    A2: Deserialize<'a>,
    A3: Deserialize<'a>,
    A4: Deserialize<'a>,
> RecordRef<'a, (A0, A1, A2, A3, A4)> {
    /// The view of field 0: it is found from the sizes of the fields in front
    /// of it, and no other field is read.
    pub fn field0(&self) -> (r: A0::RefType)
        requires
            0 <= self.source().len(),
            A0::readable(self.source().skip(0 as int)),
        ensures
            A0::ref_ok(&r) == A0::decodable(self.source().skip(0 as int)),
            A0::ref_model(&r) == A0::decoded(self.source().skip(0 as int)),
    {
        field_at::<A0>(self.buf, 0)
    }

    /// The view of field 1: it is found from the sizes of the fields in front
    /// of it, and no other field is read.
    pub fn field1(&self) -> (r: A1::RefType)
        requires
            A0::spec_view_words() <= self.source().len(),
            A1::readable(self.source().skip(A0::spec_view_words() as int)),
        ensures
            A1::ref_ok(&r) == A1::decodable(self.source().skip(A0::spec_view_words() as int)),
            A1::ref_model(&r) == A1::decoded(self.source().skip(A0::spec_view_words() as int)),
    {
        assert(self.buf.len() == self.source().len());
        field_at::<A1>(self.buf, A0::fixed_words())
    }

    /// The view of field 2: it is found from the sizes of the fields in front
    /// of it, and no other field is read.
    pub fn field2(&self) -> (r: A2::RefType)
        requires
            A0::spec_view_words() + A1::spec_view_words() <= self.source().len(),
            A2::readable(
                self.source().skip((A0::spec_view_words() + A1::spec_view_words()) as int),
            ),
        ensures
            A2::ref_ok(&r) == A2::decodable(
                self.source().skip((A0::spec_view_words() + A1::spec_view_words()) as int),
            ),
            A2::ref_model(&r) == A2::decoded(
                self.source().skip((A0::spec_view_words() + A1::spec_view_words()) as int),
            ),
    {
        assert(self.buf.len() == self.source().len());
        field_at::<A2>(self.buf, A0::fixed_words() + A1::fixed_words())
    }

    /// The view of field 3: it is found from the sizes of the fields in front
    /// of it, and no other field is read.
    pub fn field3(&self) -> (r: A3::RefType)
        requires
            A0::spec_view_words() + A1::spec_view_words() + A2::spec_view_words() <= self.source().len(),
            A3::readable(
                self.source().skip(
                    (A0::spec_view_words() + A1::spec_view_words() + A2::spec_view_words()) as int,
                ),
            ),
        ensures
            A3::ref_ok(&r) == A3::decodable(
                self.source().skip(
                    (A0::spec_view_words() + A1::spec_view_words() + A2::spec_view_words()) as int,
                ),
            ),
            A3::ref_model(&r) == A3::decoded(
                self.source().skip(
                    (A0::spec_view_words() + A1::spec_view_words() + A2::spec_view_words()) as int,
                ),
            ),
    {
        assert(self.buf.len() == self.source().len());
        field_at::<A3>(self.buf, A0::fixed_words() + A1::fixed_words() + A2::fixed_words())
    }

    /// The view of field 4: it is found from the sizes of the fields in front
    /// of it, and no other field is read.
    pub fn field4(&self) -> (r: A4::RefType)
        requires
            A0::spec_view_words() + A1::spec_view_words() + A2::spec_view_words() + A3::spec_view_words() <= self.source().len(),
            A4::readable(
                self.source().skip(
                    (A0::spec_view_words() + A1::spec_view_words()
                        + A2::spec_view_words() + A3::spec_view_words()) as int,
                ),
            ),
        ensures
            A4::ref_ok(&r) == A4::decodable(
                self.source().skip(
                    (A0::spec_view_words() + A1::spec_view_words()
                        + A2::spec_view_words() + A3::spec_view_words()) as int,
                ),
            ),
            A4::ref_model(&r) == A4::decoded(
                self.source().skip(
                    (A0::spec_view_words() + A1::spec_view_words()
                        + A2::spec_view_words() + A3::spec_view_words()) as int,
                ),
            ),
    {
        assert(self.buf.len() == self.source().len());
        field_at::<A4>(
            self.buf,
            A0::fixed_words() + A1::fixed_words() + A2::fixed_words() + A3::fixed_words(),
        )
    }
}

} // verus!
