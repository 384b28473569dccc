//! Records: values made of fields. A tuple stands for the record whose fields
//! are its components, in order. The fixed regions of the fields lie back to
//! back in the record's fixed region, and their payloads follow one another
//! in the arena; the order of the fields is part of the encoding.
use vstd::prelude::*;
use crate::GuestioError;
use crate::serialize::Alloc;
use crate::serialize::AllocBuf;
use crate::serialize::Serialize;
use crate::serialize::fill_field;
use crate::serialize::splice;
use crate::deserialize::Deserialize;
use crate::deserialize::RoundTrip;
use crate::deserialize::field_at;

verus! {

/// A record of one field: how it is written.
impl<A0: Serialize> Serialize for (A0,) {
    open spec fn spec_fixed_words() -> nat {
        A0::spec_fixed_words()
    }

    open spec fn var_words(&self) -> nat {
        self.0.var_words()
    }

    open spec fn fits(&self) -> bool {
        self.0.fits()
    }

    open spec fn header(&self, dist: int) -> Seq<u32> {
        self.0.header(dist)
    }

    open spec fn payload(&self) -> Seq<u32> {
        self.0.payload()
    }

    proof fn lemma_sizes(&self, dist: int) {
        self.0.lemma_sizes(dist);
    }

    fn fixed_words() -> (n: usize) {
        A0::fixed_words()
    }

    fn tot_len(&self) -> (n: usize) {
        self.0.tot_len()
    }

    fn fill(&self, buf: &AllocBuf, a: &mut Alloc) -> (res: Result<(), GuestioError>) {
        let ghost before = a.words();
        let ghost base = a.used();
        let ghost dist = a.used() - buf.start();
        let ghost mut hdr: Seq<u32> = Seq::empty();
        let ghost mut pay: Seq<u32> = Seq::empty();
        let pos: usize = 0;
        proof {
            self.lemma_sizes(dist);
            self.0.lemma_sizes(dist);
            assert(a.words() =~= splice(splice(before, buf.start() as int, hdr), base as int, pay));
        }
        fill_field(&self.0, buf, pos, a, Ghost(before), Ghost(base), Ghost(hdr), Ghost(pay))?;
        proof {
            hdr = hdr + self.0.header(dist);
            pay = pay + self.0.payload();
            assert(hdr =~= self.header(dist));
            assert(pay =~= self.payload());
        }
        Ok(())
    }
}

/// A record of one field: how it is read. The view holds the views of all
/// the fields.
impl<'a, A0: Deserialize<'a>> Deserialize<'a> for (A0,) {
    type RefType = (A0::RefType,);

    open spec fn spec_view_words() -> nat {
        A0::spec_view_words()
    }

    open spec fn readable(words: Seq<u32>) -> bool {
        &&& A0::readable(words)
    }

    open spec fn decodable(words: Seq<u32>) -> bool {
        &&& A0::decodable(words)
    }

    open spec fn decoded(words: Seq<u32>) -> <Self as DeepView>::V {
        (
            A0::decoded(words),
        )
    }

    open spec fn ref_ok(r: &Self::RefType) -> bool {
        A0::ref_ok(&r.0)
    }

    open spec fn ref_model(r: &Self::RefType) -> <Self as DeepView>::V {
        (A0::ref_model(&r.0),)
    }

    proof fn lemma_decodable_readable(words: Seq<u32>) {
        A0::lemma_decodable_readable(words);
    }

    fn fixed_words() -> (n: usize) {
        A0::fixed_words()
    }

    fn deserialize_from(words: &'a [u32]) -> (r: Self::RefType) {
        let r0 = A0::deserialize_from(words);
        (r0,)
    }

    fn into_orig(val: Self::RefType) -> (v: Self) {
        (
            A0::into_orig(val.0),
        )
    }
}

/// A record of one field: what is read is what was written.
impl<'a, A0: RoundTrip<'a>> RoundTrip<'a> for (A0,) {
    proof fn lemma_same_size() {
        A0::lemma_same_size();
    }

    proof fn lemma_canonical(&self, other: &Self, dist: int) {
        self.0.lemma_canonical(&other.0, dist);
    }

    proof fn lemma_round_trip(&self, words: Seq<u32>, dist: int) {
        A0::lemma_same_size();
        self.lemma_sizes(dist);
        let fixed = <Self as Serialize>::spec_fixed_words();
        let var = self.var_words();
        let head = words.subrange(0, fixed as int);
        let tail = words.subrange(dist, dist + var);
        let o0 = 0int;
        let c0 = 0int;
        let d0 = dist - o0 + c0;
        let w0 = words.skip(o0);
        self.0.lemma_sizes(d0);
        let f0 = <A0 as Serialize>::spec_fixed_words() as int;
        let v0 = self.0.var_words() as int;
        assert(w0.subrange(0, f0) =~= head.subrange(o0, o0 + f0));
        assert(head.subrange(o0, o0 + f0) =~= self.0.header(d0));
        assert(w0.subrange(d0, d0 + v0) =~= tail.subrange(c0, c0 + v0));
        assert(tail.subrange(c0, c0 + v0) =~= self.0.payload());
        self.0.lemma_round_trip(w0, d0);
        assert(w0 =~= words);
    }
}

/// A record of two fields: how it is written.
impl<A0: Serialize, A1: Serialize> Serialize for (A0, A1) {
    open spec fn spec_fixed_words() -> nat {
        A0::spec_fixed_words() + A1::spec_fixed_words()
    }

    open spec fn var_words(&self) -> nat {
        self.0.var_words() + self.1.var_words()
    }

    open spec fn fits(&self) -> bool {
        self.0.fits() && self.1.fits()
    }

    open spec fn header(&self, dist: int) -> Seq<u32> {
        self.0.header(dist) + self.1.header(dist - A0::spec_fixed_words() + self.0.var_words())
    }

    open spec fn payload(&self) -> Seq<u32> {
        self.0.payload() + self.1.payload()
    }

    proof fn lemma_sizes(&self, dist: int) {
        self.0.lemma_sizes(dist);
        self.1.lemma_sizes(dist - A0::spec_fixed_words() + self.0.var_words());
    }

    fn fixed_words() -> (n: usize) {
        A0::fixed_words() + A1::fixed_words()
    }

    fn tot_len(&self) -> (n: usize) {
        self.0.tot_len() + self.1.tot_len()
    }

    fn fill(&self, buf: &AllocBuf, a: &mut Alloc) -> (res: Result<(), GuestioError>) {
        let ghost before = a.words();
        let ghost base = a.used();
        let ghost dist = a.used() - buf.start();
        let ghost mut hdr: Seq<u32> = Seq::empty();
        let ghost mut pay: Seq<u32> = Seq::empty();
        let pos: usize = 0;
        proof {
            self.lemma_sizes(dist);
            self.0.lemma_sizes(dist);
            self.1.lemma_sizes(dist - A0::spec_fixed_words() + self.0.var_words());
            assert(a.words() =~= splice(splice(before, buf.start() as int, hdr), base as int, pay));
        }
        fill_field(&self.0, buf, pos, a, Ghost(before), Ghost(base), Ghost(hdr), Ghost(pay))?;
        proof {
            hdr = hdr + self.0.header(dist);
            pay = pay + self.0.payload();
        }
        let pos: usize = pos + A0::fixed_words();
        fill_field(&self.1, buf, pos, a, Ghost(before), Ghost(base), Ghost(hdr), Ghost(pay))?;
        proof {
            hdr = hdr + self.1.header(dist - A0::spec_fixed_words() + self.0.var_words());
            pay = pay + self.1.payload();
            assert(hdr =~= self.header(dist));
            assert(pay =~= self.payload());
        }
        Ok(())
    }
}

/// A record of two fields: how it is read. The view holds the views of all
/// the fields.
impl<'a, A0: Deserialize<'a>, A1: Deserialize<'a>> Deserialize<'a> for (A0, A1) {
    type RefType = (A0::RefType, A1::RefType);

    open spec fn spec_view_words() -> nat {
        A0::spec_view_words() + A1::spec_view_words()
    }

    open spec fn readable(words: Seq<u32>) -> bool {
        &&& A0::readable(words)
        &&& A0::spec_view_words() <= words.len()
        &&& A1::readable(words.skip(A0::spec_view_words() as int))
    }

    open spec fn decodable(words: Seq<u32>) -> bool {
        &&& A0::decodable(words)
        &&& A0::spec_view_words() <= words.len()
        &&& A1::decodable(words.skip(A0::spec_view_words() as int))
    }

    open spec fn decoded(words: Seq<u32>) -> <Self as DeepView>::V {
        (
            A0::decoded(words),
            A1::decoded(words.skip(A0::spec_view_words() as int)),
        )
    }

    open spec fn ref_ok(r: &Self::RefType) -> bool {
        A0::ref_ok(&r.0) && A1::ref_ok(&r.1)
    }

    open spec fn ref_model(r: &Self::RefType) -> <Self as DeepView>::V {
        (A0::ref_model(&r.0), A1::ref_model(&r.1))
    }

    proof fn lemma_decodable_readable(words: Seq<u32>) {
        A0::lemma_decodable_readable(words);
        A1::lemma_decodable_readable(words.skip(A0::spec_view_words() as int));
    }

    fn fixed_words() -> (n: usize) {
        A0::fixed_words() + A1::fixed_words()
    }

    fn deserialize_from(words: &'a [u32]) -> (r: Self::RefType) {
        assert(words.len() == words@.len());
        let r0 = A0::deserialize_from(words);
        let pos: usize = A0::fixed_words();
        let r1 = field_at::<A1>(words, pos);
        (r0, r1)
    }

    fn into_orig(val: Self::RefType) -> (v: Self) {
        (
            A0::into_orig(val.0),
            A1::into_orig(val.1),
        )
    }
}

/// A record of two fields: what is read is what was written.
impl<'a, A0: RoundTrip<'a>, A1: RoundTrip<'a>> RoundTrip<'a> for (A0, A1) {
    proof fn lemma_same_size() {
        A0::lemma_same_size();
        A1::lemma_same_size();
    }

    proof fn lemma_canonical(&self, other: &Self, dist: int) {
        self.0.lemma_canonical(&other.0, dist);
        self.1.lemma_canonical(
            &other.1,
            dist - <A0 as Serialize>::spec_fixed_words() + self.0.var_words(),
        );
    }

    proof fn lemma_round_trip(&self, words: Seq<u32>, dist: int) {
        A0::lemma_same_size();
        A1::lemma_same_size();
        self.lemma_sizes(dist);
        let fixed = <Self as Serialize>::spec_fixed_words();
        let var = self.var_words();
        let head = words.subrange(0, fixed as int);
        let tail = words.subrange(dist, dist + var);
        let o0 = 0int;
        let c0 = 0int;
        let d0 = dist - o0 + c0;
        let w0 = words.skip(o0);
        self.0.lemma_sizes(d0);
        let o1 = (<A0 as Serialize>::spec_fixed_words()) as int;
        let c1 = (self.0.var_words()) as int;
        let d1 = dist - o1 + c1;
        let w1 = words.skip(o1);
        self.1.lemma_sizes(d1);
        let f0 = <A0 as Serialize>::spec_fixed_words() as int;
        let v0 = self.0.var_words() as int;
        assert(w0.subrange(0, f0) =~= head.subrange(o0, o0 + f0));
        assert(head.subrange(o0, o0 + f0) =~= self.0.header(d0));
        assert(w0.subrange(d0, d0 + v0) =~= tail.subrange(c0, c0 + v0));
        assert(tail.subrange(c0, c0 + v0) =~= self.0.payload());
        self.0.lemma_round_trip(w0, d0);
        let f1 = <A1 as Serialize>::spec_fixed_words() as int;
        let v1 = self.1.var_words() as int;
        assert(w1.subrange(0, f1) =~= head.subrange(o1, o1 + f1));
        assert(head.subrange(o1, o1 + f1) =~= self.1.header(d1));
        assert(w1.subrange(d1, d1 + v1) =~= tail.subrange(c1, c1 + v1));
        assert(tail.subrange(c1, c1 + v1) =~= self.1.payload());
        self.1.lemma_round_trip(w1, d1);
        assert(w0 =~= words);
    }
}

/// A record of three fields: how it is written.
impl<A0: Serialize, A1: Serialize, A2: Serialize> Serialize for (A0, A1, A2) {
    open spec fn spec_fixed_words() -> nat {
        A0::spec_fixed_words() + A1::spec_fixed_words() + A2::spec_fixed_words()
    }

    open spec fn var_words(&self) -> nat {
        self.0.var_words() + self.1.var_words() + self.2.var_words()
    }

    open spec fn fits(&self) -> bool {
        self.0.fits() && self.1.fits() && self.2.fits()
    }

    open spec fn header(&self, dist: int) -> Seq<u32> {
        self.0.header(dist)
            + self.1.header(dist - A0::spec_fixed_words() + self.0.var_words())
            + self.2.header(
                dist - A0::spec_fixed_words() - A1::spec_fixed_words()
                    + self.0.var_words() + self.1.var_words(),
            )
    }

    open spec fn payload(&self) -> Seq<u32> {
        self.0.payload() + self.1.payload() + self.2.payload()
    }

    proof fn lemma_sizes(&self, dist: int) {
        self.0.lemma_sizes(dist);
        self.1.lemma_sizes(dist - A0::spec_fixed_words() + self.0.var_words());
        self.2.lemma_sizes(
            dist - A0::spec_fixed_words() - A1::spec_fixed_words()
                + self.0.var_words() + self.1.var_words(),
        );
    }

    fn fixed_words() -> (n: usize) {
        A0::fixed_words() + A1::fixed_words() + A2::fixed_words()
    }

    fn tot_len(&self) -> (n: usize) {
        self.0.tot_len() + self.1.tot_len() + self.2.tot_len()
    }

    fn fill(&self, buf: &AllocBuf, a: &mut Alloc) -> (res: Result<(), GuestioError>) {
        let ghost before = a.words();
        let ghost base = a.used();
        let ghost dist = a.used() - buf.start();
        let ghost mut hdr: Seq<u32> = Seq::empty();
        let ghost mut pay: Seq<u32> = Seq::empty();
        let pos: usize = 0;
        proof {
            self.lemma_sizes(dist);
            self.0.lemma_sizes(dist);
            self.1.lemma_sizes(dist - A0::spec_fixed_words() + self.0.var_words());
            self.2.lemma_sizes(
                dist - A0::spec_fixed_words() - A1::spec_fixed_words()
                    + self.0.var_words() + self.1.var_words(),
            );
            assert(a.words() =~= splice(splice(before, buf.start() as int, hdr), base as int, pay));
        }
        fill_field(&self.0, buf, pos, a, Ghost(before), Ghost(base), Ghost(hdr), Ghost(pay))?;
        proof {
            hdr = hdr + self.0.header(dist);
            pay = pay + self.0.payload();
        }
        let pos: usize = pos + A0::fixed_words();
        fill_field(&self.1, buf, pos, a, Ghost(before), Ghost(base), Ghost(hdr), Ghost(pay))?;
        proof {
            hdr = hdr + self.1.header(dist - A0::spec_fixed_words() + self.0.var_words());
            pay = pay + self.1.payload();
        }
        let pos: usize = pos + A1::fixed_words();
        fill_field(&self.2, buf, pos, a, Ghost(before), Ghost(base), Ghost(hdr), Ghost(pay))?;
        proof {
            hdr = hdr + self.2.header(
                dist - A0::spec_fixed_words() - A1::spec_fixed_words()
                    + self.0.var_words() + self.1.var_words(),
            );
            pay = pay + self.2.payload();
            assert(hdr =~= self.header(dist));
            assert(pay =~= self.payload());
        }
        Ok(())
    }
}

/// A record of three fields: how it is read. The view holds the views of all
/// the fields.
impl<
    'a,
    A0: Deserialize<'a>,
    A1: Deserialize<'a>,
    A2: Deserialize<'a>,
> Deserialize<'a> for (A0, A1, A2) {
    type RefType = (A0::RefType, A1::RefType, A2::RefType);

    open spec fn spec_view_words() -> nat {
        A0::spec_view_words() + A1::spec_view_words() + A2::spec_view_words()
    }

    open spec fn readable(words: Seq<u32>) -> bool {
        &&& A0::readable(words)
        &&& A0::spec_view_words() <= words.len()
        &&& A1::readable(words.skip(A0::spec_view_words() as int))
        &&& A0::spec_view_words() + A1::spec_view_words() <= words.len()
        &&& A2::readable(words.skip((A0::spec_view_words() + A1::spec_view_words()) as int))
    }

    open spec fn decodable(words: Seq<u32>) -> bool {
        &&& A0::decodable(words)
        &&& A0::spec_view_words() <= words.len()
        &&& A1::decodable(words.skip(A0::spec_view_words() as int))
        &&& A0::spec_view_words() + A1::spec_view_words() <= words.len()
        &&& A2::decodable(words.skip((A0::spec_view_words() + A1::spec_view_words()) as int))
    }

    open spec fn decoded(words: Seq<u32>) -> <Self as DeepView>::V {
        (
            A0::decoded(words),
            A1::decoded(words.skip(A0::spec_view_words() as int)),
            A2::decoded(words.skip((A0::spec_view_words() + A1::spec_view_words()) as int)),
        )
    }

    open spec fn ref_ok(r: &Self::RefType) -> bool {
        A0::ref_ok(&r.0) && A1::ref_ok(&r.1) && A2::ref_ok(&r.2)
    }

    open spec fn ref_model(r: &Self::RefType) -> <Self as DeepView>::V {
        (A0::ref_model(&r.0), A1::ref_model(&r.1), A2::ref_model(&r.2))
    }

    proof fn lemma_decodable_readable(words: Seq<u32>) {
        A0::lemma_decodable_readable(words);
        A1::lemma_decodable_readable(words.skip(A0::spec_view_words() as int));
        A2::lemma_decodable_readable(
            words.skip((A0::spec_view_words() + A1::spec_view_words()) as int),
        );
    }

    fn fixed_words() -> (n: usize) {
        A0::fixed_words() + A1::fixed_words() + A2::fixed_words()
    }

    fn deserialize_from(words: &'a [u32]) -> (r: Self::RefType) {
        assert(words.len() == words@.len());
        let r0 = A0::deserialize_from(words);
        let pos: usize = A0::fixed_words();
        let r1 = field_at::<A1>(words, pos);
        let pos: usize = pos + A1::fixed_words();
        let r2 = field_at::<A2>(words, pos);
        (r0, r1, r2)
    }

    fn into_orig(val: Self::RefType) -> (v: Self) {
        (
            A0::into_orig(val.0),
            A1::into_orig(val.1),
            A2::into_orig(val.2),
        )
    }
}

/// A record of three fields: what is read is what was written.
impl<'a, A0: RoundTrip<'a>, A1: RoundTrip<'a>, A2: RoundTrip<'a>> RoundTrip<'a> for (A0, A1, A2) {
    proof fn lemma_same_size() {
        A0::lemma_same_size();
        A1::lemma_same_size();
        A2::lemma_same_size();
    }

    proof fn lemma_canonical(&self, other: &Self, dist: int) {
        self.0.lemma_canonical(&other.0, dist);
        self.1.lemma_canonical(
            &other.1,
            dist - <A0 as Serialize>::spec_fixed_words() + self.0.var_words(),
        );
        self.2.lemma_canonical(
            &other.2,
            dist - <A0 as Serialize>::spec_fixed_words() - <A1 as Serialize>::spec_fixed_words()
                + self.0.var_words() + self.1.var_words(),
        );
    }

    proof fn lemma_round_trip(&self, words: Seq<u32>, dist: int) {
        A0::lemma_same_size();
        A1::lemma_same_size();
        A2::lemma_same_size();
        self.lemma_sizes(dist);
        let fixed = <Self as Serialize>::spec_fixed_words();
        let var = self.var_words();
        let head = words.subrange(0, fixed as int);
        let tail = words.subrange(dist, dist + var);
        let o0 = 0int;
        let c0 = 0int;
        let d0 = dist - o0 + c0;
        let w0 = words.skip(o0);
        self.0.lemma_sizes(d0);
        let o1 = (<A0 as Serialize>::spec_fixed_words()) as int;
        let c1 = (self.0.var_words()) as int;
        let d1 = dist - o1 + c1;
        let w1 = words.skip(o1);
        self.1.lemma_sizes(d1);
        let o2 = (<A0 as Serialize>::spec_fixed_words() + <A1 as Serialize>::spec_fixed_words()) as int;
        let c2 = (self.0.var_words() + self.1.var_words()) as int;
        let d2 = dist - o2 + c2;
        let w2 = words.skip(o2);
        self.2.lemma_sizes(d2);
        let f0 = <A0 as Serialize>::spec_fixed_words() as int;
        let v0 = self.0.var_words() as int;
        assert(w0.subrange(0, f0) =~= head.subrange(o0, o0 + f0));
        assert(head.subrange(o0, o0 + f0) =~= self.0.header(d0));
        assert(w0.subrange(d0, d0 + v0) =~= tail.subrange(c0, c0 + v0));
        assert(tail.subrange(c0, c0 + v0) =~= self.0.payload());
        self.0.lemma_round_trip(w0, d0);
        let f1 = <A1 as Serialize>::spec_fixed_words() as int;
        let v1 = self.1.var_words() as int;
        assert(w1.subrange(0, f1) =~= head.subrange(o1, o1 + f1));
        assert(head.subrange(o1, o1 + f1) =~= self.1.header(d1));
        assert(w1.subrange(d1, d1 + v1) =~= tail.subrange(c1, c1 + v1));
        assert(tail.subrange(c1, c1 + v1) =~= self.1.payload());
        self.1.lemma_round_trip(w1, d1);
        let f2 = <A2 as Serialize>::spec_fixed_words() as int;
        let v2 = self.2.var_words() as int;
        assert(w2.subrange(0, f2) =~= head.subrange(o2, o2 + f2));
        assert(head.subrange(o2, o2 + f2) =~= self.2.header(d2));
        assert(w2.subrange(d2, d2 + v2) =~= tail.subrange(c2, c2 + v2));
        assert(tail.subrange(c2, c2 + v2) =~= self.2.payload());
        self.2.lemma_round_trip(w2, d2);
        assert(w0 =~= words);
    }
}

/// A record of four fields: how it is written.
impl<A0: Serialize, A1: Serialize, A2: Serialize, A3: Serialize> Serialize for (A0, A1, A2, A3) {
    open spec fn spec_fixed_words() -> nat {
        A0::spec_fixed_words()
            + A1::spec_fixed_words()
            + A2::spec_fixed_words()
            + A3::spec_fixed_words()
    }

    open spec fn var_words(&self) -> nat {
        self.0.var_words() + self.1.var_words() + self.2.var_words() + self.3.var_words()
    }

    open spec fn fits(&self) -> bool {
        self.0.fits() && self.1.fits() && self.2.fits() && self.3.fits()
    }

    open spec fn header(&self, dist: int) -> Seq<u32> {
        self.0.header(dist)
            + self.1.header(dist - A0::spec_fixed_words() + self.0.var_words())
            + self.2.header(
                dist - A0::spec_fixed_words() - A1::spec_fixed_words()
                    + self.0.var_words() + self.1.var_words(),
            )
            + self.3.header(
                dist - A0::spec_fixed_words() - A1::spec_fixed_words() - A2::spec_fixed_words()
                    + self.0.var_words() + self.1.var_words() + self.2.var_words(),
            )
    }

    open spec fn payload(&self) -> Seq<u32> {
        self.0.payload() + self.1.payload() + self.2.payload() + self.3.payload()
    }

    proof fn lemma_sizes(&self, dist: int) {
        self.0.lemma_sizes(dist);
        self.1.lemma_sizes(dist - A0::spec_fixed_words() + self.0.var_words());
        self.2.lemma_sizes(
            dist - A0::spec_fixed_words() - A1::spec_fixed_words()
                + self.0.var_words() + self.1.var_words(),
        );
        self.3.lemma_sizes(
            dist - A0::spec_fixed_words() - A1::spec_fixed_words() - A2::spec_fixed_words()
                + self.0.var_words() + self.1.var_words() + self.2.var_words(),
        );
    }

    fn fixed_words() -> (n: usize) {
        A0::fixed_words() + A1::fixed_words() + A2::fixed_words() + A3::fixed_words()
    }

    fn tot_len(&self) -> (n: usize) {
        self.0.tot_len() + self.1.tot_len() + self.2.tot_len() + self.3.tot_len()
    }

    fn fill(&self, buf: &AllocBuf, a: &mut Alloc) -> (res: Result<(), GuestioError>) {
        let ghost before = a.words();
        let ghost base = a.used();
        let ghost dist = a.used() - buf.start();
        let ghost mut hdr: Seq<u32> = Seq::empty();
        let ghost mut pay: Seq<u32> = Seq::empty();
        let pos: usize = 0;
        proof {
            self.lemma_sizes(dist);
            self.0.lemma_sizes(dist);
            self.1.lemma_sizes(dist - A0::spec_fixed_words() + self.0.var_words());
            self.2.lemma_sizes(
                dist - A0::spec_fixed_words() - A1::spec_fixed_words()
                    + self.0.var_words() + self.1.var_words(),
            );
            self.3.lemma_sizes(
                dist - A0::spec_fixed_words() - A1::spec_fixed_words() - A2::spec_fixed_words()
                    + self.0.var_words() + self.1.var_words() + self.2.var_words(),
            );
            assert(a.words() =~= splice(splice(before, buf.start() as int, hdr), base as int, pay));
        }
        fill_field(&self.0, buf, pos, a, Ghost(before), Ghost(base), Ghost(hdr), Ghost(pay))?;
        proof {
            hdr = hdr + self.0.header(dist);
            pay = pay + self.0.payload();
        }
        let pos: usize = pos + A0::fixed_words();
        fill_field(&self.1, buf, pos, a, Ghost(before), Ghost(base), Ghost(hdr), Ghost(pay))?;
        proof {
            hdr = hdr + self.1.header(dist - A0::spec_fixed_words() + self.0.var_words());
            pay = pay + self.1.payload();
        }
        let pos: usize = pos + A1::fixed_words();
        fill_field(&self.2, buf, pos, a, Ghost(before), Ghost(base), Ghost(hdr), Ghost(pay))?;
        proof {
            hdr = hdr + self.2.header(
                dist - A0::spec_fixed_words() - A1::spec_fixed_words()
                    + self.0.var_words() + self.1.var_words(),
            );
            pay = pay + self.2.payload();
        }
        let pos: usize = pos + A2::fixed_words();
        fill_field(&self.3, buf, pos, a, Ghost(before), Ghost(base), Ghost(hdr), Ghost(pay))?;
        proof {
            hdr = hdr + self.3.header(
                dist - A0::spec_fixed_words() - A1::spec_fixed_words() - A2::spec_fixed_words()
                    + self.0.var_words() + self.1.var_words() + self.2.var_words(),
            );
            pay = pay + self.3.payload();
            assert(hdr =~= self.header(dist));
            assert(pay =~= self.payload());
        }
        Ok(())
    }
}

/// A record of four fields: how it is read. The view holds the views of all
/// the fields.
impl<
    'a,
    A0: Deserialize<'a>,
    A1: Deserialize<'a>,
    A2: Deserialize<'a>,
    A3: Deserialize<'a>,
> Deserialize<'a> for (A0, A1, A2, A3) {
    type RefType = (A0::RefType, A1::RefType, A2::RefType, A3::RefType);

    open spec fn spec_view_words() -> nat {
        A0::spec_view_words()
            + A1::spec_view_words()
            + A2::spec_view_words()
            + A3::spec_view_words()
    }

    open spec fn readable(words: Seq<u32>) -> bool {
        &&& A0::readable(words)
        &&& A0::spec_view_words() <= words.len()
        &&& A1::readable(words.skip(A0::spec_view_words() as int))
        &&& A0::spec_view_words() + A1::spec_view_words() <= words.len()
        &&& A2::readable(words.skip((A0::spec_view_words() + A1::spec_view_words()) as int))
        &&& A0::spec_view_words() + A1::spec_view_words() + A2::spec_view_words() <= words.len()
        &&& A3::readable(
            words.skip(
                (A0::spec_view_words() + A1::spec_view_words() + A2::spec_view_words()) as int,
            ),
        )
    }

    open spec fn decodable(words: Seq<u32>) -> bool {
        &&& A0::decodable(words)
        &&& A0::spec_view_words() <= words.len()
        &&& A1::decodable(words.skip(A0::spec_view_words() as int))
        &&& A0::spec_view_words() + A1::spec_view_words() <= words.len()
        &&& A2::decodable(words.skip((A0::spec_view_words() + A1::spec_view_words()) as int))
        &&& A0::spec_view_words() + A1::spec_view_words() + A2::spec_view_words() <= words.len()
        &&& A3::decodable(
            words.skip(
                (A0::spec_view_words() + A1::spec_view_words() + A2::spec_view_words()) as int,
            ),
        )
    }

    open spec fn decoded(words: Seq<u32>) -> <Self as DeepView>::V {
        (
            A0::decoded(words),
            A1::decoded(words.skip(A0::spec_view_words() as int)),
            A2::decoded(words.skip((A0::spec_view_words() + A1::spec_view_words()) as int)),
            A3::decoded(
                words.skip(
                    (A0::spec_view_words() + A1::spec_view_words() + A2::spec_view_words()) as int,
                ),
            ),
        )
    }

    open spec fn ref_ok(r: &Self::RefType) -> bool {
        A0::ref_ok(&r.0) && A1::ref_ok(&r.1) && A2::ref_ok(&r.2) && A3::ref_ok(&r.3)
    }

    open spec fn ref_model(r: &Self::RefType) -> <Self as DeepView>::V {
        (A0::ref_model(&r.0), A1::ref_model(&r.1), A2::ref_model(&r.2), A3::ref_model(&r.3))
    }

    proof fn lemma_decodable_readable(words: Seq<u32>) {
        A0::lemma_decodable_readable(words);
        A1::lemma_decodable_readable(words.skip(A0::spec_view_words() as int));
        A2::lemma_decodable_readable(
            words.skip((A0::spec_view_words() + A1::spec_view_words()) as int),
        );
        A3::lemma_decodable_readable(
            words.skip(
                (A0::spec_view_words() + A1::spec_view_words() + A2::spec_view_words()) as int,
            ),
        );
    }

    fn fixed_words() -> (n: usize) {
        A0::fixed_words() + A1::fixed_words() + A2::fixed_words() + A3::fixed_words()
    }

    fn deserialize_from(words: &'a [u32]) -> (r: Self::RefType) {
        assert(words.len() == words@.len());
        let r0 = A0::deserialize_from(words);
        let pos: usize = A0::fixed_words();
        let r1 = field_at::<A1>(words, pos);
        let pos: usize = pos + A1::fixed_words();
        let r2 = field_at::<A2>(words, pos);
        let pos: usize = pos + A2::fixed_words();
        let r3 = field_at::<A3>(words, pos);
        (r0, r1, r2, r3)
    }

    fn into_orig(val: Self::RefType) -> (v: Self) {
        (
            A0::into_orig(val.0),
            A1::into_orig(val.1),
            A2::into_orig(val.2),
            A3::into_orig(val.3),
        )
    }
}

/// A record of four fields: what is read is what was written.
impl<
    'a,
    A0: RoundTrip<'a>,
    A1: RoundTrip<'a>,
    A2: RoundTrip<'a>,
    A3: RoundTrip<'a>,
> RoundTrip<'a> for (A0, A1, A2, A3) {
    proof fn lemma_same_size() {
        A0::lemma_same_size();
        A1::lemma_same_size();
        A2::lemma_same_size();
        A3::lemma_same_size();
    }

    proof fn lemma_canonical(&self, other: &Self, dist: int) {
        self.0.lemma_canonical(&other.0, dist);
        self.1.lemma_canonical(
            &other.1,
            dist - <A0 as Serialize>::spec_fixed_words() + self.0.var_words(),
        );
        self.2.lemma_canonical(
            &other.2,
            dist - <A0 as Serialize>::spec_fixed_words() - <A1 as Serialize>::spec_fixed_words()
                + self.0.var_words() + self.1.var_words(),
        );
        self.3.lemma_canonical(
            &other.3,
            dist - <A0 as Serialize>::spec_fixed_words() - <A1 as Serialize>::spec_fixed_words() - <A2 as Serialize>::spec_fixed_words()
                + self.0.var_words() + self.1.var_words() + self.2.var_words(),
        );
    }

    proof fn lemma_round_trip(&self, words: Seq<u32>, dist: int) {
        A0::lemma_same_size();
        A1::lemma_same_size();
        A2::lemma_same_size();
        A3::lemma_same_size();
        self.lemma_sizes(dist);
        let fixed = <Self as Serialize>::spec_fixed_words();
        let var = self.var_words();
        let head = words.subrange(0, fixed as int);
        let tail = words.subrange(dist, dist + var);
        let o0 = 0int;
        let c0 = 0int;
        let d0 = dist - o0 + c0;
        let w0 = words.skip(o0);
        self.0.lemma_sizes(d0);
        let o1 = (<A0 as Serialize>::spec_fixed_words()) as int;
        let c1 = (self.0.var_words()) as int;
        let d1 = dist - o1 + c1;
        let w1 = words.skip(o1);
        self.1.lemma_sizes(d1);
        let o2 = (<A0 as Serialize>::spec_fixed_words() + <A1 as Serialize>::spec_fixed_words()) as int;
        let c2 = (self.0.var_words() + self.1.var_words()) as int;
        let d2 = dist - o2 + c2;
        let w2 = words.skip(o2);
        self.2.lemma_sizes(d2);
        let o3 = (<A0 as Serialize>::spec_fixed_words() + <A1 as Serialize>::spec_fixed_words()
            + <A2 as Serialize>::spec_fixed_words()) as int;
        let c3 = (self.0.var_words() + self.1.var_words() + self.2.var_words()) as int;
        let d3 = dist - o3 + c3;
        let w3 = words.skip(o3);
        self.3.lemma_sizes(d3);
        let f0 = <A0 as Serialize>::spec_fixed_words() as int;
        let v0 = self.0.var_words() as int;
        assert(w0.subrange(0, f0) =~= head.subrange(o0, o0 + f0));
        assert(head.subrange(o0, o0 + f0) =~= self.0.header(d0));
        assert(w0.subrange(d0, d0 + v0) =~= tail.subrange(c0, c0 + v0));
        assert(tail.subrange(c0, c0 + v0) =~= self.0.payload());
        self.0.lemma_round_trip(w0, d0);
        let f1 = <A1 as Serialize>::spec_fixed_words() as int;
        let v1 = self.1.var_words() as int;
        assert(w1.subrange(0, f1) =~= head.subrange(o1, o1 + f1));
        assert(head.subrange(o1, o1 + f1) =~= self.1.header(d1));
        assert(w1.subrange(d1, d1 + v1) =~= tail.subrange(c1, c1 + v1));
        assert(tail.subrange(c1, c1 + v1) =~= self.1.payload());
        self.1.lemma_round_trip(w1, d1);
        let f2 = <A2 as Serialize>::spec_fixed_words() as int;
        let v2 = self.2.var_words() as int;
        assert(w2.subrange(0, f2) =~= head.subrange(o2, o2 + f2));
        assert(head.subrange(o2, o2 + f2) =~= self.2.header(d2));
        assert(w2.subrange(d2, d2 + v2) =~= tail.subrange(c2, c2 + v2));
        assert(tail.subrange(c2, c2 + v2) =~= self.2.payload());
        self.2.lemma_round_trip(w2, d2);
        let f3 = <A3 as Serialize>::spec_fixed_words() as int;
        let v3 = self.3.var_words() as int;
        assert(w3.subrange(0, f3) =~= head.subrange(o3, o3 + f3));
        assert(head.subrange(o3, o3 + f3) =~= self.3.header(d3));
        assert(w3.subrange(d3, d3 + v3) =~= tail.subrange(c3, c3 + v3));
        assert(tail.subrange(c3, c3 + v3) =~= self.3.payload());
        self.3.lemma_round_trip(w3, d3);
        assert(w0 =~= words);
    }
}

/// A record of five fields: how it is written.
impl<
    A0: Serialize,
    A1: Serialize,
    A2: Serialize,
    A3: Serialize,
    A4: Serialize,
> Serialize for (A0, A1, A2, A3, A4) {
    open spec fn spec_fixed_words() -> nat {
        A0::spec_fixed_words()
            + A1::spec_fixed_words()
            + A2::spec_fixed_words()
            + A3::spec_fixed_words()
            + A4::spec_fixed_words()
    }

    open spec fn var_words(&self) -> nat {
        self.0.var_words()
            + self.1.var_words()
            + self.2.var_words()
            + self.3.var_words()
            + self.4.var_words()
    }

    open spec fn fits(&self) -> bool {
        self.0.fits() && self.1.fits() && self.2.fits() && self.3.fits() && self.4.fits()
    }

    open spec fn header(&self, dist: int) -> Seq<u32> {
        self.0.header(dist)
            + self.1.header(dist - A0::spec_fixed_words() + self.0.var_words())
            + self.2.header(
                dist - A0::spec_fixed_words() - A1::spec_fixed_words()
                    + self.0.var_words() + self.1.var_words(),
            )
            + self.3.header(
                dist - A0::spec_fixed_words() - A1::spec_fixed_words() - A2::spec_fixed_words()
                    + self.0.var_words() + self.1.var_words() + self.2.var_words(),
            )
            + self.4.header(
                dist - A0::spec_fixed_words() - A1::spec_fixed_words() - A2::spec_fixed_words() - A3::spec_fixed_words()
                    + self.0.var_words() + self.1.var_words() + self.2.var_words() + self.3.var_words(),
            )
    }

    open spec fn payload(&self) -> Seq<u32> {
        self.0.payload()
            + self.1.payload()
            + self.2.payload()
            + self.3.payload()
            + self.4.payload()
    }

    proof fn lemma_sizes(&self, dist: int) {
        self.0.lemma_sizes(dist);
        self.1.lemma_sizes(dist - A0::spec_fixed_words() + self.0.var_words());
        self.2.lemma_sizes(
            dist - A0::spec_fixed_words() - A1::spec_fixed_words()
                + self.0.var_words() + self.1.var_words(),
        );
        self.3.lemma_sizes(
            dist - A0::spec_fixed_words() - A1::spec_fixed_words() - A2::spec_fixed_words()
                + self.0.var_words() + self.1.var_words() + self.2.var_words(),
        );
        self.4.lemma_sizes(
            dist - A0::spec_fixed_words() - A1::spec_fixed_words() - A2::spec_fixed_words() - A3::spec_fixed_words()
                + self.0.var_words() + self.1.var_words() + self.2.var_words() + self.3.var_words(),
        );
    }

    fn fixed_words() -> (n: usize) {
        A0::fixed_words()
            + A1::fixed_words()
            + A2::fixed_words()
            + A3::fixed_words()
            + A4::fixed_words()
    }

    fn tot_len(&self) -> (n: usize) {
        self.0.tot_len()
            + self.1.tot_len()
            + self.2.tot_len()
            + self.3.tot_len()
            + self.4.tot_len()
    }

    fn fill(&self, buf: &AllocBuf, a: &mut Alloc) -> (res: Result<(), GuestioError>) {
        let ghost before = a.words();
        let ghost base = a.used();
        let ghost dist = a.used() - buf.start();
        let ghost mut hdr: Seq<u32> = Seq::empty();
        let ghost mut pay: Seq<u32> = Seq::empty();
        let pos: usize = 0;
        proof {
            self.lemma_sizes(dist);
            self.0.lemma_sizes(dist);
            self.1.lemma_sizes(dist - A0::spec_fixed_words() + self.0.var_words());
            self.2.lemma_sizes(
                dist - A0::spec_fixed_words() - A1::spec_fixed_words()
                    + self.0.var_words() + self.1.var_words(),
            );
            self.3.lemma_sizes(
                dist - A0::spec_fixed_words() - A1::spec_fixed_words() - A2::spec_fixed_words()
                    + self.0.var_words() + self.1.var_words() + self.2.var_words(),
            );
            self.4.lemma_sizes(
                dist - A0::spec_fixed_words() - A1::spec_fixed_words() - A2::spec_fixed_words() - A3::spec_fixed_words()
                    + self.0.var_words() + self.1.var_words() + self.2.var_words() + self.3.var_words(),
            );
            assert(a.words() =~= splice(splice(before, buf.start() as int, hdr), base as int, pay));
        }
        fill_field(&self.0, buf, pos, a, Ghost(before), Ghost(base), Ghost(hdr), Ghost(pay))?;
        proof {
            hdr = hdr + self.0.header(dist);
            pay = pay + self.0.payload();
        }
        let pos: usize = pos + A0::fixed_words();
        fill_field(&self.1, buf, pos, a, Ghost(before), Ghost(base), Ghost(hdr), Ghost(pay))?;
        proof {
            hdr = hdr + self.1.header(dist - A0::spec_fixed_words() + self.0.var_words());
            pay = pay + self.1.payload();
        }
        let pos: usize = pos + A1::fixed_words();
        fill_field(&self.2, buf, pos, a, Ghost(before), Ghost(base), Ghost(hdr), Ghost(pay))?;
        proof {
            hdr = hdr + self.2.header(
                dist - A0::spec_fixed_words() - A1::spec_fixed_words()
                    + self.0.var_words() + self.1.var_words(),
            );
            pay = pay + self.2.payload();
        }
        let pos: usize = pos + A2::fixed_words();
        fill_field(&self.3, buf, pos, a, Ghost(before), Ghost(base), Ghost(hdr), Ghost(pay))?;
        proof {
            hdr = hdr + self.3.header(
                dist - A0::spec_fixed_words() - A1::spec_fixed_words() - A2::spec_fixed_words()
                    + self.0.var_words() + self.1.var_words() + self.2.var_words(),
            );
            pay = pay + self.3.payload();
        }
        let pos: usize = pos + A3::fixed_words();
        fill_field(&self.4, buf, pos, a, Ghost(before), Ghost(base), Ghost(hdr), Ghost(pay))?;
        proof {
            hdr = hdr + self.4.header(
                dist - A0::spec_fixed_words() - A1::spec_fixed_words() - A2::spec_fixed_words() - A3::spec_fixed_words()
                    + self.0.var_words() + self.1.var_words() + self.2.var_words() + self.3.var_words(),
            );
            pay = pay + self.4.payload();
            assert(hdr =~= self.header(dist));
            assert(pay =~= self.payload());
        }
        Ok(())
    }
}

/// A record of five fields: how it is read. The view holds the views of all
/// the fields.
impl<
    'a,
    A0: Deserialize<'a>,
    A1: Deserialize<'a>,
    A2: Deserialize<'a>,
    A3: Deserialize<'a>,
    A4: Deserialize<'a>,
> Deserialize<'a> for (A0, A1, A2, A3, A4) {
    type RefType = (A0::RefType, A1::RefType, A2::RefType, A3::RefType, A4::RefType);

    open spec fn spec_view_words() -> nat {
        A0::spec_view_words()
            + A1::spec_view_words()
            + A2::spec_view_words()
            + A3::spec_view_words()
            + A4::spec_view_words()
    }

    open spec fn readable(words: Seq<u32>) -> bool {
        &&& A0::readable(words)
        &&& A0::spec_view_words() <= words.len()
        &&& A1::readable(words.skip(A0::spec_view_words() as int))
        &&& A0::spec_view_words() + A1::spec_view_words() <= words.len()
        &&& A2::readable(words.skip((A0::spec_view_words() + A1::spec_view_words()) as int))
        &&& A0::spec_view_words() + A1::spec_view_words() + A2::spec_view_words() <= words.len()
        &&& A3::readable(
            words.skip(
                (A0::spec_view_words() + A1::spec_view_words() + A2::spec_view_words()) as int,
            ),
        )
        &&& A0::spec_view_words() + A1::spec_view_words() + A2::spec_view_words() + A3::spec_view_words() <= words.len()
        &&& A4::readable(
            words.skip(
                (A0::spec_view_words() + A1::spec_view_words()
                    + A2::spec_view_words() + A3::spec_view_words()) as int,
            ),
        )
    }

    open spec fn decodable(words: Seq<u32>) -> bool {
        &&& A0::decodable(words)
        &&& A0::spec_view_words() <= words.len()
        &&& A1::decodable(words.skip(A0::spec_view_words() as int))
        &&& A0::spec_view_words() + A1::spec_view_words() <= words.len()
        &&& A2::decodable(words.skip((A0::spec_view_words() + A1::spec_view_words()) as int))
        &&& A0::spec_view_words() + A1::spec_view_words() + A2::spec_view_words() <= words.len()
        &&& A3::decodable(
            words.skip(
                (A0::spec_view_words() + A1::spec_view_words() + A2::spec_view_words()) as int,
            ),
        )
        &&& A0::spec_view_words() + A1::spec_view_words() + A2::spec_view_words() + A3::spec_view_words() <= words.len()
        &&& A4::decodable(
            words.skip(
                (A0::spec_view_words() + A1::spec_view_words()
                    + A2::spec_view_words() + A3::spec_view_words()) as int,
            ),
        )
    }

    open spec fn decoded(words: Seq<u32>) -> <Self as DeepView>::V {
        (
            A0::decoded(words),
            A1::decoded(words.skip(A0::spec_view_words() as int)),
            A2::decoded(words.skip((A0::spec_view_words() + A1::spec_view_words()) as int)),
            A3::decoded(
                words.skip(
                    (A0::spec_view_words() + A1::spec_view_words() + A2::spec_view_words()) as int,
                ),
            ),
            A4::decoded(
                words.skip(
                    (A0::spec_view_words() + A1::spec_view_words()
                        + A2::spec_view_words() + A3::spec_view_words()) as int,
                ),
            ),
        )
    }

    open spec fn ref_ok(r: &Self::RefType) -> bool {
        A0::ref_ok(&r.0)
            && A1::ref_ok(&r.1)
            && A2::ref_ok(&r.2)
            && A3::ref_ok(&r.3)
            && A4::ref_ok(&r.4)
    }

    open spec fn ref_model(r: &Self::RefType) -> <Self as DeepView>::V {
        (A0::ref_model(&r.0), A1::ref_model(&r.1), A2::ref_model(&r.2), A3::ref_model(&r.3), A4::ref_model(&r.4))
    }

    proof fn lemma_decodable_readable(words: Seq<u32>) {
        A0::lemma_decodable_readable(words);
        A1::lemma_decodable_readable(words.skip(A0::spec_view_words() as int));
        A2::lemma_decodable_readable(
            words.skip((A0::spec_view_words() + A1::spec_view_words()) as int),
        );
        A3::lemma_decodable_readable(
            words.skip(
                (A0::spec_view_words() + A1::spec_view_words() + A2::spec_view_words()) as int,
            ),
        );
        A4::lemma_decodable_readable(
            words.skip(
                (A0::spec_view_words() + A1::spec_view_words()
                    + A2::spec_view_words() + A3::spec_view_words()) as int,
            ),
        );
    }

    fn fixed_words() -> (n: usize) {
        A0::fixed_words()
            + A1::fixed_words()
            + A2::fixed_words()
            + A3::fixed_words()
            + A4::fixed_words()
    }

    fn deserialize_from(words: &'a [u32]) -> (r: Self::RefType) {
        assert(words.len() == words@.len());
        let r0 = A0::deserialize_from(words);
        let pos: usize = A0::fixed_words();
        let r1 = field_at::<A1>(words, pos);
        let pos: usize = pos + A1::fixed_words();
        let r2 = field_at::<A2>(words, pos);
        let pos: usize = pos + A2::fixed_words();
        let r3 = field_at::<A3>(words, pos);
        let pos: usize = pos + A3::fixed_words();
        let r4 = field_at::<A4>(words, pos);
        (r0, r1, r2, r3, r4)
    }

    fn into_orig(val: Self::RefType) -> (v: Self) {
        (
            A0::into_orig(val.0),
            A1::into_orig(val.1),
            A2::into_orig(val.2),
            A3::into_orig(val.3),
            A4::into_orig(val.4),
        )
    }
}

/// A record of five fields: what is read is what was written.
impl<
    'a,
    A0: RoundTrip<'a>,
    A1: RoundTrip<'a>,
    A2: RoundTrip<'a>,
    A3: RoundTrip<'a>,
    A4: RoundTrip<'a>,
> RoundTrip<'a> for (A0, A1, A2, A3, A4) {
    proof fn lemma_same_size() {
        A0::lemma_same_size();
        A1::lemma_same_size();
        A2::lemma_same_size();
        A3::lemma_same_size();
        A4::lemma_same_size();
    }

    proof fn lemma_canonical(&self, other: &Self, dist: int) {
        self.0.lemma_canonical(&other.0, dist);
        self.1.lemma_canonical(
            &other.1,
            dist - <A0 as Serialize>::spec_fixed_words() + self.0.var_words(),
        );
        self.2.lemma_canonical(
            &other.2,
            dist - <A0 as Serialize>::spec_fixed_words() - <A1 as Serialize>::spec_fixed_words()
                + self.0.var_words() + self.1.var_words(),
        );
        self.3.lemma_canonical(
            &other.3,
            dist - <A0 as Serialize>::spec_fixed_words() - <A1 as Serialize>::spec_fixed_words() - <A2 as Serialize>::spec_fixed_words()
                + self.0.var_words() + self.1.var_words() + self.2.var_words(),
        );
        self.4.lemma_canonical(
            &other.4,
            dist - <A0 as Serialize>::spec_fixed_words() - <A1 as Serialize>::spec_fixed_words() - <A2 as Serialize>::spec_fixed_words() - <A3 as Serialize>::spec_fixed_words()
                + self.0.var_words() + self.1.var_words() + self.2.var_words() + self.3.var_words(),
        );
    }

    proof fn lemma_round_trip(&self, words: Seq<u32>, dist: int) {
        A0::lemma_same_size();
        A1::lemma_same_size();
        A2::lemma_same_size();
        A3::lemma_same_size();
        A4::lemma_same_size();
        self.lemma_sizes(dist);
        let fixed = <Self as Serialize>::spec_fixed_words();
        let var = self.var_words();
        let head = words.subrange(0, fixed as int);
        let tail = words.subrange(dist, dist + var);
        let o0 = 0int;
        let c0 = 0int;
        let d0 = dist - o0 + c0;
        let w0 = words.skip(o0);
        self.0.lemma_sizes(d0);
        let o1 = (<A0 as Serialize>::spec_fixed_words()) as int;
        let c1 = (self.0.var_words()) as int;
        let d1 = dist - o1 + c1;
        let w1 = words.skip(o1);
        self.1.lemma_sizes(d1);
        let o2 = (<A0 as Serialize>::spec_fixed_words() + <A1 as Serialize>::spec_fixed_words()) as int;
        let c2 = (self.0.var_words() + self.1.var_words()) as int;
        let d2 = dist - o2 + c2;
        let w2 = words.skip(o2);
        self.2.lemma_sizes(d2);
        let o3 = (<A0 as Serialize>::spec_fixed_words() + <A1 as Serialize>::spec_fixed_words()
            + <A2 as Serialize>::spec_fixed_words()) as int;
        let c3 = (self.0.var_words() + self.1.var_words() + self.2.var_words()) as int;
        let d3 = dist - o3 + c3;
        let w3 = words.skip(o3);
        self.3.lemma_sizes(d3);
        let o4 = (<A0 as Serialize>::spec_fixed_words() + <A1 as Serialize>::spec_fixed_words()
            + <A2 as Serialize>::spec_fixed_words() + <A3 as Serialize>::spec_fixed_words()) as int;
        let c4 = (self.0.var_words() + self.1.var_words() + self.2.var_words()
            + self.3.var_words()) as int;
        let d4 = dist - o4 + c4;
        let w4 = words.skip(o4);
        self.4.lemma_sizes(d4);
        let f0 = <A0 as Serialize>::spec_fixed_words() as int;
        let v0 = self.0.var_words() as int;
        assert(w0.subrange(0, f0) =~= head.subrange(o0, o0 + f0));
        assert(head.subrange(o0, o0 + f0) =~= self.0.header(d0));
        assert(w0.subrange(d0, d0 + v0) =~= tail.subrange(c0, c0 + v0));
        assert(tail.subrange(c0, c0 + v0) =~= self.0.payload());
        self.0.lemma_round_trip(w0, d0);
        let f1 = <A1 as Serialize>::spec_fixed_words() as int;
        let v1 = self.1.var_words() as int;
        assert(w1.subrange(0, f1) =~= head.subrange(o1, o1 + f1));
        assert(head.subrange(o1, o1 + f1) =~= self.1.header(d1));
        assert(w1.subrange(d1, d1 + v1) =~= tail.subrange(c1, c1 + v1));
        assert(tail.subrange(c1, c1 + v1) =~= self.1.payload());
        self.1.lemma_round_trip(w1, d1);
        let f2 = <A2 as Serialize>::spec_fixed_words() as int;
        let v2 = self.2.var_words() as int;
        assert(w2.subrange(0, f2) =~= head.subrange(o2, o2 + f2));
        assert(head.subrange(o2, o2 + f2) =~= self.2.header(d2));
        assert(w2.subrange(d2, d2 + v2) =~= tail.subrange(c2, c2 + v2));
        assert(tail.subrange(c2, c2 + v2) =~= self.2.payload());
        self.2.lemma_round_trip(w2, d2);
        let f3 = <A3 as Serialize>::spec_fixed_words() as int;
        let v3 = self.3.var_words() as int;
        assert(w3.subrange(0, f3) =~= head.subrange(o3, o3 + f3));
        assert(head.subrange(o3, o3 + f3) =~= self.3.header(d3));
        assert(w3.subrange(d3, d3 + v3) =~= tail.subrange(c3, c3 + v3));
        assert(tail.subrange(c3, c3 + v3) =~= self.3.payload());
        self.3.lemma_round_trip(w3, d3);
        let f4 = <A4 as Serialize>::spec_fixed_words() as int;
        let v4 = self.4.var_words() as int;
        assert(w4.subrange(0, f4) =~= head.subrange(o4, o4 + f4));
        assert(head.subrange(o4, o4 + f4) =~= self.4.header(d4));
        assert(w4.subrange(d4, d4 + v4) =~= tail.subrange(c4, c4 + v4));
        assert(tail.subrange(c4, c4 + v4) =~= self.4.payload());
        self.4.lemma_round_trip(w4, d4);
        assert(w0 =~= words);
    }
}

} // verus!
