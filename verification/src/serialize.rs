//! The write path: the arena that hands out windows of the buffer, and the
//! rules by which each kind of value fills its fixed region and its payload.
use vstd::prelude::*;
use crate::GuestioError;
use crate::spec_pad_words;
use crate::pad_words;
use crate::PAD_WORDS;
use crate::align_bytes_to_words;
use crate::spec_align_bytes_to_words;
use crate::util::as_words_padded;
use crate::util::words_padded;
use vstd::utf8::encode_utf8;

verus! {

/// `mem` with `data` written over it from index `at` on.
pub open spec fn splice(mem: Seq<u32>, at: int, data: Seq<u32>) -> Seq<u32> {
    Seq::new(
        mem.len(),
        |k: int|
            if at <= k < at + data.len() {
                data[k - at]
            } else {
                mem[k]
            },
    )
}

/// A forward-only allocator over one word buffer. It owns the buffer and
/// counts the words it has handed out; the windows it hands out are ranges of
/// indices into it.
pub struct Alloc {
    buf: Vec<u32>,
    base: usize,
}

/// A window of an arena's buffer, known by the index of its first word in the
/// buffer and by its length.
#[derive(Clone, Copy, Debug)]
pub struct AllocBuf {
    base: usize,
    len: usize,
}

impl Alloc {
    /// Every word of the buffer, handed out or not.
    pub closed spec fn words(&self) -> Seq<u32> {
        self.buf@
    }

    /// The number of words handed out so far: the index of the next window.
    pub closed spec fn used(&self) -> nat {
        self.base as nat
    }

    /// No more was handed out than there is.
    pub open spec fn wf(&self) -> bool {
        self.used() <= self.words().len()
    }

    /// The words not handed out yet.
    pub open spec fn remaining(&self) -> nat {
        (self.words().len() - self.used()) as nat
    }

    /// An arena over `words` zero words, none of them handed out.
    pub fn new(words: usize) -> (a: Alloc)
        ensures
            a.wf(),
            a.used() == 0,
            a.words() == Seq::new(words as nat, |k: int| 0u32),
    {
        let buf: Vec<u32> = vec![0u32; words];
        Alloc { buf, base: 0 }
    }

    /// Hands out the next `words` words, or fails and hands out nothing where
    /// fewer are left.
    pub fn allocate(&mut self, words: usize) -> (res: Result<AllocBuf, GuestioError>)
        requires
            old(self).wf(),
        ensures
            final(self).wf(),
            final(self).words() == old(self).words(),
            res is Ok <==> words <= old(self).remaining(),
            res is Ok ==> res.unwrap().start() == old(self).used() && res.unwrap().size() == words
                && final(self).used() == old(self).used() + words,
            res is Err ==> res == Err::<AllocBuf, GuestioError>(
                GuestioError::AllocationSizeMismatch,
            ) && final(self).used() == old(self).used(),
    {
        if self.buf.len() - self.base < words {
            return Err(GuestioError::AllocationSizeMismatch);
        }
        let old_base: usize = self.base;
        self.base = old_base + words;
        Ok(AllocBuf { base: old_base, len: words })
    }

    /// Gives the buffer up, as it was filled.
    pub fn into_words(self) -> (words: Vec<u32>)
        ensures
            words@ == self.words(),
    {
        self.buf
    }
}

impl AllocBuf {
    /// Index in the arena's buffer of the window's first word.
    pub closed spec fn start(&self) -> nat {
        self.base as nat
    }

    /// The number of words in the window.
    pub closed spec fn size(&self) -> nat {
        self.len as nat
    }

    /// The window ends within the address space.
    #[verifier::type_invariant]
    pub closed spec fn inv(&self) -> bool {
        self.base + self.len <= usize::MAX
    }

    /// The window lies within what `a` has handed out.
    pub open spec fn within(&self, a: &Alloc) -> bool {
        self.start() + self.size() <= a.used()
    }

    /// The window's length.
    pub fn len(&self) -> (n: usize)
        ensures
            n == self.size(),
    {
        self.len
    }

    /// Narrows the window to the `len` words from `offset` on. Fails with a
    /// fill overrun where those do not lie inside the window.
    pub fn descend(&self, offset: usize, len: usize) -> (res: Result<AllocBuf, GuestioError>)
        ensures
            res is Ok <==> offset + len <= self.size(),
            res is Ok ==> res.unwrap().start() == self.start() + offset && res.unwrap().size()
                == len,
            res is Err ==> res == Err::<AllocBuf, GuestioError>(GuestioError::FillOverrun),
    {
        proof {
            use_type_invariant(self);
        }
        if offset > self.len || len > self.len - offset {
            return Err(GuestioError::FillOverrun);
        }
        Ok(AllocBuf { base: self.base + offset, len })
    }

    /// Writes `val` over the whole window. Fails with a fill overrun, and
    /// writes nothing, where the window is not `N` words long or `a` has not
    /// handed it out.
    pub fn fill_from<const N: usize>(&self, a: &mut Alloc, val: [u32; N]) -> (res: Result<
        (),
        GuestioError,
    >)
        requires
            old(a).wf(),
        ensures
            final(a).wf(),
            final(a).used() == old(a).used(),
            res is Ok <==> self.size() == N && self.within(old(a)),
            res is Ok ==> final(a).words() == splice(old(a).words(), self.start() as int, val@),
            res is Err ==> res == Err::<(), GuestioError>(GuestioError::FillOverrun),
            res is Err ==> final(a).words() == old(a).words(),
    {
        proof {
            use_type_invariant(self);
        }
        if self.len != N || self.base + self.len > a.base {
            return Err(GuestioError::FillOverrun);
        }
        let mut i: usize = 0;
        while i < N
            invariant
                i <= N,
                self.len == N,
                self.base + self.len <= a.base,
                a.base == old(a).base,
                a.base <= a.buf@.len(),
                a.buf@.len() == old(a).buf@.len(),
                forall|k: int|
                    0 <= k < a.buf@.len() ==> a.buf@[k] == if self.base <= k < self.base + i {
                        val@[k - self.base]
                    } else {
                        old(a).buf@[k]
                    },
            decreases N - i,
        {
            a.buf.set(self.base + i, val[i]);
            i += 1;
        }
        Ok(())
    }

    /// The words of the window, to be written in place. Fails with a fill
    /// overrun where the window is not `len` words long or `a` has not handed
    /// it out.
    pub fn buf<'b>(&self, a: &'b mut Alloc, len: usize) -> (res: Result<
        &'b mut [u32],
        GuestioError,
    >)
        requires
            old(a).wf(),
        ensures
            res is Ok <==> self.size() == len && self.within(old(a)),
            res is Ok ==> res.unwrap()@ == old(a).words().subrange(
                self.start() as int,
                (self.start() + self.size()) as int,
            ),
            res is Ok ==> final(a).used() == old(a).used(),
            res is Ok ==> final(a).words() == old(a).words().subrange(0, self.start() as int)
                + final(res.unwrap())@
                + old(a).words().subrange(
                (self.start() + self.size()) as int,
                old(a).words().len() as int,
            ),
            res is Err ==> res == Err::<&'b mut [u32], GuestioError>(GuestioError::FillOverrun),
            res is Err ==> *final(a) == *old(a),
    {
        proof {
            use_type_invariant(self);
        }
        if self.len != len || self.base + self.len > a.base {
            return Err(GuestioError::FillOverrun);
        }
        let all: &mut [u32] = a.buf.as_mut_slice();
        let (_, tail) = all.split_at_mut(self.base);
        let (window, _) = tail.split_at_mut(len);
        Ok(window)
    }

    /// The words from this window's start to the start of `self`, which lies
    /// at or after it.
    pub fn rel_ptr_from(&self, other: &AllocBuf) -> (rel: u32)
        requires
            other.start() <= self.start(),
            self.start() - other.start() <= u32::MAX,
        ensures
            rel == self.start() - other.start(),
    {
        (self.base - other.base) as u32
    }
}

/// A value that can be written into a word buffer.
///
/// The fixed region of a value is `spec_fixed_words()` words long whatever
/// the value holds. Its words are `header(dist)`, where `dist` is the
/// distance in words from the region's first word to the first word that the
/// arena had not handed out when the fill began. What the value adds to the
/// arena is `payload()`, `var_words()` words long. Offsets are relative, so
/// neither depends on where in the buffer the value lies.
pub trait Serialize: Sized {
    /// Length of the fixed region, in words.
    spec fn spec_fixed_words() -> nat;

    /// Length of what the value appends to the arena, in words.
    spec fn var_words(&self) -> nat;

    /// Every length that the value stores fits in a word.
    spec fn fits(&self) -> bool;

    /// The words of the fixed region.
    spec fn header(&self, dist: int) -> Seq<u32>;

    /// The words that the value appends to the arena.
    spec fn payload(&self) -> Seq<u32>;

    /// Header and payload have the lengths that the sizes announce.
    proof fn lemma_sizes(&self, dist: int)
        ensures
            self.header(dist).len() == Self::spec_fixed_words(),
            self.payload().len() == self.var_words(),
    ;

    /// Length of the fixed region, in words.
    fn fixed_words() -> (n: usize)
        requires
            Self::spec_fixed_words() <= usize::MAX,
        ensures
            n == Self::spec_fixed_words(),
    ;

    /// Length of the whole encoding, in words: fixed region and payload.
    fn tot_len(&self) -> (n: usize)
        requires
            Self::spec_fixed_words() + self.var_words() <= usize::MAX,
        ensures
            n == Self::spec_fixed_words() + self.var_words(),
    ;

    /// Writes the fixed region into the window `buf` and appends the payload
    /// to the arena. Into a window of just the size of the fixed region it
    /// fails, with an allocation size mismatch, exactly where the arena has
    /// fewer words left than the payload takes. Into a window that is too
    /// short it fails with a fill overrun, unless the arena runs out first.
    fn fill(&self, buf: &AllocBuf, a: &mut Alloc) -> (res: Result<(), GuestioError>)
        requires
            old(a).wf(),
            old(a).words().len() <= u32::MAX,
            Self::spec_fixed_words() <= usize::MAX,
            self.fits(),
            buf.within(old(a)),
        ensures
            final(a).wf(),
            final(a).words().len() == old(a).words().len(),
            buf.size() == Self::spec_fixed_words()
                ==> (res is Ok <==> self.var_words() <= old(a).remaining()),
            buf.size() == Self::spec_fixed_words() && res is Err
                ==> res == Err::<(), GuestioError>(GuestioError::AllocationSizeMismatch),
            buf.size() < Self::spec_fixed_words() && self.var_words() <= old(a).remaining()
                ==> res == Err::<(), GuestioError>(GuestioError::FillOverrun),
            res is Ok ==> buf.size() >= Self::spec_fixed_words(),
            res is Ok ==> self.var_words() <= old(a).remaining(),
            res is Ok ==> final(a).used() == old(a).used() + self.var_words(),
            res is Ok ==> final(a).words() =~= splice(
                splice(
                    old(a).words(),
                    buf.start() as int,
                    self.header(old(a).used() - buf.start()),
                ),
                old(a).used() as int,
                self.payload(),
            ),
    ;
}

/// The whole encoding of `val`: its fixed region at the front, its payload
/// behind it, and zero words up to the padded length. The last word is always
/// one of these zeros: it is the index of the root in the buffer.
pub open spec fn encoded<T: Serialize>(val: &T) -> Seq<u32> {
    let fixed = T::spec_fixed_words();
    let tot = fixed + val.var_words();
    Seq::new(
        spec_pad_words(tot),
        |k: int|
            if k < fixed {
                val.header(fixed as int)[k]
            } else if k < tot {
                val.payload()[k - fixed]
            } else {
                0u32
            },
    )
}

/// Encodes `val` into a fresh buffer.
pub fn serialize<T: Serialize>(val: &T) -> (res: Result<Vec<u32>, GuestioError>)
    requires
        val.fits(),
        spec_pad_words(T::spec_fixed_words() + val.var_words()) <= u32::MAX,
    ensures
        res is Ok,
        res.unwrap()@ == encoded(val),
        res.unwrap()@.len() % PAD_WORDS as nat == 0,
        res.unwrap()@[res.unwrap()@.len() - 1] == 0u32,
{
    proof {
        val.lemma_sizes(T::spec_fixed_words() as int);
    }
    let tot_len: usize = val.tot_len();
    let padded: usize = match pad_words(tot_len) {
        Some(p) => p,
        None => { return Err(GuestioError::AllocationSizeMismatch); },
    };
    let mut arena = Alloc::new(tot_len);
    let fixed = arena.allocate(T::fixed_words())?;
    val.fill(&fixed, &mut arena)?;
    let mut buf: Vec<u32> = arena.into_words();
    let ghost filled = buf@;
    while buf.len() < padded
        invariant
            filled.len() <= buf@.len() <= padded,
            forall|k: int| 0 <= k < filled.len() ==> buf@[k] == filled[k],
            forall|k: int| filled.len() <= k < buf@.len() ==> buf@[k] == 0u32,
        decreases padded - buf@.len(),
    {
        buf.push(0u32);
    }
    proof {
        let fixed = T::spec_fixed_words();
        let tot = fixed + val.var_words();
        crate::lemma_pad_words(tot);
        assert forall|k: int| 0 <= k < buf@.len() implies buf@[k] == encoded(val)[k] by {
            if k < tot {
                assert(buf@[k] == filled[k]);
            }
        }
    }
    Ok(buf)
}

impl Serialize for u32 {
    open spec fn spec_fixed_words() -> nat {
        1
    }

    open spec fn var_words(&self) -> nat {
        0
    }

    open spec fn fits(&self) -> bool {
        true
    }

    open spec fn header(&self, dist: int) -> Seq<u32> {
        seq![*self]
    }

    open spec fn payload(&self) -> Seq<u32> {
        Seq::empty()
    }

    proof fn lemma_sizes(&self, dist: int) {
    }

    fn fixed_words() -> (n: usize) {
        1
    }

    fn tot_len(&self) -> (n: usize) {
        1
    }

    fn fill(&self, buf: &AllocBuf, a: &mut Alloc) -> (res: Result<(), GuestioError>) {
        buf.fill_from(a, [*self])
    }
}

impl Serialize for () {
    open spec fn spec_fixed_words() -> nat {
        0
    }

    open spec fn var_words(&self) -> nat {
        0
    }

    open spec fn fits(&self) -> bool {
        true
    }

    open spec fn header(&self, dist: int) -> Seq<u32> {
        Seq::empty()
    }

    open spec fn payload(&self) -> Seq<u32> {
        Seq::empty()
    }

    proof fn lemma_sizes(&self, dist: int) {
    }

    fn fixed_words() -> (n: usize) {
        0
    }

    fn tot_len(&self) -> (n: usize) {
        0
    }

    fn fill(&self, buf: &AllocBuf, a: &mut Alloc) -> (res: Result<(), GuestioError>) {
        Ok(())
    }
}

impl<T: Serialize> Serialize for Option<T> {
    open spec fn spec_fixed_words() -> nat {
        1
    }

    open spec fn var_words(&self) -> nat {
        match self {
            None => 0,
            Some(val) => T::spec_fixed_words() + val.var_words(),
        }
    }

    open spec fn fits(&self) -> bool {
        match self {
            None => true,
            Some(val) => T::spec_fixed_words() <= usize::MAX && val.fits(),
        }
    }

    open spec fn header(&self, dist: int) -> Seq<u32> {
        match self {
            None => seq![0u32],
            Some(val) => seq![dist as u32],
        }
    }

    open spec fn payload(&self) -> Seq<u32> {
        match self {
            None => Seq::empty(),
            Some(val) => val.header(T::spec_fixed_words() as int) + val.payload(),
        }
    }

    proof fn lemma_sizes(&self, dist: int) {
        match self {
            None => {},
            Some(val) => {
                val.lemma_sizes(T::spec_fixed_words() as int);
            },
        }
    }

    fn fixed_words() -> (n: usize) {
        1
    }

    fn tot_len(&self) -> (n: usize) {
        match self {
            None => 1,
            Some(val) => 1 + val.tot_len(),
        }
    }

    fn fill(&self, buf: &AllocBuf, a: &mut Alloc) -> (res: Result<(), GuestioError>) {
        match self {
            None => {
                buf.fill_from(a, [0u32])
            },
            Some(val) => {
                proof {
                    val.lemma_sizes(T::spec_fixed_words() as int);
                }
                let sub_buf = a.allocate(T::fixed_words())?;
                val.fill(&sub_buf, a)?;
                buf.fill_from(a, [sub_buf.rel_ptr_from(buf)])
            },
        }
    }
}

impl<T: Serialize> Serialize for Box<T> {
    open spec fn spec_fixed_words() -> nat {
        T::spec_fixed_words()
    }

    open spec fn var_words(&self) -> nat {
        (**self).var_words()
    }

    open spec fn fits(&self) -> bool {
        (**self).fits()
    }

    open spec fn header(&self, dist: int) -> Seq<u32> {
        (**self).header(dist)
    }

    open spec fn payload(&self) -> Seq<u32> {
        (**self).payload()
    }

    proof fn lemma_sizes(&self, dist: int) {
        (**self).lemma_sizes(dist);
    }

    fn fixed_words() -> (n: usize) {
        T::fixed_words()
    }

    fn tot_len(&self) -> (n: usize) {
        (**self).tot_len()
    }

    fn fill(&self, buf: &AllocBuf, a: &mut Alloc) -> (res: Result<(), GuestioError>) {
        (**self).fill(buf, a)
    }
}

impl Serialize for String {
    open spec fn spec_fixed_words() -> nat {
        2
    }

    open spec fn var_words(&self) -> nat {
        spec_align_bytes_to_words(encode_utf8(self@).len())
    }

    open spec fn fits(&self) -> bool {
        encode_utf8(self@).len() <= u32::MAX
    }

    open spec fn header(&self, dist: int) -> Seq<u32> {
        seq![encode_utf8(self@).len() as u32, dist as u32]
    }

    open spec fn payload(&self) -> Seq<u32> {
        words_padded(encode_utf8(self@))
    }

    proof fn lemma_sizes(&self, dist: int) {
    }

    fn fixed_words() -> (n: usize) {
        2
    }

    fn tot_len(&self) -> (n: usize) {
        2 + align_bytes_to_words(self.as_str().as_bytes().len())
    }

    fn fill(&self, buf: &AllocBuf, a: &mut Alloc) -> (res: Result<(), GuestioError>) {
        let bytes: &[u8] = self.as_str().as_bytes();
        let words: usize = align_bytes_to_words(bytes.len());
        let str_data = a.allocate(words)?;
        let mut it = as_words_padded(bytes);
        let mut w: usize = 0;
        while w < words
            invariant
                w <= words,
                words == words_padded(bytes@).len(),
                it.wf(),
                it.source() == bytes@,
                it.done() == w,
                str_data.base + words == a.base,
                a.base <= a.buf@.len(),
                a.buf@.len() == old(a).buf@.len(),
                forall|k: int|
                    0 <= k < a.buf@.len() ==> a.buf@[k] == if str_data.base <= k < str_data.base
                        + w {
                        words_padded(bytes@)[k - str_data.base]
                    } else {
                        old(a).buf@[k]
                    },
            decreases words - w,
        {
            let val: u32 = match it.next() {
                Some(val) => val,
                None => 0u32,
            };
            a.buf.set(str_data.base + w, val);
            w += 1;
        }
        buf.fill_from(a, [bytes.len() as u32, str_data.rel_ptr_from(buf)])
    }
}

/// Fills one field of a record: `val` goes into the `pos`-th word of `window`
/// and the words after it, behind fields that gave the header `hdr` and the
/// payload `pay` since the arena held `before` with `base` words handed out.
/// Fails with a fill overrun where the field does not fit into the window.
pub fn fill_field<T: Serialize>(
    val: &T,
    window: &AllocBuf,
    pos: usize,
    a: &mut Alloc,
    Ghost(before): Ghost<Seq<u32>>,
    Ghost(base): Ghost<nat>,
    Ghost(hdr): Ghost<Seq<u32>>,
    Ghost(pay): Ghost<Seq<u32>>,
) -> (res: Result<(), GuestioError>)
    requires
        old(a).wf(),
        old(a).words().len() <= u32::MAX,
        T::spec_fixed_words() <= usize::MAX,
        val.fits(),
        window.start() + window.size() <= base,
        hdr.len() == pos,
        old(a).used() == base + pay.len(),
        old(a).words() == splice(splice(before, window.start() as int, hdr), base as int, pay),
    ensures
        final(a).wf(),
        final(a).words().len() == old(a).words().len(),
        pos + T::spec_fixed_words() > window.size() ==> res == Err::<(), GuestioError>(
            GuestioError::FillOverrun,
        ),
        pos + T::spec_fixed_words() <= window.size()
            ==> (res is Ok <==> val.var_words() <= old(a).remaining()),
        pos + T::spec_fixed_words() <= window.size() && res is Err
            ==> res == Err::<(), GuestioError>(GuestioError::AllocationSizeMismatch),
        res is Ok ==> final(a).used() == old(a).used() + val.var_words() && final(a).words()
            == splice(
            splice(
                before,
                window.start() as int,
                hdr + val.header(base + pay.len() - window.start() - pos),
            ),
            base as int,
            pay + val.payload(),
        ),
{
    proof {
        val.lemma_sizes(base + pay.len() - window.start() - pos);
    }
    let sub = window.descend(pos, T::fixed_words())?;
    val.fill(&sub, a)?;
    Ok(())
}

/// Words that the first `n` values of `s` append to the arena, taken together.
pub open spec fn vars_upto<T: Serialize>(s: Seq<T>, n: int) -> nat
    decreases n,
{
    if n <= 0 {
        0
    } else {
        vars_upto(s, n - 1) + s[n - 1].var_words()
    }
}

/// The fixed regions of the first `n` values of `s`, back to back, where the
/// arena's free part begins `dist` words after the first of them and each
/// value is filled in turn.
pub open spec fn headers_upto<T: Serialize>(s: Seq<T>, n: int, dist: int) -> Seq<u32>
    decreases n,
{
    if n <= 0 {
        Seq::empty()
    } else {
        headers_upto(s, n - 1, dist) + s[n - 1].header(
            dist - (n - 1) * T::spec_fixed_words() + vars_upto(s, n - 1),
        )
    }
}

/// The payloads of the first `n` values of `s`, in order.
pub open spec fn payloads_upto<T: Serialize>(s: Seq<T>, n: int) -> Seq<u32>
    decreases n,
{
    if n <= 0 {
        Seq::empty()
    } else {
        payloads_upto(s, n - 1) + s[n - 1].payload()
    }
}

/// Every value of `s` stores lengths that fit in a word.
pub open spec fn all_fit<T: Serialize>(s: Seq<T>) -> bool {
    forall|i: int| 0 <= i < s.len() ==> #[trigger] s[i].fits()
}

/// The lengths of the regions that `n` values fill.
pub proof fn lemma_elems_sizes<T: Serialize>(s: Seq<T>, n: int, dist: int)
    requires
        0 <= n <= s.len(),
    ensures
        headers_upto(s, n, dist).len() == n * T::spec_fixed_words(),
        payloads_upto(s, n).len() == vars_upto(s, n),
    decreases n,
{
    if n > 0 {
        lemma_elems_sizes(s, n - 1, dist);
        s[n - 1].lemma_sizes(dist - (n - 1) * T::spec_fixed_words() + vars_upto(s, n - 1));
        assert((n - 1) * T::spec_fixed_words() + T::spec_fixed_words() == n
            * T::spec_fixed_words()) by (nonlinear_arith);
    }
}

/// More values append no fewer words.
pub proof fn lemma_vars_monotone<T: Serialize>(s: Seq<T>, i: int, n: int)
    requires
        0 <= i <= n,
    ensures
        vars_upto(s, i) <= vars_upto(s, n),
    decreases n - i,
{
    if i < n {
        lemma_vars_monotone(s, i, n - 1);
    }
}

/// Where the regions of value `i` lie within those of the first `n`.
pub proof fn lemma_elem_regions<T: Serialize>(s: Seq<T>, n: int, dist: int, i: int)
    requires
        0 <= i < n <= s.len(),
    ensures
        (i + 1) * T::spec_fixed_words() <= n * T::spec_fixed_words(),
        vars_upto(s, i + 1) <= vars_upto(s, n),
        headers_upto(s, n, dist).subrange(
            i * T::spec_fixed_words(),
            (i + 1) * T::spec_fixed_words(),
        ) == s[i].header(dist - i * T::spec_fixed_words() + vars_upto(s, i)),
        payloads_upto(s, n).subrange(vars_upto(s, i) as int, vars_upto(s, i + 1) as int)
            == s[i].payload(),
    decreases n,
{
    let fixed = T::spec_fixed_words();
    lemma_elems_sizes(s, n - 1, dist);
    lemma_elems_sizes(s, n, dist);
    s[n - 1].lemma_sizes(dist - (n - 1) * fixed + vars_upto(s, n - 1));
    assert((n - 1) * fixed + fixed == n * fixed) by (nonlinear_arith);
    assert((i + 1) * fixed == i * fixed + fixed) by (nonlinear_arith);
    if i == n - 1 {
    } else {
        lemma_elem_regions(s, n - 1, dist, i);
    }
}

/// Fills `vals` one after the other into the window `window`, each into the
/// next stretch of its fixed size.
fn fill_elems<T: Serialize>(vals: &[T], window: &AllocBuf, a: &mut Alloc) -> (res: Result<
    (),
    GuestioError,
>)
    requires
        old(a).wf(),
        old(a).words().len() <= u32::MAX,
        vals@.len() * T::spec_fixed_words() <= usize::MAX,
        all_fit(vals@),
        window.within(old(a)),
    ensures
        final(a).wf(),
        final(a).words().len() == old(a).words().len(),
        window.size() == vals@.len() * T::spec_fixed_words() ==> (res is Ok <==> vars_upto(
            vals@,
            vals@.len() as int,
        ) <= old(a).remaining()),
        window.size() == vals@.len() * T::spec_fixed_words() && res is Err
            ==> res == Err::<(), GuestioError>(GuestioError::AllocationSizeMismatch),
        window.size() < vals@.len() * T::spec_fixed_words() && vars_upto(
            vals@,
            vals@.len() as int,
        ) <= old(a).remaining() ==> res == Err::<(), GuestioError>(GuestioError::FillOverrun),
        res is Ok ==> window.size() >= vals@.len() * T::spec_fixed_words(),
        res is Ok ==> vars_upto(vals@, vals@.len() as int) <= old(a).remaining(),
        res is Ok ==> final(a).used() == old(a).used() + vars_upto(vals@, vals@.len() as int)
            && final(a).words() == splice(
            splice(
                old(a).words(),
                window.start() as int,
                headers_upto(vals@, vals@.len() as int, old(a).used() - window.start()),
            ),
            old(a).used() as int,
            payloads_upto(vals@, vals@.len() as int),
        ),
{
    let n: usize = vals.len();
    let ghost dist = old(a).used() - window.start();
    let ghost fixed_spec = T::spec_fixed_words();
    if n == 0 {
        assert(n * fixed_spec == 0) by (nonlinear_arith)
            requires
                n == 0,
        ;
        return Ok(());
    }
    assert(fixed_spec <= n * fixed_spec) by (nonlinear_arith)
        requires
            n >= 1,
    ;
    let fixed: usize = T::fixed_words();
    let mut pos: usize = 0;
    let mut i: usize = 0;
    while i < n
        invariant
            i <= n,
            n == vals@.len(),
            n >= 1,
            fixed == fixed_spec,
            fixed_spec == T::spec_fixed_words(),
            pos == i * fixed_spec,
            pos <= window.size(),
            i > 0 ==> i * fixed_spec <= window.size(),
            dist == old(a).used() - window.start(),
            a.wf(),
            a.words().len() == old(a).words().len(),
            old(a).wf(),
            old(a).words().len() <= u32::MAX,
            n * fixed_spec <= usize::MAX,
            all_fit(vals@),
            window.within(old(a)),
            a.used() == old(a).used() + vars_upto(vals@, i as int),
            vars_upto(vals@, i as int) <= old(a).remaining(),
            a.words() == splice(
                splice(old(a).words(), window.start() as int, headers_upto(vals@, i as int, dist)),
                old(a).used() as int,
                payloads_upto(vals@, i as int),
            ),
        decreases n - i,
    {
        proof {
            assert((i + 1) * fixed_spec <= n * fixed_spec) by (nonlinear_arith)
                requires
                    i + 1 <= n,
            ;
            assert((i + 1) * fixed_spec == i * fixed_spec + fixed_spec) by (nonlinear_arith);
            lemma_elems_sizes(vals@, i as int, dist);
            lemma_elems_sizes(vals@, i + 1, dist);
            lemma_vars_monotone(vals@, i + 1, n as int);
            vals@[i as int].lemma_sizes(dist - i * fixed_spec + vars_upto(vals@, i as int));
        }
        let sub = window.descend(pos, fixed)?;
        vals[i].fill(&sub, a)?;
        pos += fixed;
        i += 1;
    }
    Ok(())
}

/// The words that `vals` take together, fixed regions and payloads.
fn tot_len_elems<T: Serialize>(vals: &[T]) -> (n: usize)
    requires
        vals@.len() * T::spec_fixed_words() + vars_upto(vals@, vals@.len() as int) <= usize::MAX,
    ensures
        n == vals@.len() * T::spec_fixed_words() + vars_upto(vals@, vals@.len() as int),
{
    let ghost fixed_spec = T::spec_fixed_words();
    let mut tot: usize = 0;
    let mut i: usize = 0;
    while i < vals.len()
        invariant
            i <= vals@.len(),
            fixed_spec == T::spec_fixed_words(),
            tot == i * fixed_spec + vars_upto(vals@, i as int),
            vals@.len() * fixed_spec + vars_upto(vals@, vals@.len() as int) <= usize::MAX,
        decreases vals@.len() - i,
    {
        proof {
            assert((i + 1) * fixed_spec <= vals@.len() * fixed_spec) by (nonlinear_arith)
                requires
                    i + 1 <= vals@.len(),
            ;
            assert((i + 1) * fixed_spec == i * fixed_spec + fixed_spec) by (nonlinear_arith);
            lemma_vars_monotone(vals@, i + 1, vals@.len() as int);
        }
        tot = tot + vals[i].tot_len();
        i += 1;
    }
    tot
}

impl<T: Serialize> Serialize for Vec<T> {
    open spec fn spec_fixed_words() -> nat {
        2
    }

    open spec fn var_words(&self) -> nat {
        self@.len() * T::spec_fixed_words() + vars_upto(self@, self@.len() as int)
    }

    open spec fn fits(&self) -> bool {
        self@.len() <= u32::MAX && T::spec_fixed_words() <= usize::MAX && all_fit(self@)
    }

    open spec fn header(&self, dist: int) -> Seq<u32> {
        seq![self@.len() as u32, dist as u32]
    }

    open spec fn payload(&self) -> Seq<u32> {
        headers_upto(self@, self@.len() as int, (self@.len() * T::spec_fixed_words()) as int)
            + payloads_upto(self@, self@.len() as int)
    }

    proof fn lemma_sizes(&self, dist: int) {
        lemma_elems_sizes(self@, self@.len() as int, (self@.len() * T::spec_fixed_words()) as int);
    }

    fn fixed_words() -> (n: usize) {
        2
    }

    fn tot_len(&self) -> (n: usize) {
        tot_len_elems(self.as_slice()) + 2
    }

    fn fill(&self, buf: &AllocBuf, a: &mut Alloc) -> (res: Result<(), GuestioError>) {
        let n: usize = self.len();
        proof {
            lemma_elems_sizes(self@, n as int, (n * T::spec_fixed_words()) as int);
            assert(T::spec_fixed_words() * n == n * T::spec_fixed_words()) by (nonlinear_arith);
        }
        let fixed: usize = T::fixed_words();
        let words: usize = match fixed.checked_mul(n) {
            Some(words) => words,
            None => {
                return Err(GuestioError::AllocationSizeMismatch);
            },
        };
        let sub_buf = a.allocate(words)?;
        fill_elems(self.as_slice(), &sub_buf, a)?;
        buf.fill_from(a, [n as u32, sub_buf.rel_ptr_from(buf)])
    }
}

impl<T: Serialize, const N: usize> Serialize for [T; N] {
    open spec fn spec_fixed_words() -> nat {
        (N * T::spec_fixed_words()) as nat
    }

    open spec fn var_words(&self) -> nat {
        vars_upto(self@, N as int)
    }

    open spec fn fits(&self) -> bool {
        all_fit(self@)
    }

    open spec fn header(&self, dist: int) -> Seq<u32> {
        headers_upto(self@, N as int, dist)
    }

    open spec fn payload(&self) -> Seq<u32> {
        payloads_upto(self@, N as int)
    }

    proof fn lemma_sizes(&self, dist: int) {
        lemma_elems_sizes(self@, N as int, dist);
    }

    fn fixed_words() -> (n: usize) {
        if N == 0 {
            assert(N * T::spec_fixed_words() == 0) by (nonlinear_arith)
                requires
                    N == 0,
            ;
            0
        } else {
            assert(T::spec_fixed_words() <= N * T::spec_fixed_words()) by (nonlinear_arith)
                requires
                    N >= 1,
            ;
            let fixed: usize = T::fixed_words();
            assert(fixed * N == N * T::spec_fixed_words()) by (nonlinear_arith)
                requires
                    fixed == T::spec_fixed_words(),
            ;
            fixed * N
        }
    }

    fn tot_len(&self) -> (n: usize) {
        tot_len_elems(self.as_slice())
    }

    fn fill(&self, buf: &AllocBuf, a: &mut Alloc) -> (res: Result<(), GuestioError>) {
        fill_elems(self.as_slice(), buf, a)
    }
}

} // verus!
