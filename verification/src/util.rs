//! Packing bytes into words, and taking them out again.
use vstd::prelude::*;

verus! {

/// The word whose bytes, lowest first, are `b0`, `b1`, `b2`, `b3`.
pub open spec fn word_of_bytes(b0: u8, b1: u8, b2: u8, b3: u8) -> u32 {
    (b0 as int + b1 as int * 0x100 + b2 as int * 0x1_0000 + b3 as int * 0x100_0000) as u32
}

/// Byte `k` of `word`, counted from the lowest.
pub open spec fn byte_of_word(word: u32, k: int) -> u8 {
    if k == 0 {
        (word as int % 0x100) as u8
    } else if k == 1 {
        (word as int / 0x100 % 0x100) as u8
    } else if k == 2 {
        (word as int / 0x1_0000 % 0x100) as u8
    } else {
        (word as int / 0x100_0000 % 0x100) as u8
    }
}

/// Byte `i` of `bytes`, and zero after its end.
pub open spec fn byte_or_zero(bytes: Seq<u8>, i: int) -> u8 {
    if 0 <= i < bytes.len() {
        bytes[i]
    } else {
        0u8
    }
}

/// Word `w` of the packing of `bytes`.
pub open spec fn padded_word(bytes: Seq<u8>, w: int) -> u32 {
    word_of_bytes(
        byte_or_zero(bytes, 4 * w),
        byte_or_zero(bytes, 4 * w + 1),
        byte_or_zero(bytes, 4 * w + 2),
        byte_or_zero(bytes, 4 * w + 3),
    )
}

/// `bytes` as words: four bytes to a word, lowest byte first, the last word
/// filled up with zero bytes. No bytes give no words.
pub open spec fn words_padded(bytes: Seq<u8>) -> Seq<u32> {
    Seq::new(((bytes.len() + 3) / 4) as nat, |w: int| padded_word(bytes, w))
}

/// The first `len` bytes of `words`, each word giving four bytes, lowest first.
pub open spec fn bytes_of_words(words: Seq<u32>, len: nat) -> Seq<u8> {
    Seq::new(len, |i: int| byte_of_word(words[i / 4], i % 4))
}

/// Taking the bytes out of a word built from four bytes gives them back.
pub proof fn lemma_byte_of_word_of_bytes(b0: u8, b1: u8, b2: u8, b3: u8)
    ensures
        byte_of_word(word_of_bytes(b0, b1, b2, b3), 0) == b0,
        byte_of_word(word_of_bytes(b0, b1, b2, b3), 1) == b1,
        byte_of_word(word_of_bytes(b0, b1, b2, b3), 2) == b2,
        byte_of_word(word_of_bytes(b0, b1, b2, b3), 3) == b3,
{
    let x: int = b0 as int + b1 as int * 0x100 + b2 as int * 0x1_0000 + b3 as int * 0x100_0000;
    assert(0 <= x < 0x1_0000_0000);
    assert(word_of_bytes(b0, b1, b2, b3) as int == x);
    assert(x % 0x100 == b0 as int);
    assert(x / 0x100 == b1 as int + b2 as int * 0x100 + b3 as int * 0x1_0000);
    assert(x / 0x1_0000 == b2 as int + b3 as int * 0x100);
    assert(x / 0x100_0000 == b3 as int);
}

/// Unpacking what was packed gives the bytes back: the padding is cut off by
/// the length.
pub proof fn lemma_bytes_of_words_padded(bytes: Seq<u8>)
    ensures
        bytes_of_words(words_padded(bytes), bytes.len()) == bytes,
{
    let words = words_padded(bytes);
    let back = bytes_of_words(words, bytes.len());
    assert forall|i: int| 0 <= i < bytes.len() implies back[i] == bytes[i] by {
        let w = i / 4;
        lemma_byte_of_word_of_bytes(
            byte_or_zero(bytes, 4 * w),
            byte_or_zero(bytes, 4 * w + 1),
            byte_or_zero(bytes, 4 * w + 2),
            byte_or_zero(bytes, 4 * w + 3),
        );
    }
}

/// The bytes taken out of some words depend only on the words that hold them.
pub proof fn lemma_bytes_of_words_prefix(words: Seq<u32>, front: Seq<u32>, len: nat)
    requires
        front.len() <= words.len(),
        words.subrange(0, front.len() as int) == front,
        len <= 4 * front.len(),
    ensures
        bytes_of_words(words, len) == bytes_of_words(front, len),
{
    assert forall|i: int| 0 <= i < len implies bytes_of_words(words, len)[i] == bytes_of_words(
        front,
        len,
    )[i] by {
    }
}

/// Walks a byte slice and hands out its packing word by word.
pub struct AsWordsPadded<'a> {
    bytes: &'a [u8],
    pos: usize,
}

impl<'a> AsWordsPadded<'a> {
    /// The bytes that are being packed.
    pub closed spec fn source(&self) -> Seq<u8> {
        self.bytes@
    }

    /// How many words were handed out so far.
    pub closed spec fn done(&self) -> nat {
        ((self.pos + 3) / 4) as nat
    }

    /// The walk stands at a word boundary, or at the end.
    pub closed spec fn wf(&self) -> bool {
        self.pos <= self.bytes@.len() && (self.pos % 4 == 0 || self.pos == self.bytes@.len())
    }

    /// The words that are still to come.
    pub open spec fn rest(&self) -> Seq<u32> {
        words_padded(self.source()).skip(self.done() as int)
    }

    /// The next word, or `None` once every byte has been packed.
    pub fn next(&mut self) -> (word: Option<u32>)
        requires
            old(self).wf(),
        ensures
            final(self).wf(),
            final(self).source() == old(self).source(),
            word is Some <==> old(self).done() < words_padded(old(self).source()).len(),
            word is Some ==> words_padded(old(self).source())[old(self).done() as int]
                == word.unwrap(),
            word is Some ==> final(self).done() == old(self).done() + 1,
            word is None ==> final(self).done() == old(self).done(),
    {
        let n: usize = self.bytes.len();
        if self.pos >= n {
            return None;
        }
        let p: usize = self.pos;
        let b0: u8 = self.bytes[p];
        let b1: u8 = if n - p > 1 { self.bytes[p + 1] } else { 0 };
        let b2: u8 = if n - p > 2 { self.bytes[p + 2] } else { 0 };
        let b3: u8 = if n - p > 3 { self.bytes[p + 3] } else { 0 };
        let word: u32 = (b0 as u32) + (b1 as u32) * 0x100 + (b2 as u32) * 0x1_0000 + (b3 as u32)
            * 0x100_0000;
        self.pos = if n - p > 4 { p + 4 } else { n };
        Some(word)
    }

    /// All the words that are still to come, in order.
    pub fn collect(self) -> (words: Vec<u32>)
        requires
            self.wf(),
        ensures
            words@ == self.rest(),
    {
        let mut it = self;
        let mut words: Vec<u32> = Vec::new();
        let ghost start = it.done();
        loop
            invariant
                it.wf(),
                it.source() == self.source(),
                start == self.done(),
                it.done() <= words_padded(self.source()).len(),
                it.done() == start + words@.len(),
                forall|k: int|
                    0 <= k < words@.len() ==> words@[k] == words_padded(self.source())[start + k],
            ensures
                it.done() == words_padded(self.source()).len(),
            decreases words_padded(self.source()).len() - it.done(),
        {
            match it.next() {
                Some(w) => {
                    words.push(w);
                },
                None => {
                    break;
                },
            }
        }
        words
    }
}

/// Starts packing `bytes` into words.
pub fn as_words_padded<'a>(bytes: &'a [u8]) -> (it: AsWordsPadded<'a>)
    ensures
        it.wf(),
        it.source() == bytes@,
        it.done() == 0,
        it.rest() == words_padded(bytes@),
{
    AsWordsPadded { bytes, pos: 0 }
}

} // verus!
