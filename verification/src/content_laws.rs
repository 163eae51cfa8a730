//! How the content of a plane is laid out in bytes, and what the rectangle about two others is.
use crate::binary::sample_nan;
use crate::ir::{Extent, Rect};
use crate::report::{canonical, content_of, content_words, word_bytes, words_bytes};
use vstd::prelude::*;

verus! {

/// The word that four bytes make, the least significant first, `k` words into a run of bytes.
pub open spec fn word_at(bytes: Seq<u8>, k: int) -> int {
    bytes[4 * k] + 0x100 * bytes[4 * k + 1] + 0x1_0000 * bytes[4 * k + 2] + 0x100_0000 * bytes[4 * k + 3]
}

/// The bytes of a word make the word.
proof fn lemma_word(word: u32)
    ensures
        word_bytes(word).len() == 4,
        word_bytes(word)[0] + 0x100 * word_bytes(word)[1] + 0x1_0000 * word_bytes(word)[2] + 0x100_0000
            * word_bytes(word)[3] == word,
{
}

/// The bytes of words make the words.
proof fn lemma_words(words: Seq<u32>, k: int)
    ensures
        words_bytes(words).len() == 4 * words.len(),
        0 <= k < words.len() ==> word_at(words_bytes(words), k) == words[k],
    decreases words.len(),
{
    if words.len() > 0 {
        let front = words.drop_last();
        lemma_words(front, k);
        lemma_word(words.last());
        let bytes = words_bytes(words);
        assert(bytes == words_bytes(front) + word_bytes(words.last()));
        if 0 <= k < front.len() {
            assert(bytes[4 * k] == words_bytes(front)[4 * k]);
            assert(bytes[4 * k + 1] == words_bytes(front)[4 * k + 1]);
            assert(bytes[4 * k + 2] == words_bytes(front)[4 * k + 2]);
            assert(bytes[4 * k + 3] == words_bytes(front)[4 * k + 3]);
        } else if k == front.len() {
            assert(bytes[4 * k] == word_bytes(words.last())[0]);
            assert(bytes[4 * k + 1] == word_bytes(words.last())[1]);
            assert(bytes[4 * k + 2] == word_bytes(words.last())[2]);
            assert(bytes[4 * k + 3] == word_bytes(words.last())[3]);
        }
    }
}

/// The content of a plane is its width, its height, its channels and its samples in order, each in four bytes
/// with the least significant first; every NaN is the quiet one without a payload.
pub proof fn law_content_is_in_order(extent: Extent, channels: u32, samples: Seq<u32>, i: int)
    ensures
        content_of(extent, channels, samples).len() == 4 * (3 + samples.len()),
        word_at(content_of(extent, channels, samples), 0) == extent.width,
        word_at(content_of(extent, channels, samples), 1) == extent.height,
        word_at(content_of(extent, channels, samples), 2) == channels,
        0 <= i < samples.len() ==> word_at(content_of(extent, channels, samples), 3 + i) == (if sample_nan(
            samples[i],
        ) {
            0x7fc0_0000
        } else {
            samples[i] as int
        }),
{
    let words = content_words(extent, channels, samples);
    lemma_words(words, 0);
    lemma_words(words, 1);
    lemma_words(words, 2);
    lemma_words(words, 3 + i);
    if 0 <= i < samples.len() {
        assert(words[3 + i] == canonical(samples[i]));
    }
}

/// The rectangle about two others holds every pixel of both, and so does no rectangle that it does not lie in.
pub proof fn law_union_is_the_least(a: Rect, b: Rect, c: Rect, x: int, y: int)
    ensures
        a.covers(x, y) || b.covers(x, y) ==> a.join(b).covers(x, y),
        c.x0 <= a.x0 && c.y0 <= a.y0 && a.x1 <= c.x1 && a.y1 <= c.y1 && c.x0 <= b.x0 && c.y0 <= b.y0 && b.x1 <= c.x1
            && b.y1 <= c.y1 && a.join(b).covers(x, y) ==> c.covers(x, y),
{
}

} // verus!
