//! Glyph tables and the measured width of a text.
//!
//! A glyph table maps a character's code to its advance width in thousandths
//! of a pixel. A character without an entry has width zero. The width of a
//! text is the sum of the widths of its characters: no kerning, no ligatures.
//! A measured width saturates at `u64::MAX`.

use std::collections::HashMap;
use vstd::prelude::*;

verus! {

broadcast use vstd::std_specs::hash::group_hash_axioms;

/// The advance width of `ch` in `glyphs`, zero where it has no entry.
pub open spec fn glyph_width(glyphs: Map<u32, u64>, ch: char) -> nat {
    if glyphs.contains_key(ch as u32) {
        glyphs[ch as u32] as nat
    } else {
        0
    }
}

/// The sum of the advance widths of the characters of `text`.
pub open spec fn text_width(text: Seq<char>, glyphs: Map<u32, u64>) -> nat
    decreases text.len(),
{
    if text.len() == 0 {
        0
    } else {
        text_width(text.drop_last(), glyphs) + glyph_width(glyphs, text.last())
    }
}

/// `w` where it fits in a `u64`, and `u64::MAX` where it does not.
pub open spec fn saturated(w: nat) -> nat {
    if w <= u64::MAX {
        w
    } else {
        u64::MAX as nat
    }
}

/// The width of `text` as it is measured: the sum of its glyph widths,
/// saturated.
pub open spec fn measured_width(text: Seq<char>, glyphs: Map<u32, u64>) -> nat {
    saturated(text_width(text, glyphs))
}

/// The distance between two widths.
pub open spec fn width_distance(a: nat, b: nat) -> nat {
    if a >= b {
        (a - b) as nat
    } else {
        (b - a) as nat
    }
}

/// The width of a text with one more character is the width of the text plus
/// the width of the character.
pub proof fn lemma_text_width_push(text: Seq<char>, ch: char, glyphs: Map<u32, u64>)
    ensures
        text_width(text.push(ch), glyphs) == text_width(text, glyphs) + glyph_width(glyphs, ch),
{
    assert(text.push(ch).drop_last() =~= text);
}

/// The width of two texts joined is the sum of their widths.
pub proof fn lemma_text_width_concat(a: Seq<char>, b: Seq<char>, glyphs: Map<u32, u64>)
    ensures
        text_width(a + b, glyphs) == text_width(a, glyphs) + text_width(b, glyphs),
    decreases b.len(),
{
    if b.len() == 0 {
        assert(a + b =~= a);
    } else {
        lemma_text_width_concat(a, b.drop_last(), glyphs);
        assert((a + b).drop_last() =~= a + b.drop_last());
    }
}

/// Width monotonicity: a text is at least as wide as each of its prefixes,
/// both as a sum and as measured.
pub proof fn lemma_width_monotonic(prefix: Seq<char>, text: Seq<char>, glyphs: Map<u32, u64>)
    requires
        prefix.is_prefix_of(text),
    ensures
        text_width(prefix, glyphs) <= text_width(text, glyphs),
        measured_width(prefix, glyphs) <= measured_width(text, glyphs),
{
    let rest = text.subrange(prefix.len() as int, text.len() as int);
    assert(text =~= prefix + rest);
    lemma_text_width_concat(prefix, rest, glyphs);
}

/// Looks `ch` up in `glyphs`; a character without an entry has width zero.
pub fn glyph_width_of(glyphs: &HashMap<u32, u64>, ch: char) -> (w: u64)
    ensures
        w == glyph_width(glyphs@, ch),
{
    let code: u32 = ch as u32;
    match glyphs.get(&code) {
        Some(w) => *w,
        None => 0,
    }
}

/// Whether `glyphs` has an entry for every character of `text`. Where it has
/// not, the measured width of `text` leaves the character out.
pub fn covers(glyphs: &HashMap<u32, u64>, text: &str) -> (all: bool)
    ensures
        all == forall|i: int| 0 <= i < text@.len() ==> glyphs@.contains_key(text@[i] as u32),
{
    let mut all = true;
    for ch in it: text.chars()
        invariant
            it.seq() == text@,
            all == forall|i: int| 0 <= i < it.index() ==> glyphs@.contains_key(text@[i] as u32),
    {
        let code: u32 = ch as u32;
        if !glyphs.contains_key(&code) {
            all = false;
        }
    }
    all
}

/// The distance between two widths.
pub fn width_delta(a: u64, b: u64) -> (d: u64)
    ensures
        d == width_distance(a as nat, b as nat),
{
    if a >= b {
        a - b
    } else {
        b - a
    }
}

/// Measures `text` against `glyphs`: the sum of the advance widths of its
/// characters, where a character without an entry counts as zero. The sum
/// saturates at `u64::MAX`.
pub fn measure_width(text: &str, glyphs: &HashMap<u32, u64>) -> (w: u64)
    ensures
        w == measured_width(text@, glyphs@),
{
    let mut total: u64 = 0;
    for ch in it: text.chars()
        invariant
            it.seq() == text@,
            total == measured_width(it.seq().take(it.index() as int), glyphs@),
    {
        proof {
            let done = it.seq().take(it.index() as int);
            assert(it.seq().take(it.index() + 1) =~= done.push(ch));
            lemma_text_width_push(done, ch, glyphs@);
        }
        total = total.saturating_add(glyph_width_of(glyphs, ch));
    }
    proof {
        assert(text@.take(text@.len() as int) =~= text@);
    }
    total
}

} // verus!
