//! Beam search over character sequences under a width ceiling.
//!
//! The search grows texts one character per generation. A grown text survives
//! while its measured width is at most the target width plus `WIDTH_SLACK`.
//! The survivors of a generation are ranked by score, best first, and the
//! first `beam_width` of them are grown in the next generation.

use std::collections::HashMap;
use vstd::prelude::*;
use ttf_parser::Face;
use crate::font::{char_width, face_glyph_table, lemma_face_glyph_width};
use crate::metrics::{glyph_width, glyph_width_of, lemma_text_width_push, measured_width,
    text_width, width_delta, width_distance};
use crate::ranking::{lemma_sort_len, lemma_sort_map, lemma_sort_ordered, lemma_sort_same_items,
    rank_of, sort_by_rank, stable_sort, Ranked};

verus! {

/// How far, in thousandths of a pixel, a text may overshoot the target width
/// and still be kept: 20 pixels.
pub const WIDTH_SLACK: u64 = 20_000;

/// Score units per weight unit and character: a weight is counted in
/// thousandths and a score in millionths.
pub const SCORE_PER_CHAR: u64 = 1_000;

/// The three coefficients of the beam scorer, each in thousandths.
#[derive(Clone, Copy, Debug)]
pub struct ScoreWeights {
    /// Penalty per thousandth of a pixel between measured and target width.
    pub width: u32,
    /// Penalty per character.
    pub word_len: u32,
    /// Bonus per space character.
    pub spaces: u32,
}

/// A candidate text with its measured width, in thousandths of a pixel, and
/// its score, in millionths.
#[derive(Debug)]
pub struct Beam {
    pub text: String,
    pub width: u64,
    pub score: i128,
}

/// What a `Beam` stands for.
pub struct BeamView {
    pub text: Seq<char>,
    pub width: nat,
    pub score: int,
}

impl View for Beam {
    type V = BeamView;

    open spec fn view(&self) -> BeamView {
        BeamView { text: self.text@, width: self.width as nat, score: self.score as int }
    }
}

impl Clone for Beam {
    fn clone(&self) -> (copy: Self)
        ensures
            copy == *self,
    {
        Beam { text: self.text.clone(), width: self.width, score: self.score }
    }
}

impl Ranked for Beam {
    /// Beams are ranked by descending score.
    open spec fn rank(&self) -> int {
        -(self.score as int)
    }

    fn ranks_before(&self, other: &Self) -> (b: bool) {
        self.score > other.score
    }
}

/// The views of a sequence of beams.
pub open spec fn beam_views(beams: Seq<Beam>) -> Seq<BeamView> {
    beams.map_values(|b: Beam| b@)
}

/// The rank by which beam views are ordered: the score, negated.
pub open spec fn view_rank() -> spec_fn(BeamView) -> int {
    |b: BeamView| -b.score
}

/// The number of space characters in `text`.
pub open spec fn count_spaces(text: Seq<char>) -> nat
    decreases text.len(),
{
    if text.len() == 0 {
        0
    } else {
        count_spaces(text.drop_last()) + if text.last() == ' ' {
            1nat
        } else {
            0nat
        }
    }
}

/// The score of `text`: minus the width weight for each thousandth of a pixel
/// between the measured and the target width, minus the length weight for
/// each character, plus the space weight for each space.
pub open spec fn text_score(text: Seq<char>, measured: nat, target: nat, weights: ScoreWeights) -> int {
    -(weights.width * width_distance(measured, target)) - weights.word_len * SCORE_PER_CHAR
        * text.len() + weights.spaces * SCORE_PER_CHAR * count_spaces(text)
}

/// The beam from which every search starts: the empty text.
pub open spec fn initial_beam() -> BeamView {
    BeamView { text: Seq::empty(), width: 0, score: 0 }
}

/// `beam` grown by `ch`, measured and scored anew.
pub open spec fn grown(
    beam: BeamView,
    ch: char,
    glyphs: Map<u32, u64>,
    target: u64,
    weights: ScoreWeights,
) -> BeamView {
    let text = beam.text.push(ch);
    let width = measured_width(text, glyphs);
    BeamView { text, width, score: text_score(text, width, target as nat, weights) }
}

/// Whether a beam of this width is kept for the target.
pub open spec fn within_slack(width: nat, target: u64) -> bool {
    width <= target + WIDTH_SLACK
}

/// The kept texts that grow out of `beam` by one symbol of `alphabet`, in the
/// order of the alphabet.
pub open spec fn beam_growths(
    beam: BeamView,
    alphabet: Seq<char>,
    glyphs: Map<u32, u64>,
    target: u64,
    weights: ScoreWeights,
) -> Seq<BeamView>
    decreases alphabet.len(),
{
    if alphabet.len() == 0 {
        Seq::empty()
    } else {
        let before = beam_growths(beam, alphabet.drop_last(), glyphs, target, weights);
        let next = grown(beam, alphabet.last(), glyphs, target, weights);
        if within_slack(next.width, target) {
            before.push(next)
        } else {
            before
        }
    }
}

/// The kept texts that grow out of `beams`, beam by beam.
pub open spec fn generation_growths(
    beams: Seq<BeamView>,
    alphabet: Seq<char>,
    glyphs: Map<u32, u64>,
    target: u64,
    weights: ScoreWeights,
) -> Seq<BeamView>
    decreases beams.len(),
{
    if beams.len() == 0 {
        Seq::empty()
    } else {
        generation_growths(beams.drop_last(), alphabet, glyphs, target, weights) + beam_growths(
            beams.last(),
            alphabet,
            glyphs,
            target,
            weights,
        )
    }
}

/// `beams` ordered by descending score, beams of equal score in the order
/// they have in `beams`.
pub open spec fn best_first(beams: Seq<BeamView>) -> Seq<BeamView> {
    stable_sort(beams, view_rank())
}

/// The first `limit` items of `beams`, or all of them where there are fewer.
pub open spec fn at_most(beams: Seq<BeamView>, limit: nat) -> Seq<BeamView> {
    if limit <= beams.len() {
        beams.take(limit as int)
    } else {
        beams
    }
}

/// The generation that follows `beams`: what grows out of them, best first,
/// cut to `beam_width`.
pub open spec fn next_generation(
    beams: Seq<BeamView>,
    alphabet: Seq<char>,
    glyphs: Map<u32, u64>,
    target: u64,
    weights: ScoreWeights,
    beam_width: nat,
) -> Seq<BeamView> {
    at_most(best_first(generation_growths(beams, alphabet, glyphs, target, weights)), beam_width)
}

/// The beams after `rounds` generations, starting from the empty text.
pub open spec fn generation(
    rounds: nat,
    alphabet: Seq<char>,
    glyphs: Map<u32, u64>,
    target: u64,
    weights: ScoreWeights,
    beam_width: nat,
) -> Seq<BeamView>
    decreases rounds,
{
    if rounds == 0 {
        seq![initial_beam()]
    } else {
        next_generation(
            generation((rounds - 1) as nat, alphabet, glyphs, target, weights, beam_width),
            alphabet,
            glyphs,
            target,
            weights,
            beam_width,
        )
    }
}

/// What holds of every beam after `len` generations: its text has `len`
/// characters, all of the alphabet; its width is the measured width of its
/// text and within the slack of the target; and, once it has grown, its score
/// is the score of its text.
pub open spec fn sound_beam(
    beam: BeamView,
    len: nat,
    alphabet: Seq<char>,
    glyphs: Map<u32, u64>,
    target: u64,
    weights: ScoreWeights,
) -> bool {
    &&& beam.text.len() == len
    &&& forall|k: int| 0 <= k < beam.text.len() ==> alphabet.contains(#[trigger] beam.text[k])
    &&& beam.width == measured_width(beam.text, glyphs)
    &&& within_slack(beam.width, target)
    &&& len > 0 ==> beam.score == text_score(beam.text, beam.width, target as nat, weights)
}

/// What grows out of a sound beam is sound, one character longer.
pub proof fn lemma_beam_growths_sound(
    beam: BeamView,
    len: nat,
    alphabet: Seq<char>,
    symbols: Seq<char>,
    glyphs: Map<u32, u64>,
    target: u64,
    weights: ScoreWeights,
)
    requires
        sound_beam(beam, len, alphabet, glyphs, target, weights),
        forall|j: int| 0 <= j < symbols.len() ==> alphabet.contains(#[trigger] symbols[j]),
    ensures
        forall|i: int|
            0 <= i < beam_growths(beam, symbols, glyphs, target, weights).len() ==> sound_beam(
                #[trigger] beam_growths(beam, symbols, glyphs, target, weights)[i],
                len + 1,
                alphabet,
                glyphs,
                target,
                weights,
            ),
        beam_growths(beam, symbols, glyphs, target, weights).len() <= symbols.len(),
    decreases symbols.len(),
{
    if symbols.len() > 0 {
        let before = symbols.drop_last();
        assert forall|j: int| 0 <= j < before.len() implies alphabet.contains(
            #[trigger] before[j],
        ) by {
            assert(before[j] == symbols[j]);
        }
        lemma_beam_growths_sound(beam, len, alphabet, before, glyphs, target, weights);
        let next = grown(beam, symbols.last(), glyphs, target, weights);
        assert(alphabet.contains(symbols[symbols.len() - 1]));
        assert forall|k: int| 0 <= k < next.text.len() implies alphabet.contains(
            #[trigger] next.text[k],
        ) by {
            if k < beam.text.len() {
                assert(next.text[k] == beam.text[k]);
            }
        }
    }
}

/// What grows out of sound beams is sound, one character longer.
pub proof fn lemma_generation_growths_sound(
    beams: Seq<BeamView>,
    len: nat,
    alphabet: Seq<char>,
    glyphs: Map<u32, u64>,
    target: u64,
    weights: ScoreWeights,
)
    requires
        forall|i: int|
            0 <= i < beams.len() ==> sound_beam(
                #[trigger] beams[i],
                len,
                alphabet,
                glyphs,
                target,
                weights,
            ),
    ensures
        forall|i: int|
            0 <= i < generation_growths(beams, alphabet, glyphs, target, weights).len()
                ==> sound_beam(
                #[trigger] generation_growths(beams, alphabet, glyphs, target, weights)[i],
                len + 1,
                alphabet,
                glyphs,
                target,
                weights,
            ),
    decreases beams.len(),
{
    if beams.len() > 0 {
        let before = beams.drop_last();
        assert forall|i: int| 0 <= i < before.len() implies sound_beam(
            #[trigger] before[i],
            len,
            alphabet,
            glyphs,
            target,
            weights,
        ) by {
            assert(before[i] == beams[i]);
        }
        lemma_generation_growths_sound(before, len, alphabet, glyphs, target, weights);
        assert(sound_beam(beams[beams.len() - 1], len, alphabet, glyphs, target, weights));
        assert forall|j: int| 0 <= j < alphabet.len() implies alphabet.contains(
            #[trigger] alphabet[j],
        ) by {}
        lemma_beam_growths_sound(beams.last(), len, alphabet, alphabet, glyphs, target, weights);
        let head = generation_growths(before, alphabet, glyphs, target, weights);
        let tail = beam_growths(beams.last(), alphabet, glyphs, target, weights);
        let all = generation_growths(beams, alphabet, glyphs, target, weights);
        assert forall|i: int| 0 <= i < all.len() implies sound_beam(
            #[trigger] all[i],
            len + 1,
            alphabet,
            glyphs,
            target,
            weights,
        ) by {
            if i < head.len() {
                assert(all[i] == head[i]);
            } else {
                assert(all[i] == tail[i - head.len()]);
            }
        }
    }
}

/// Beam search bound. After `rounds` generations there are at most
/// `beam_width` beams, or the one beam of the empty text where no generation
/// has run. The text of each has `rounds` characters, all of the alphabet;
/// its width is the measured width of its text and at most the target width
/// plus `WIDTH_SLACK`; its score, once a generation has run, is the score of
/// its text; and the scores never increase along the beams.
pub proof fn lemma_generation_sound(
    rounds: nat,
    alphabet: Seq<char>,
    glyphs: Map<u32, u64>,
    target: u64,
    weights: ScoreWeights,
    beam_width: nat,
)
    ensures
        rounds > 0 || beam_width > 0 ==> generation(
            rounds,
            alphabet,
            glyphs,
            target,
            weights,
            beam_width,
        ).len() <= beam_width,
        rounds == 0 ==> generation(rounds, alphabet, glyphs, target, weights, beam_width).len()
            == 1,
        forall|i: int|
            0 <= i < generation(rounds, alphabet, glyphs, target, weights, beam_width).len()
                ==> sound_beam(
                #[trigger] generation(rounds, alphabet, glyphs, target, weights, beam_width)[i],
                rounds,
                alphabet,
                glyphs,
                target,
                weights,
            ),
        forall|i: int, j: int|
            0 <= i <= j < generation(rounds, alphabet, glyphs, target, weights, beam_width).len()
                ==> generation(rounds, alphabet, glyphs, target, weights, beam_width)[i].score
                >= generation(rounds, alphabet, glyphs, target, weights, beam_width)[j].score,
    decreases rounds,
{
    let beams = generation(rounds, alphabet, glyphs, target, weights, beam_width);
    if rounds == 0 {
        assert(text_width(Seq::<char>::empty(), glyphs) == 0);
    } else {
        let previous = generation((rounds - 1) as nat, alphabet, glyphs, target, weights, beam_width);
        let all = generation_growths(previous, alphabet, glyphs, target, weights);
        let ranked = best_first(all);
        lemma_generation_sound((rounds - 1) as nat, alphabet, glyphs, target, weights, beam_width);
        lemma_generation_growths_sound(
            previous,
            (rounds - 1) as nat,
            alphabet,
            glyphs,
            target,
            weights,
        );
        lemma_sort_len(all, view_rank());
        lemma_sort_same_items(all, view_rank());
        lemma_sort_ordered(all, view_rank());
        assert forall|i: int| 0 <= i < beams.len() implies sound_beam(
            #[trigger] beams[i],
            rounds,
            alphabet,
            glyphs,
            target,
            weights,
        ) by {
            assert(beams[i] == ranked[i]);
            assert(ranked.contains(ranked[i]));
            assert(all.contains(ranked[i]));
            let k = choose|k: int| 0 <= k < all.len() && all[k] == ranked[i];
            assert(sound_beam(all[k], rounds, alphabet, glyphs, target, weights));
        }
        assert forall|i: int, j: int| 0 <= i <= j < beams.len() implies beams[i].score
            >= beams[j].score by {
            assert(beams[i] == ranked[i] && beams[j] == ranked[j]);
            assert(view_rank()(ranked[i]) <= view_rank()(ranked[j]));
        }
    }
}

/// Counts the characters and the spaces of `text`.
fn count_chars(text: &str) -> (counts: (usize, usize))
    ensures
        counts.0 == text@.len(),
        counts.1 == count_spaces(text@),
{
    let total = text.unicode_len();
    let mut len: usize = 0;
    let mut spaces: usize = 0;
    for ch in it: text.chars()
        invariant
            it.seq() == text@,
            total == text@.len(),
            len == it.index(),
            spaces == count_spaces(it.seq().take(it.index() as int)),
            spaces <= len,
    {
        proof {
            let done = it.seq().take(it.index() as int);
            assert(it.seq().take(it.index() + 1).drop_last() =~= done);
        }
        len += 1;
        if ch == ' ' {
            spaces += 1;
        }
    }
    proof {
        assert(text@.take(text@.len() as int) =~= text@);
    }
    (len, spaces)
}

/// Scores `text` at its measured width against the target width.
pub fn score_text(text: &str, measured_width: u64, target_width: u64, weights: &ScoreWeights) -> (score: i128)
    ensures
        score == text_score(text@, measured_width as nat, target_width as nat, *weights),
{
    let (len, spaces) = count_chars(text);
    let width_error = width_delta(measured_width, target_width);
    let w: i128 = weights.width as i128;
    let l: i128 = weights.word_len as i128;
    let s: i128 = weights.spaces as i128;
    let e: i128 = width_error as i128;
    let n: i128 = len as i128;
    let k: i128 = spaces as i128;
    let unit: i128 = SCORE_PER_CHAR as i128;
    assert(0 <= w * e <= 0x1_0000_0000 * 0x1_0000_0000_0000_0000) by (nonlinear_arith)
        requires
            0 <= w <= 0x1_0000_0000,
            0 <= e <= 0x1_0000_0000_0000_0000,
    ;
    assert(0 <= l * unit * n <= 0x1_0000_0000 * 1000 * 0x1_0000_0000_0000_0000) by (nonlinear_arith)
        requires
            0 <= l <= 0x1_0000_0000,
            unit == 1000,
            0 <= n <= 0x1_0000_0000_0000_0000,
    ;
    assert(0 <= s * unit * k <= 0x1_0000_0000 * 1000 * 0x1_0000_0000_0000_0000) by (nonlinear_arith)
        requires
            0 <= s <= 0x1_0000_0000,
            unit == 1000,
            0 <= k <= 0x1_0000_0000_0000_0000,
    ;
    -(w * e) - l * unit * n + s * unit * k
}

/// Whether `widths` holds, symbol by symbol, the width that `glyphs` gives to
/// the symbols of `alphabet`.
pub open spec fn symbol_widths(alphabet: Seq<char>, widths: Seq<u64>, glyphs: Map<u32, u64>) -> bool {
    &&& widths.len() == alphabet.len()
    &&& forall|j: int| 0 <= j < alphabet.len() ==> widths[j] == glyph_width(glyphs, alphabet[j])
}

/// Whether the width of each beam is the measured width of its text.
pub open spec fn widths_measured(beams: Seq<Beam>, glyphs: Map<u32, u64>) -> bool {
    forall|i: int|
        0 <= i < beams.len() ==> (#[trigger] beams[i]).width == measured_width(
            beams[i].text@,
            glyphs,
        )
}

/// Growing the beams one by one gives the growths of all of them.
proof fn lemma_growths_take(
    beams: Seq<BeamView>,
    done: int,
    alphabet: Seq<char>,
    glyphs: Map<u32, u64>,
    target: u64,
    weights: ScoreWeights,
)
    requires
        0 <= done < beams.len(),
    ensures
        generation_growths(beams.take(done + 1), alphabet, glyphs, target, weights)
            == generation_growths(beams.take(done), alphabet, glyphs, target, weights)
            + beam_growths(beams[done], alphabet, glyphs, target, weights),
{
    assert(beams.take(done + 1).drop_last() =~= beams.take(done));
}

/// Appends to `next` what grows out of `beam`: for each symbol of the
/// alphabet, in order, the text of the beam with the symbol added, unless it
/// is wider than the target plus the slack.
fn grow_beam(
    next: &mut Vec<Beam>,
    beam: &Beam,
    alphabet: &[char],
    widths: &Vec<u64>,
    Ghost(glyphs): Ghost<Map<u32, u64>>,
    target_width: u64,
    weights: &ScoreWeights,
)
    requires
        symbol_widths(alphabet@, widths@, glyphs),
        beam.width == measured_width(beam.text@, glyphs),
        widths_measured(old(next)@, glyphs),
    ensures
        beam_views(final(next)@) == beam_views(old(next)@) + beam_growths(
            beam@,
            alphabet@,
            glyphs,
            target_width,
            *weights,
        ),
        widths_measured(final(next)@, glyphs),
{
    let ceiling: u64 = target_width.saturating_add(WIDTH_SLACK);
    let ghost before = beam_views(next@);
    let mut j: usize = 0;
    proof {
        assert(alphabet@.take(0) =~= Seq::<char>::empty());
        assert(before + Seq::<BeamView>::empty() =~= before);
    }
    while j < alphabet.len()
        invariant
            j <= alphabet.len(),
            symbol_widths(alphabet@, widths@, glyphs),
            beam.width == measured_width(beam.text@, glyphs),
            widths_measured(next@, glyphs),
            ceiling == target_width.saturating_add(WIDTH_SLACK),
            beam_views(next@) == before + beam_growths(
                beam@,
                alphabet@.take(j as int),
                glyphs,
                target_width,
                *weights,
            ),
        decreases alphabet.len() - j,
    {
        let ch = alphabet[j];
        let mut new_text = beam.text.clone();
        new_text.push(ch);
        let new_width = beam.width.saturating_add(widths[j]);
        proof {
            lemma_text_width_push(beam.text@, ch, glyphs);
            assert(alphabet@.take(j + 1).drop_last() =~= alphabet@.take(j as int));
            assert(alphabet@.take(j + 1).last() == ch);
        }
        if new_width <= ceiling {
            let score = score_text(new_text.as_str(), new_width, target_width, weights);
            let ghost kept = next@;
            let longer = Beam { text: new_text, width: new_width, score };
            next.push(longer);
            proof {
                assert(longer@ == grown(beam@, ch, glyphs, target_width, *weights));
                assert(beam_views(next@) =~= beam_views(kept).push(longer@));
                assert(beam_views(next@) =~= before + beam_growths(
                    beam@,
                    alphabet@.take(j + 1),
                    glyphs,
                    target_width,
                    *weights,
                ));
            }
        }
        j += 1;
    }
    proof {
        assert(alphabet@.take(alphabet@.len() as int) =~= alphabet@);
    }
}

/// What grows out of `beams`, beam by beam.
fn grow_generation(
    beams: &Vec<Beam>,
    alphabet: &[char],
    widths: &Vec<u64>,
    Ghost(glyphs): Ghost<Map<u32, u64>>,
    target_width: u64,
    weights: &ScoreWeights,
) -> (next: Vec<Beam>)
    requires
        symbol_widths(alphabet@, widths@, glyphs),
        widths_measured(beams@, glyphs),
    ensures
        beam_views(next@) == generation_growths(
            beam_views(beams@),
            alphabet@,
            glyphs,
            target_width,
            *weights,
        ),
        widths_measured(next@, glyphs),
{
    let ghost current = beam_views(beams@);
    let mut next: Vec<Beam> = Vec::new();
    let mut b: usize = 0;
    proof {
        assert(current.take(0) =~= Seq::<BeamView>::empty());
        assert(beam_views(next@) =~= Seq::<BeamView>::empty());
    }
    while b < beams.len()
        invariant
            b <= beams.len(),
            current == beam_views(beams@),
            symbol_widths(alphabet@, widths@, glyphs),
            widths_measured(beams@, glyphs),
            widths_measured(next@, glyphs),
            beam_views(next@) == generation_growths(
                current.take(b as int),
                alphabet@,
                glyphs,
                target_width,
                *weights,
            ),
        decreases beams.len() - b,
    {
        grow_beam(&mut next, &beams[b], alphabet, widths, Ghost(glyphs), target_width, weights);
        proof {
            assert(current[b as int] == beams@[b as int]@);
            lemma_growths_take(current, b as int, alphabet@, glyphs, target_width, *weights);
        }
        b += 1;
    }
    proof {
        assert(current.take(current.len() as int) =~= current);
    }
    next
}

/// Ranks `beams` by descending score and keeps the first `beam_width`.
fn keep_best(beams: Vec<Beam>, beam_width: usize, Ghost(glyphs): Ghost<Map<u32, u64>>) -> (best: Vec<
    Beam,
>)
    requires
        widths_measured(beams@, glyphs),
    ensures
        beam_views(best@) == at_most(best_first(beam_views(beams@)), beam_width as nat),
        widths_measured(best@, glyphs),
{
    let ghost all = beams@;
    let mut ranked = sort_by_rank(beams);
    proof {
        let view = |b: Beam| b@;
        assert forall|b: Beam| #[trigger] view_rank()(view(b)) == rank_of::<Beam>()(b) by {}
        lemma_sort_map(all, view, rank_of::<Beam>(), view_rank());
        lemma_sort_len(all, rank_of::<Beam>());
        lemma_sort_same_items(all, rank_of::<Beam>());
        assert forall|i: int| 0 <= i < ranked@.len() implies (#[trigger] ranked@[i]).width
            == measured_width(ranked@[i].text@, glyphs) by {
            assert(ranked@.contains(ranked@[i]));
            assert(all.contains(ranked@[i]));
        }
    }
    ranked.truncate(beam_width);
    ranked
}

/// Runs `max_len` generations. `widths` holds, symbol by symbol, the glyph
/// width that `glyphs` gives to the symbols of `alphabet`.
fn run_generations(
    alphabet: &[char],
    widths: &Vec<u64>,
    Ghost(glyphs): Ghost<Map<u32, u64>>,
    target_width: u64,
    weights: &ScoreWeights,
    beam_width: usize,
    max_len: usize,
) -> (beams: Vec<Beam>)
    requires
        symbol_widths(alphabet@, widths@, glyphs),
    ensures
        beam_views(beams@) == generation(
            max_len as nat,
            alphabet@,
            glyphs,
            target_width,
            *weights,
            beam_width as nat,
        ),
{
    let mut beams: Vec<Beam> = Vec::new();
    beams.push(Beam { text: String::new(), width: 0, score: 0 });
    proof {
        assert(beam_views(beams@) =~= seq![initial_beam()]);
        assert(text_width(Seq::<char>::empty(), glyphs) == 0);
    }
    let mut round: usize = 0;
    while round < max_len
        invariant
            round <= max_len,
            symbol_widths(alphabet@, widths@, glyphs),
            widths_measured(beams@, glyphs),
            beam_views(beams@) == generation(
                round as nat,
                alphabet@,
                glyphs,
                target_width,
                *weights,
                beam_width as nat,
            ),
        decreases max_len - round,
    {
        let next = grow_generation(&beams, alphabet, widths, Ghost(glyphs), target_width, weights);
        beams = keep_best(next, beam_width, Ghost(glyphs));
        round += 1;
    }
    beams
}

/// What the searches promise of their beams, stated of the beams themselves.
proof fn lemma_search_bounds(
    beams: Seq<Beam>,
    max_len: usize,
    alphabet: Seq<char>,
    glyphs: Map<u32, u64>,
    target: u64,
    weights: ScoreWeights,
    beam_width: usize,
)
    requires
        beam_views(beams) == generation(
            max_len as nat,
            alphabet,
            glyphs,
            target,
            weights,
            beam_width as nat,
        ),
    ensures
        max_len > 0 || beam_width > 0 ==> beams.len() <= beam_width,
        max_len == 0 ==> beams.len() == 1,
        forall|i: int|
            0 <= i < beams.len() ==> sound_beam(
                (#[trigger] beams[i])@,
                max_len as nat,
                alphabet,
                glyphs,
                target,
                weights,
            ),
        forall|i: int, j: int| 0 <= i <= j < beams.len() ==> beams[i].score >= beams[j].score,
{
    let views = beam_views(beams);
    lemma_generation_sound(max_len as nat, alphabet, glyphs, target, weights, beam_width as nat);
    assert forall|i: int| 0 <= i < beams.len() implies sound_beam(
        (#[trigger] beams[i])@,
        max_len as nat,
        alphabet,
        glyphs,
        target,
        weights,
    ) by {
        assert(views[i] == beams[i]@);
    }
    assert forall|i: int, j: int| 0 <= i <= j < beams.len() implies beams[i].score
        >= beams[j].score by {
        assert(views[i] == beams[i]@ && views[j] == beams[j]@);
    }
}

/// Beam search against a glyph table. Starting from the empty text, each of
/// `max_len` generations grows every beam by every symbol of `alphabet`,
/// drops what is wider than `target_width` plus `WIDTH_SLACK`, scores the rest
/// with `weights`, and keeps the `beam_width` best, best first; beams of equal
/// score stay in the order in which they grew. Widths are measured against
/// `glyphs`.
pub fn beam_search_glyphs(
    glyphs: &HashMap<u32, u64>,
    target_width: u64,
    alphabet: &[char],
    weights: &ScoreWeights,
    beam_width: usize,
    max_len: usize,
) -> (beams: Vec<Beam>)
    ensures
        beam_views(beams@) == generation(
            max_len as nat,
            alphabet@,
            glyphs@,
            target_width,
            *weights,
            beam_width as nat,
        ),
        max_len > 0 || beam_width > 0 ==> beams@.len() <= beam_width,
        max_len == 0 ==> beams@.len() == 1,
        forall|i: int|
            0 <= i < beams@.len() ==> sound_beam(
                (#[trigger] beams@[i])@,
                max_len as nat,
                alphabet@,
                glyphs@,
                target_width,
                *weights,
            ),
        forall|i: int, j: int| 0 <= i <= j < beams@.len() ==> beams@[i].score >= beams@[j].score,
{
    let mut widths: Vec<u64> = Vec::new();
    let mut j: usize = 0;
    while j < alphabet.len()
        invariant
            j <= alphabet.len(),
            widths@.len() == j,
            forall|k: int| 0 <= k < j ==> widths@[k] == glyph_width(glyphs@, alphabet@[k]),
        decreases alphabet.len() - j,
    {
        widths.push(glyph_width_of(glyphs, alphabet[j]));
        j += 1;
    }
    let beams = run_generations(
        alphabet,
        &widths,
        Ghost(glyphs@),
        target_width,
        weights,
        beam_width,
        max_len,
    );
    proof {
        lemma_search_bounds(beams@, max_len, alphabet@, glyphs@, target_width, *weights, beam_width);
    }
    beams
}

/// Beam search against a font face. It runs as `beam_search_glyphs` does, with
/// the widths measured at the face itself at `px_size`: by the glyph table of
/// the whole face. The table passed in is not consulted.
pub fn beam_search(
    face: &Face,
    _glyphs: &HashMap<u32, u64>,
    px_size: u32,
    target_width: u64,
    alphabet: &[char],
    weights: &ScoreWeights,
    beam_width: usize,
    max_len: usize,
) -> (beams: Vec<Beam>)
    ensures
        beam_views(beams@) == generation(
            max_len as nat,
            alphabet@,
            face_glyph_table(face, px_size),
            target_width,
            *weights,
            beam_width as nat,
        ),
        max_len > 0 || beam_width > 0 ==> beams@.len() <= beam_width,
        max_len == 0 ==> beams@.len() == 1,
        forall|i: int|
            0 <= i < beams@.len() ==> sound_beam(
                (#[trigger] beams@[i])@,
                max_len as nat,
                alphabet@,
                face_glyph_table(face, px_size),
                target_width,
                *weights,
            ),
        forall|i: int, j: int| 0 <= i <= j < beams@.len() ==> beams@[i].score >= beams@[j].score,
{
    let ghost table = face_glyph_table(face, px_size);
    let mut widths: Vec<u64> = Vec::new();
    let mut j: usize = 0;
    while j < alphabet.len()
        invariant
            j <= alphabet.len(),
            widths@.len() == j,
            table == face_glyph_table(face, px_size),
            forall|k: int| 0 <= k < j ==> widths@[k] == glyph_width(table, alphabet@[k]),
        decreases alphabet.len() - j,
    {
        let w = match char_width(face, px_size, alphabet[j]) {
            Some(w) => w,
            None => 0,
        };
        proof {
            lemma_face_glyph_width(face, px_size, alphabet@[j as int]);
        }
        widths.push(w);
        j += 1;
    }
    let beams = run_generations(
        alphabet,
        &widths,
        Ghost(table),
        target_width,
        weights,
        beam_width,
        max_len,
    );
    proof {
        lemma_search_bounds(beams@, max_len, alphabet@, table, target_width, *weights, beam_width);
    }
    beams
}

} // verus!
