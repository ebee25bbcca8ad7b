//! Anchors: consistency of reconstructions across the lines of a document.
//!
//! Each line has an observed width and a ranked list of beams. The best beam
//! of a line makes its text the anchor of the line's width bucket; where
//! several lines share a bucket, the last of them decides. A beam whose text
//! is the anchor of its line's bucket gains `ANCHOR_BONUS`.

use std::collections::HashMap;
use vstd::prelude::*;
use crate::beam::{beam_views, best_first, view_rank, Beam, BeamView};
use crate::ranking::{is_ordered, lead_below, lemma_first_stays, lemma_lead_below,
    lemma_sort_len, lemma_sort_map, lemma_sort_of_ordered, lemma_sort_ordered,
    lemma_sort_same_items, rank_of, sort_by_rank, stable_sort};
use crate::text::same_text;

verus! {

broadcast use vstd::std_specs::hash::group_hash_axioms;

/// What a beam gains where its text is the anchor of its line's bucket: 5
/// points, in millionths.
pub const ANCHOR_BONUS: i128 = 5_000_000;

/// Thousandths of a pixel per width bucket: a bucket is a tenth of a pixel.
pub const BUCKET_SIZE: u64 = 100;

/// An observed width, in thousandths of a pixel, with the beams found for it,
/// best first.
#[derive(Debug)]
pub struct Line {
    pub observed_width: u64,
    pub beams: Vec<Beam>,
}

/// The lines of a document, in their order on the page.
#[derive(Debug)]
pub struct Document {
    pub lines: Vec<Line>,
}

/// What a `Line` stands for.
pub struct LineView {
    pub observed_width: u64,
    pub beams: Seq<BeamView>,
}

impl View for Line {
    type V = LineView;

    open spec fn view(&self) -> LineView {
        LineView { observed_width: self.observed_width, beams: beam_views(self.beams@) }
    }
}

impl Clone for Line {
    fn clone(&self) -> (copy: Self)
        ensures
            copy@ == self@,
    {
        let mut beams: Vec<Beam> = Vec::new();
        let mut j: usize = 0;
        while j < self.beams.len()
            invariant
                j <= self.beams.len(),
                beams@ == self.beams@.take(j as int),
            decreases self.beams.len() - j,
        {
            beams.push(self.beams[j].clone());
            proof {
                assert(self.beams@.take(j + 1) =~= self.beams@.take(j as int).push(self.beams@[j as int]));
            }
            j += 1;
        }
        proof {
            assert(self.beams@.take(self.beams@.len() as int) =~= self.beams@);
        }
        Line { observed_width: self.observed_width, beams }
    }
}

impl View for Document {
    type V = Seq<LineView>;

    open spec fn view(&self) -> Seq<LineView> {
        line_views(self.lines@)
    }
}

impl LineView {
    /// The ranking invariant of a line: the scores never increase along its
    /// beams, so the first beam is a best one.
    pub open spec fn ranked(self) -> bool {
        is_ordered(self.beams, view_rank())
    }
}

/// The views of a sequence of lines.
pub open spec fn line_views(lines: Seq<Line>) -> Seq<LineView> {
    lines.map_values(|l: Line| l@)
}

/// The bucket of a width: the width in tenths of a pixel, rounded to the
/// nearest, a half upwards.
pub open spec fn bucket_of(width: u64) -> u64 {
    ((width + BUCKET_SIZE / 2) / (BUCKET_SIZE as int)) as u64
}

/// The texts of an anchor table.
pub open spec fn anchor_views(anchors: Map<u64, String>) -> Map<u64, Seq<char>> {
    Map::new(|bucket: u64| anchors.contains_key(bucket), |bucket: u64| anchors[bucket]@)
}

/// The bonus of a text on a line of the given width: `ANCHOR_BONUS` where the
/// anchor of the width's bucket is that text, and nothing otherwise.
pub open spec fn bonus_for(text: Seq<char>, width: u64, anchors: Map<u64, Seq<char>>) -> int {
    if anchors.contains_key(bucket_of(width)) && anchors[bucket_of(width)] == text {
        ANCHOR_BONUS as int
    } else {
        0
    }
}

/// A score with a bonus added, saturated at `i128::MAX`.
pub open spec fn with_bonus(score: int, bonus: int) -> int {
    if score + bonus > i128::MAX {
        i128::MAX as int
    } else {
        score + bonus
    }
}

/// The anchors of a document: for each bucket that has a line with a beam,
/// the text of the best beam of the last such line.
pub open spec fn anchors_of(lines: Seq<LineView>) -> Map<u64, Seq<char>>
    decreases lines.len(),
{
    if lines.len() == 0 {
        Map::empty()
    } else {
        let before = anchors_of(lines.drop_last());
        let line = lines.last();
        if line.beams.len() > 0 {
            before.insert(bucket_of(line.observed_width), line.beams[0].text)
        } else {
            before
        }
    }
}

/// A beam of a line of the given width with its bonus added to its score.
pub open spec fn rescored(beam: BeamView, width: u64, anchors: Map<u64, Seq<char>>) -> BeamView {
    BeamView {
        text: beam.text,
        width: beam.width,
        score: with_bonus(beam.score, bonus_for(beam.text, width, anchors)),
    }
}

/// The beams of a line, each with its bonus added, in their old order.
pub open spec fn rescored_beams(line: LineView, anchors: Map<u64, Seq<char>>) -> Seq<BeamView> {
    Seq::new(line.beams.len(), |i: int| rescored(line.beams[i], line.observed_width, anchors))
}

/// A line after stabilization: each beam has its bonus, and the beams are
/// ranked anew, best first, beams of equal score in their old order.
pub open spec fn stabilized_line(line: LineView, anchors: Map<u64, Seq<char>>) -> LineView {
    LineView {
        observed_width: line.observed_width,
        beams: best_first(rescored_beams(line, anchors)),
    }
}

/// Every line stabilized against the given anchors.
pub open spec fn stabilized_against(lines: Seq<LineView>, anchors: Map<u64, Seq<char>>) -> Seq<
    LineView,
> {
    Seq::new(lines.len(), |i: int| stabilized_line(lines[i], anchors))
}

/// A document after stabilization: every line stabilized against the anchors
/// of the whole document as it was before.
pub open spec fn stabilized(lines: Seq<LineView>) -> Seq<LineView> {
    stabilized_against(lines, anchors_of(lines))
}

/// On a ranked line whose best text is the anchor of the line's bucket, the
/// best beam stays first: it gains the bonus, and no other beam can pass it.
pub proof fn lemma_best_stays(line: LineView, anchors: Map<u64, Seq<char>>)
    requires
        line.ranked(),
        line.beams.len() > 0,
        anchors.contains_key(bucket_of(line.observed_width)),
        anchors[bucket_of(line.observed_width)] == line.beams[0].text,
    ensures
        stabilized_line(line, anchors).beams.len() == line.beams.len(),
        stabilized_line(line, anchors).beams[0] == rescored(
            line.beams[0],
            line.observed_width,
            anchors,
        ),
        stabilized_line(line, anchors).beams[0].text == line.beams[0].text,
{
    let after = rescored_beams(line, anchors);
    assert forall|i: int| 0 <= i < after.len() implies view_rank()(after[0]) <= view_rank()(
        #[trigger] after[i],
    ) by {
        assert(view_rank()(line.beams[0]) <= view_rank()(line.beams[i]));
    }
    lemma_first_stays(after, view_rank());
}

/// Stabilizing against given anchors keeps the buckets that have an anchor,
/// and keeps the anchor of each bucket whose anchor is the given one.
proof fn lemma_anchors_kept(lines: Seq<LineView>, anchors: Map<u64, Seq<char>>)
    requires
        forall|i: int| 0 <= i < lines.len() ==> (#[trigger] lines[i]).ranked(),
    ensures
        anchors_of(stabilized_against(lines, anchors)).dom() == anchors_of(lines).dom(),
        forall|bucket: u64|
            anchors_of(lines).contains_key(bucket) && anchors.contains_key(bucket) && anchors_of(
                lines,
            )[bucket] == anchors[bucket] ==> #[trigger] anchors_of(
                stabilized_against(lines, anchors),
            )[bucket] == anchors[bucket],
    decreases lines.len(),
{
    let after = stabilized_against(lines, anchors);
    if lines.len() == 0 {
    } else {
        let line = lines.last();
        let bucket = bucket_of(line.observed_width);
        assert(after.drop_last() =~= stabilized_against(lines.drop_last(), anchors));
        assert(after.last() == stabilized_line(line, anchors));
        assert forall|i: int| 0 <= i < lines.drop_last().len() implies (#[trigger] lines.drop_last()[i]).ranked() by {
            assert(lines.drop_last()[i] == lines[i]);
        }
        lemma_anchors_kept(lines.drop_last(), anchors);
        lemma_sort_len(rescored_beams(line, anchors), view_rank());
        assert(lines[lines.len() - 1].ranked());
        if line.beams.len() > 0 {
            if anchors.contains_key(bucket) && anchors[bucket] == line.beams[0].text {
                lemma_best_stays(line, anchors);
            }
            assert(anchors_of(after).dom() =~= anchors_of(lines).dom());
        }
    }
}

/// Stabilization leaves the anchors as they are: on a document whose lines
/// are ranked, a second pass finds the anchors that the first pass found.
pub proof fn lemma_anchors_stable(lines: Seq<LineView>)
    requires
        forall|i: int| 0 <= i < lines.len() ==> (#[trigger] lines[i]).ranked(),
    ensures
        anchors_of(stabilized(lines)) == anchors_of(lines),
{
    lemma_anchors_kept(lines, anchors_of(lines));
    assert(anchors_of(stabilized(lines)) =~= anchors_of(lines));
}

/// Whether no beam of the document has anything left to gain: each beam whose
/// text is the anchor of its line's bucket is within `ANCHOR_BONUS` of the
/// highest score, so that one pass takes it there.
pub open spec fn settled(lines: Seq<LineView>) -> bool {
    forall|i: int, j: int|
        0 <= i < lines.len() && 0 <= j < lines[i].beams.len() && bonus_for(
            lines[i].beams[j].text,
            lines[i].observed_width,
            anchors_of(lines),
        ) > 0 ==> (#[trigger] lines[i].beams[j]).score >= i128::MAX - ANCHOR_BONUS
}

/// A second pass over a line changes nothing where every beam with the
/// anchor's text was within the bonus of the highest score.
proof fn lemma_line_stays(line: LineView, anchors: Map<u64, Seq<char>>)
    requires
        forall|j: int|
            0 <= j < line.beams.len() && bonus_for(
                (#[trigger] line.beams[j]).text,
                line.observed_width,
                anchors,
            ) > 0 ==> line.beams[j].score >= i128::MAX - ANCHOR_BONUS,
    ensures
        stabilized_line(stabilized_line(line, anchors), anchors) == stabilized_line(line, anchors),
{
    let first = rescored_beams(line, anchors);
    let once = stabilized_line(line, anchors);
    let second = rescored_beams(once, anchors);
    lemma_sort_len(first, view_rank());
    lemma_sort_same_items(first, view_rank());
    lemma_sort_ordered(first, view_rank());
    assert forall|k: int| 0 <= k < once.beams.len() implies second[k] == once.beams[k] by {
        let beam = once.beams[k];
        assert(once.beams.contains(beam));
        assert(first.contains(beam));
        let j = choose|j: int| 0 <= j < first.len() && first[j] == beam;
        assert(beam == rescored(line.beams[j], line.observed_width, anchors));
    }
    assert(second =~= once.beams);
    lemma_sort_of_ordered(once.beams, view_rank());
}

/// Idempotence where nothing is left to gain: on a settled document whose
/// lines are ranked, two passes give what one pass gives.
pub proof fn lemma_stabilized_twice(lines: Seq<LineView>)
    requires
        forall|i: int| 0 <= i < lines.len() ==> (#[trigger] lines[i]).ranked(),
        settled(lines),
    ensures
        stabilized(stabilized(lines)) == stabilized(lines),
{
    let anchors = anchors_of(lines);
    let once = stabilized(lines);
    lemma_anchors_stable(lines);
    assert forall|i: int| 0 <= i < once.len() implies stabilized_line(
        #[trigger] once[i],
        anchors,
    ) == once[i] by {
        assert forall|j: int|
            0 <= j < lines[i].beams.len() && bonus_for(
                (#[trigger] lines[i].beams[j]).text,
                lines[i].observed_width,
                anchors,
            ) > 0 implies lines[i].beams[j].score >= i128::MAX - ANCHOR_BONUS by {}
        lemma_line_stays(lines[i], anchors);
    }
    assert(stabilized(once) =~= once);
}

/// The sum of the scores of `beams`.
pub open spec fn score_sum(beams: Seq<BeamView>) -> int
    decreases beams.len(),
{
    if beams.len() == 0 {
        0
    } else {
        score_sum(beams.drop_last()) + beams.last().score
    }
}

/// Putting a beam anywhere into a sequence adds its score to the sum.
proof fn lemma_score_sum_insert(beams: Seq<BeamView>, at: int, beam: BeamView)
    requires
        0 <= at <= beams.len(),
    ensures
        score_sum(beams.insert(at, beam)) == score_sum(beams) + beam.score,
    decreases beams.len(),
{
    let longer = beams.insert(at, beam);
    if at == beams.len() {
        assert(longer.drop_last() =~= beams);
    } else {
        assert(longer.drop_last() =~= beams.drop_last().insert(at, beam));
        assert(longer.last() == beams.last());
        lemma_score_sum_insert(beams.drop_last(), at, beam);
    }
}

/// Ranking the beams anew keeps the sum of their scores.
proof fn lemma_score_sum_sorted(beams: Seq<BeamView>)
    ensures
        score_sum(best_first(beams)) == score_sum(beams),
    decreases beams.len(),
{
    if beams.len() > 0 {
        let rest = beams.drop_first();
        let sorted = stable_sort(rest, view_rank());
        lemma_score_sum_sorted(rest);
        lemma_lead_below(sorted, view_rank(), view_rank()(beams.first()));
        lemma_score_sum_insert(
            sorted,
            lead_below(sorted, view_rank(), view_rank()(beams.first())) as int,
            beams.first(),
        );
        lemma_score_sum_insert(rest, 0, beams.first());
        assert(rest.insert(0, beams.first()) =~= beams);
    }
}

/// Where no score goes down and one goes up, the sum goes up.
proof fn lemma_score_sum_grows(before: Seq<BeamView>, after: Seq<BeamView>, at: int)
    requires
        before.len() == after.len(),
        forall|k: int| 0 <= k < before.len() ==> before[k].score <= after[k].score,
        0 <= at < before.len(),
        before[at].score < after[at].score,
    ensures
        score_sum(before) < score_sum(after),
    decreases before.len(),
{
    let b = before.drop_last();
    let a = after.drop_last();
    if at < before.len() - 1 {
        lemma_score_sum_grows(b, a, at);
    } else {
        lemma_score_sum_keeps(b, a);
    }
}

/// Where no score goes down, the sum does not go down.
proof fn lemma_score_sum_keeps(before: Seq<BeamView>, after: Seq<BeamView>)
    requires
        before.len() == after.len(),
        forall|k: int| 0 <= k < before.len() ==> before[k].score <= after[k].score,
    ensures
        score_sum(before) <= score_sum(after),
    decreases before.len(),
{
    if before.len() > 0 {
        lemma_score_sum_keeps(before.drop_last(), after.drop_last());
    }
}

/// Two passes differ from one on every other ranked document: where a beam
/// with the text of its line's anchor is more than `ANCHOR_BONUS` below the
/// highest score, the second pass adds the bonus to it once more.
pub proof fn lemma_stabilized_twice_differs(lines: Seq<LineView>)
    requires
        forall|i: int| 0 <= i < lines.len() ==> (#[trigger] lines[i]).ranked(),
        !settled(lines),
    ensures
        stabilized(stabilized(lines)) != stabilized(lines),
{
    let anchors = anchors_of(lines);
    let once = stabilized(lines);
    let (i, j) = choose|i: int, j: int|
        0 <= i < lines.len() && 0 <= j < lines[i].beams.len() && bonus_for(
            lines[i].beams[j].text,
            lines[i].observed_width,
            anchors,
        ) > 0 && !((#[trigger] lines[i].beams[j]).score >= i128::MAX - ANCHOR_BONUS);
    let line = lines[i];
    let first = rescored_beams(line, anchors);
    let second = rescored_beams(once[i], anchors);
    lemma_anchors_stable(lines);
    lemma_sort_len(first, view_rank());
    lemma_sort_same_items(first, view_rank());
    assert(first.contains(first[j]));
    assert(once[i].beams.contains(first[j]));
    let k = choose|k: int| 0 <= k < once[i].beams.len() && once[i].beams[k] == first[j];
    assert forall|m: int| 0 <= m < once[i].beams.len() implies once[i].beams[m].score
        <= second[m].score by {
        let beam = once[i].beams[m];
        assert(once[i].beams.contains(beam));
        assert(first.contains(beam));
        let from = choose|from: int| 0 <= from < first.len() && first[from] == beam;
        assert(beam == rescored(line.beams[from], line.observed_width, anchors));
    }
    lemma_score_sum_grows(once[i].beams, second, k);
    lemma_score_sum_sorted(second);
    assert(stabilized(once)[i].beams == best_first(second));
}

/// A document without beams is left as it is, by one pass and so by two.
pub proof fn lemma_stabilized_without_beams(lines: Seq<LineView>)
    requires
        forall|i: int| 0 <= i < lines.len() ==> (#[trigger] lines[i]).beams.len() == 0,
    ensures
        stabilized(lines) == lines,
        stabilized(stabilized(lines)) == stabilized(lines),
{
    let anchors = anchors_of(lines);
    assert forall|i: int| 0 <= i < lines.len() implies stabilized_line(
        #[trigger] lines[i],
        anchors,
    ) == lines[i] by {
        assert(rescored_beams(lines[i], anchors) =~= lines[i].beams);
    }
    assert(stabilized(lines) =~= lines);
}

/// The bucket of a width: tenths of a pixel, rounded to the nearest.
pub fn quantize(w: u64) -> (bucket: u64)
    ensures
        bucket == bucket_of(w),
{
    let whole = w / BUCKET_SIZE;
    if w % BUCKET_SIZE >= BUCKET_SIZE / 2 {
        whole + 1
    } else {
        whole
    }
}

/// The bonus of `text` on a line of width `width`: `ANCHOR_BONUS` where the
/// anchor of the width's bucket is exactly `text`, and zero otherwise.
pub fn anchor_bonus(text: &str, width: u64, anchors: &HashMap<u64, String>) -> (bonus: i128)
    ensures
        bonus == bonus_for(text@, width, anchor_views(anchors@)),
{
    let key = quantize(width);
    match anchors.get(&key) {
        Some(anchor) => {
            if same_text(anchor.as_str(), text) {
                ANCHOR_BONUS
            } else {
                0
            }
        },
        None => 0,
    }
}

/// The anchors of a document: for each line with a beam, in order, the text
/// of its first beam is put under the bucket of the line's width, where it
/// replaces what an earlier line has put there.
pub fn document_anchors(doc: &Document) -> (anchors: HashMap<u64, String>)
    ensures
        anchor_views(anchors@) == anchors_of(doc@),
{
    let ghost views = doc@;
    let mut anchors: HashMap<u64, String> = HashMap::new();
    let mut i: usize = 0;
    proof {
        assert(views.take(0) =~= Seq::<LineView>::empty());
        assert(anchor_views(anchors@) =~= Map::<u64, Seq<char>>::empty());
    }
    while i < doc.lines.len()
        invariant
            i <= doc.lines.len(),
            views == doc@,
            anchor_views(anchors@) == anchors_of(views.take(i as int)),
        decreases doc.lines.len() - i,
    {
        let line = &doc.lines[i];
        let ghost before = anchor_views(anchors@);
        proof {
            assert(views.take(i + 1).drop_last() =~= views.take(i as int));
            assert(views.take(i + 1).last() == line@);
        }
        if line.beams.len() > 0 {
            let best = &line.beams[0];
            let key = quantize(line.observed_width);
            anchors.insert(key, best.text.clone());
            proof {
                assert(line@.beams[0] == best@);
                assert(anchor_views(anchors@) =~= before.insert(key, best.text@));
            }
        }
        i += 1;
    }
    proof {
        assert(views.take(views.len() as int) =~= views);
    }
    anchors
}

/// Adds to each of `beams`, which are those of a line of the given width,
/// its bonus, and ranks them anew.
fn stabilize_beams(beams: Vec<Beam>, width: u64, anchors: &HashMap<u64, String>) -> (ranked: Vec<
    Beam,
>)
    ensures
        beam_views(ranked@) == stabilized_line(
            LineView { observed_width: width, beams: beam_views(beams@) },
            anchor_views(anchors@),
        ).beams,
{
    let ghost table = anchor_views(anchors@);
    let ghost line = LineView { observed_width: width, beams: beam_views(beams@) };
    let mut beams = beams;
    let mut j: usize = 0;
    while j < beams.len()
        invariant
            j <= beams.len(),
            table == anchor_views(anchors@),
            beams@.len() == line.beams.len(),
            forall|k: int| 0 <= k < j ==> (#[trigger] beams@[k])@ == rescored(line.beams[k], width, table),
            forall|k: int| j <= k < beams@.len() ==> (#[trigger] beams@[k])@ == line.beams[k],
        decreases beams.len() - j,
    {
        let bonus = anchor_bonus(beams[j].text.as_str(), width, anchors);
        let score = if beams[j].score > i128::MAX - bonus {
            i128::MAX
        } else {
            beams[j].score + bonus
        };
        beams[j].score = score;
        j += 1;
    }
    let ghost unranked = beams@;
    let ranked = sort_by_rank(beams);
    proof {
        let view = |b: Beam| b@;
        assert forall|b: Beam| #[trigger] view_rank()(view(b)) == rank_of::<Beam>()(b) by {}
        lemma_sort_map(unranked, view, rank_of::<Beam>(), view_rank());
        assert(beam_views(unranked) =~= rescored_beams(line, table));
    }
    ranked
}

/// Stabilizes a document. First the anchors of the whole document are taken:
/// for each line with a beam, the text of its first beam becomes the anchor
/// of the line's bucket, a later line replacing an earlier one. Then each beam
/// whose text is the anchor of its line's bucket gains `ANCHOR_BONUS`, its
/// score saturating at `i128::MAX`, and the beams of each line are ranked
/// anew, best first, beams of equal score in their old order. A line without
/// beams stays as it is.
pub fn stabilize_document(doc: &mut Document)
    ensures
        final(doc)@ == stabilized(old(doc)@),
        final(doc)@.len() == old(doc)@.len(),
        forall|i: int|
            0 <= i < final(doc)@.len() ==> (#[trigger] final(doc)@[i]).observed_width == old(
                doc,
            )@[i].observed_width && final(doc)@[i].beams.len() == old(doc)@[i].beams.len(),
        forall|i: int| 0 <= i < final(doc)@.len() ==> (#[trigger] final(doc)@[i]).ranked(),
{
    let anchors = document_anchors(doc);
    let ghost views = doc@;
    let ghost table = anchor_views(anchors@);
    let mut i: usize = 0;
    while i < doc.lines.len()
        invariant
            i <= doc.lines.len(),
            doc.lines@.len() == views.len(),
            table == anchor_views(anchors@),
            forall|k: int| 0 <= k < i ==> (#[trigger] doc.lines@[k])@ == stabilized_line(views[k], table),
            forall|k: int| i <= k < views.len() ==> (#[trigger] doc.lines@[k])@ == views[k],
        decreases doc.lines.len() - i,
    {
        let width = doc.lines[i].observed_width;
        let mut beams: Vec<Beam> = Vec::new();
        core::mem::swap(&mut doc.lines[i].beams, &mut beams);
        doc.lines[i].beams = stabilize_beams(beams, width, &anchors);
        i += 1;
    }
    proof {
        assert(doc@ =~= stabilized_against(views, table));
        assert forall|k: int| 0 <= k < doc@.len() implies (#[trigger] doc@[k]).ranked()
            && doc@[k].beams.len() == views[k].beams.len() by {
            lemma_sort_ordered(rescored_beams(views[k], table), view_rank());
            lemma_sort_len(rescored_beams(views[k], table), view_rank());
        }
    }
}

} // verus!
