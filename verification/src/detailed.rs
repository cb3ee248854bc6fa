//! The detailed transcript draft: what a second, slower transcription of a
//! recording proposes to change. Only differences become proposals; the
//! transcript itself is never written here.
use vstd::prelude::*;
use crate::live_meeting::{
    join_candidates_spec, join_detailed_candidate_texts, unique_detailed_segment_match,
    unique_match_spec, overlaps_fit, DetailedSourceSegment,
};
use crate::text::{opt_chars, str_eq, strings_view, trim_spec};

verus! {

/// A candidate the detailed worker produced, with the speaker its channel
/// implies (none for audio of no known channel).
#[derive(Debug)]
pub struct DetailedCandidate {
    pub expected_speaker: Option<String>,
    pub start_ms: i64,
    pub end_ms: i64,
    pub text: String,
}

/// A proposal to replace a segment's text, with what it expects the segment
/// still to be.
#[derive(Debug)]
pub struct ProposalPlan {
    pub segment_id: String,
    pub original_text: String,
    pub proposed_text: String,
    pub expected_updated_at: String,
    pub expected_revision: Option<i64>,
}

/// The proposals of a detailed run, and how many candidates matched no
/// segment unambiguously.
#[derive(Debug)]
pub struct DetailedPlan {
    pub proposals: Vec<ProposalPlan>,
    pub unmatched: usize,
}

pub struct ProposalView {
    pub segment_id: Seq<char>,
    pub original_text: Seq<char>,
    pub proposed_text: Seq<char>,
    pub expected_updated_at: Seq<char>,
    pub expected_revision: Option<i64>,
}

impl View for ProposalPlan {
    type V = ProposalView;

    open spec fn view(&self) -> ProposalView {
        ProposalView {
            segment_id: self.segment_id@,
            original_text: self.original_text@,
            proposed_text: self.proposed_text@,
            expected_updated_at: self.expected_updated_at@,
            expected_revision: self.expected_revision,
        }
    }
}

pub open spec fn proposals_view(v: Seq<ProposalPlan>) -> Seq<ProposalView> {
    v.map_values(|p: ProposalPlan| p@)
}

/// A candidate starts at 0 at the earliest...
pub open spec fn cand_start(c: DetailedCandidate) -> i64 {
    if c.start_ms >= 0 {
        c.start_ms
    } else {
        0
    }
}

/// ...and lasts at least a millisecond.
pub open spec fn cand_end(c: DetailedCandidate) -> i64 {
    if c.end_ms >= cand_start(c) + 1 {
        c.end_ms
    } else {
        (cand_start(c) + 1) as i64
    }
}

/// The segment a candidate replaces, if it is unambiguous.
pub open spec fn cand_match(segs: Seq<DetailedSourceSegment>, c: DetailedCandidate) -> Option<int> {
    unique_match_spec(segs, cand_start(c), cand_end(c), opt_chars(c.expected_speaker))
}

/// The candidates' times fit the arithmetic of matching.
pub open spec fn candidates_fit(segs: Seq<DetailedSourceSegment>, cands: Seq<DetailedCandidate>) -> bool {
    forall|k: int|
        0 <= k < cands.len() ==> (#[trigger] cands[k]).start_ms < i64::MAX && overlaps_fit(
            segs,
            cand_start(cands[k]),
            cand_end(cands[k]),
        )
}

/// The matched candidates, in order: the id of the segment each replaces,
/// its start and its text.
pub open spec fn matched(segs: Seq<DetailedSourceSegment>, cands: Seq<DetailedCandidate>) -> Seq<
    (Seq<char>, i64, Seq<char>),
>
    decreases cands.len(),
{
    if cands.len() == 0 {
        seq![]
    } else {
        let rest = matched(segs, cands.drop_last());
        match cand_match(segs, cands.last()) {
            Some(i) => rest.push((segs[i].id@, cand_start(cands.last()), cands.last().text@)),
            None => rest,
        }
    }
}

/// `x` placed after every earlier entry that starts no later.
pub open spec fn insert_by_start(v: Seq<(i64, Seq<char>)>, x: (i64, Seq<char>)) -> Seq<
    (i64, Seq<char>),
>
    decreases v.len(),
{
    if v.len() == 0 {
        seq![x]
    } else if v.last().0 <= x.0 {
        v.push(x)
    } else {
        insert_by_start(v.drop_last(), x).push(v.last())
    }
}

/// The candidates matched to segment id `id`, ordered by start; those that
/// start together keep their order.
pub open spec fn bucket(m: Seq<(Seq<char>, i64, Seq<char>)>, id: Seq<char>) -> Seq<(i64, Seq<char>)>
    decreases m.len(),
{
    if m.len() == 0 {
        seq![]
    } else if m.last().0 == id {
        insert_by_start(bucket(m.drop_last(), id), (m.last().1, m.last().2))
    } else {
        bucket(m.drop_last(), id)
    }
}

pub open spec fn texts_of(b: Seq<(i64, Seq<char>)>) -> Seq<Seq<char>> {
    b.map_values(|p: (i64, Seq<char>)| p.1)
}

/// Segment `k` is the first with its id: the candidates for that id go to
/// it.
pub open spec fn first_with_id(segs: Seq<DetailedSourceSegment>, k: int) -> bool {
    forall|j: int| 0 <= j < k ==> (#[trigger] segs[j]).id@ != segs[k].id@
}

/// What segment `k` is proposed to read, when anything.
pub open spec fn proposal_for(
    segs: Seq<DetailedSourceSegment>,
    cands: Seq<DetailedCandidate>,
    k: int,
) -> Option<ProposalView> {
    let seg = segs[k];
    let proposed = join_candidates_spec(texts_of(bucket(matched(segs, cands), seg.id@)));
    if !first_with_id(segs, k) || proposed.len() == 0 || proposed == trim_spec(seg.text@) {
        None
    } else {
        Some(
            ProposalView {
                segment_id: seg.id@,
                original_text: seg.text@,
                proposed_text: proposed,
                expected_updated_at: seg.updated_at@,
                expected_revision: seg.expected_revision,
            },
        )
    }
}

/// The proposals, in segment order.
pub open spec fn detailed_proposals_spec(
    segs: Seq<DetailedSourceSegment>,
    cands: Seq<DetailedCandidate>,
    n: int,
) -> Seq<ProposalView>
    decreases n,
{
    if n <= 0 {
        seq![]
    } else {
        let rest = detailed_proposals_spec(segs, cands, n - 1);
        match proposal_for(segs, cands, n - 1) {
            Some(p) => rest.push(p),
            None => rest,
        }
    }
}

proof fn lemma_insert_past_later(v: Seq<(i64, Seq<char>)>, x: (i64, Seq<char>), j: int)
    requires
        0 <= j <= v.len(),
        forall|k: int| j <= k < v.len() ==> (#[trigger] v[k]).0 > x.0,
    ensures
        insert_by_start(v, x) == insert_by_start(v.take(j), x) + v.skip(j),
    decreases v.len() - j,
{
    if j < v.len() {
        let w = v.drop_last();
        assert(v.last().0 > x.0);
        assert forall|k: int| j <= k < w.len() implies (#[trigger] w[k]).0 > x.0 by {
            assert(w[k] == v[k]);
        }
        lemma_insert_past_later(w, x, j);
        assert(w.take(j) =~= v.take(j));
        assert(w.skip(j).push(v.last()) =~= v.skip(j));
        assert((insert_by_start(v.take(j), x) + w.skip(j)).push(v.last()) =~= insert_by_start(
            v.take(j),
            x,
        ) + v.skip(j));
    } else {
        assert(v.take(j) =~= v);
        assert(insert_by_start(v, x) + v.skip(j) =~= insert_by_start(v, x));
    }
}

pub open spec fn pairs_view(v: Seq<(i64, String)>) -> Seq<(i64, Seq<char>)> {
    v.map_values(|p: (i64, String)| (p.0, p.1@))
}

fn insert_pair(v: &mut Vec<(i64, String)>, x: (i64, String))
    ensures
        pairs_view(final(v)@) == insert_by_start(pairs_view(old(v)@), (x.0, x.1@)),
{
    let ghost v0 = pairs_view(v@);
    let ghost xv = (x.0, x.1@);
    let mut j: usize = v.len();
    while j > 0 && v[j - 1].0 > x.0
        invariant
            j <= v0.len(),
            v0 == pairs_view(v@),
            xv == (x.0, x.1@),
            forall|k: int| j <= k < v0.len() ==> (#[trigger] v0[k]).0 > xv.0,
        decreases j,
    {
        assert(v0[j - 1] == (v@[j - 1].0, v@[j - 1].1@));
        j -= 1;
    }
    proof {
        lemma_insert_past_later(v0, xv, j as int);
        if j > 0 {
            let t = v0.take(j as int);
            assert(t.last() == v0[j - 1]);
            assert(insert_by_start(t, xv) == t.push(xv));
        } else {
            assert(v0.take(0) =~= Seq::<(i64, Seq<char>)>::empty());
        }
    }
    let ghost before = v@;
    v.insert(j, x);
    assert(pairs_view(v@) =~= v0.take(j as int).push(xv) + v0.skip(j as int)) by {
        assert(v@ == before.insert(j as int, x));
    }
}

fn is_first_with_id(segs: &Vec<DetailedSourceSegment>, k: usize) -> (res: bool)
    requires
        k < segs.len(),
    ensures
        res == first_with_id(segs@, k as int),
{
    let mut j: usize = 0;
    while j < k
        invariant
            j <= k < segs.len(),
            forall|m: int| 0 <= m < j ==> (#[trigger] segs@[m]).id@ != segs@[k as int].id@,
        decreases k - j,
    {
        if str_eq(segs[j].id.as_str(), segs[k].id.as_str()) {
            return false;
        }
        j += 1;
    }
    true
}

/// The proposals a detailed run makes: each candidate is matched to the one
/// segment it unambiguously replaces (counting those that match none); each
/// segment's candidates, ordered by start, are joined; and a segment is
/// proposed the joined text only when there is some and it differs from the
/// segment's trimmed text.
pub fn plan_detailed_proposals(
    segments: &Vec<DetailedSourceSegment>,
    candidates: &Vec<DetailedCandidate>,
) -> (out: DetailedPlan)
    requires
        candidates_fit(segments@, candidates@),
    ensures
        proposals_view(out.proposals@) == detailed_proposals_spec(
            segments@,
            candidates@,
            segments@.len() as int,
        ),
        out.unmatched + matched(segments@, candidates@).len() == candidates@.len(),
{
    let ghost segs = segments@;
    let ghost cands = candidates@;
    // Candidates, matched to the segment id each replaces.
    let mut hits: Vec<(String, i64, String)> = Vec::new();
    let mut unmatched: usize = 0;
    let mut i: usize = 0;
    while i < candidates.len()
        invariant
            i <= candidates.len(),
            segs == segments@,
            cands == candidates@,
            candidates_fit(segs, cands),
            hits@.map_values(|h: (String, i64, String)| (h.0@, h.1, h.2@)) == matched(
                segs,
                cands.take(i as int),
            ),
            unmatched + matched(segs, cands.take(i as int)).len() == i,
        decreases candidates.len() - i,
    {
        assert(cands.take(i + 1).drop_last() =~= cands.take(i as int));
        assert(cands.take(i + 1).last() == cands[i as int]);
        let c = &candidates[i];
        assert(cands[i as int] == *c);
        let start = if c.start_ms >= 0 {
            c.start_ms
        } else {
            0
        };
        let end = if c.end_ms >= start + 1 {
            c.end_ms
        } else {
            start + 1
        };
        let speaker: Option<&str> = match &c.expected_speaker {
            Some(s) => Some(s.as_str()),
            None => None,
        };
        assert(match speaker {
            Some(s) => Some(s@),
            None => None,
        } == opt_chars(c.expected_speaker));
        match unique_detailed_segment_match(segments.as_slice(), start, end, speaker) {
            Some(seg) => {
                let ghost before = hits@;
                hits.push((seg.id.clone(), start, c.text.clone()));
                assert(hits@.map_values(|h: (String, i64, String)| (h.0@, h.1, h.2@))
                    =~= before.map_values(|h: (String, i64, String)| (h.0@, h.1, h.2@)).push(
                    (seg.id@, start, c.text@),
                ));
            },
            None => {
                unmatched += 1;
            },
        }
        i += 1;
    }
    assert(cands.take(candidates.len() as int) =~= cands);
    let ghost m = matched(segs, cands);
    let mut proposals: Vec<ProposalPlan> = Vec::new();
    let mut k: usize = 0;
    while k < segments.len()
        invariant
            k <= segments.len(),
            segs == segments@,
            cands == candidates@,
            m == matched(segs, cands),
            hits@.map_values(|h: (String, i64, String)| (h.0@, h.1, h.2@)) == m,
            proposals_view(proposals@) == detailed_proposals_spec(segs, cands, k as int),
        decreases segments.len() - k,
    {
        let seg = &segments[k];
        let ghost id = seg.id@;
        let mut b: Vec<(i64, String)> = Vec::new();
        let mut h: usize = 0;
        while h < hits.len()
            invariant
                h <= hits.len(),
                k < segments.len(),
                seg == &segments@[k as int],
                id == seg.id@,
                hits@.map_values(|x: (String, i64, String)| (x.0@, x.1, x.2@)) == m,
                pairs_view(b@) == bucket(m.take(h as int), id),
            decreases hits.len() - h,
        {
            assert(m.take(h + 1).drop_last() =~= m.take(h as int));
            assert(m.take(h + 1).last() == m[h as int]);
            assert(m[h as int] == (hits@[h as int].0@, hits@[h as int].1, hits@[h as int].2@));
            if str_eq(hits[h].0.as_str(), seg.id.as_str()) {
                insert_pair(&mut b, (hits[h].1, hits[h].2.clone()));
            }
            h += 1;
        }
        assert(m.take(hits.len() as int) =~= m);
        let mut texts: Vec<String> = Vec::new();
        let mut t: usize = 0;
        while t < b.len()
            invariant
                t <= b.len(),
                strings_view(texts@) == texts_of(pairs_view(b@)).take(t as int),
            decreases b.len() - t,
        {
            let ghost before = texts@;
            texts.push(b[t].1.clone());
            assert(pairs_view(b@)[t as int] == (b@[t as int].0, b@[t as int].1@));
            assert(texts_of(pairs_view(b@))[t as int] == b@[t as int].1@);
            assert(strings_view(texts@) =~= strings_view(before).push(b@[t as int].1@));
            assert(texts_of(pairs_view(b@)).take(t + 1) =~= texts_of(pairs_view(b@)).take(
                t as int,
            ).push(b@[t as int].1@));
            t += 1;
        }
        assert(texts_of(pairs_view(b@)).take(b.len() as int) =~= texts_of(pairs_view(b@)));
        let proposed = join_detailed_candidate_texts(texts);
        let proposed_chars = crate::text::chars_of(proposed.as_str());
        let trimmed = crate::text::trim(&crate::text::chars_of(seg.text.as_str()));
        let first = is_first_with_id(segments, k);
        assert(segs[k as int] == *seg);
        if first && proposed_chars.len() > 0 && !crate::text::same_chars(&proposed_chars, &trimmed) {
            let ghost before = proposals@;
            proposals.push(
                ProposalPlan {
                    segment_id: seg.id.clone(),
                    original_text: seg.text.clone(),
                    proposed_text: proposed,
                    expected_updated_at: seg.updated_at.clone(),
                    expected_revision: seg.expected_revision,
                },
            );
            assert(proposals_view(proposals@) =~= proposals_view(before).push(
                proposal_for(segs, cands, k as int)->0,
            ));
        }
        k += 1;
    }
    DetailedPlan { proposals, unmatched }
}

/// Only differences are proposed: every proposal brings text, and text that
/// is not what its segment already reads once trimmed.
pub proof fn law_only_differences_are_proposed(
    segs: Seq<DetailedSourceSegment>,
    cands: Seq<DetailedCandidate>,
    n: int,
)
    ensures
        forall|q: int|
            0 <= q < detailed_proposals_spec(segs, cands, n).len() ==> {
                let p = #[trigger] detailed_proposals_spec(segs, cands, n)[q];
                p.proposed_text.len() > 0 && p.proposed_text != trim_spec(p.original_text)
            },
    decreases n,
{
    if n > 0 {
        law_only_differences_are_proposed(segs, cands, n - 1);
        let rest = detailed_proposals_spec(segs, cands, n - 1);
        match proposal_for(segs, cands, n - 1) {
            Some(p) => {
                assert forall|q: int| 0 <= q < rest.push(p).len() implies {
                    let x = #[trigger] rest.push(p)[q];
                    x.proposed_text.len() > 0 && x.proposed_text != trim_spec(x.original_text)
                } by {
                    if q < rest.len() {
                        assert(rest.push(p)[q] == rest[q]);
                    }
                }
            },
            None => {},
        }
    }
}

} // verus!
