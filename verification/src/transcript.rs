//! A recording's transcript as the interface shows it: its segments in time
//! order, each with its speaker's display name.
use vstd::prelude::*;
use crate::text::{copy_string, opt_chars, str_eq};

verus! {

/// A speaker row as read; a field is `None` where the row does not hold it
/// as text.
#[derive(Debug)]
pub struct SpeakerRow {
    pub id: Option<String>,
    pub display_name: Option<String>,
}

/// A transcript segment row as read. The confidence is carried as the bit
/// pattern of its `f64`.
#[derive(Debug)]
pub struct SegmentRow {
    pub id: String,
    pub project_id: String,
    pub recording_id: String,
    pub speaker_id: Option<String>,
    pub start_ms: i64,
    pub end_ms: i64,
    pub text: String,
    pub confidence_bits: Option<u64>,
    pub created_at: String,
}

/// A segment as shown, with its speaker's name when the speaker is known.
#[derive(Debug)]
pub struct TranscriptSegment {
    pub row: SegmentRow,
    pub speaker_name: Option<String>,
}

/// A recording's transcript. The read is always whole: `capped` is never
/// set and `capped_recording_ids` is always empty; `cap` is the store's
/// single-read page size.
#[derive(Debug)]
pub struct TranscriptView {
    pub segments: Vec<TranscriptSegment>,
    pub capped: bool,
    pub cap: u32,
    pub capped_recording_ids: Vec<String>,
}

/// The display name of the speaker `id`: that of the last row naming it,
/// among the rows that hold both fields.
pub open spec fn speaker_name(speakers: Seq<SpeakerRow>, id: Seq<char>) -> Option<Seq<char>>
    decreases speakers.len(),
{
    if speakers.len() == 0 {
        None
    } else {
        let last = speakers.last();
        match (opt_chars(last.id), opt_chars(last.display_name)) {
            (Some(i), Some(n)) => if i == id {
                Some(n)
            } else {
                speaker_name(speakers.drop_last(), id)
            },
            _ => speaker_name(speakers.drop_last(), id),
        }
    }
}

/// The name shown for a segment whose speaker id is `id`.
pub open spec fn name_for(speakers: Seq<SpeakerRow>, id: Option<Seq<char>>) -> Option<Seq<char>> {
    match id {
        Some(i) => speaker_name(speakers, i),
        None => None,
    }
}

/// `x` placed into `v` after every element that starts no later than it.
pub open spec fn insert_by_start(v: Seq<SegmentRow>, x: SegmentRow) -> Seq<SegmentRow>
    decreases v.len(),
{
    if v.len() == 0 {
        seq![x]
    } else if v.last().start_ms <= x.start_ms {
        v.push(x)
    } else {
        insert_by_start(v.drop_last(), x).push(v.last())
    }
}

/// The rows ordered by start; rows that start together keep their order.
pub open spec fn by_start(rows: Seq<SegmentRow>) -> Seq<SegmentRow>
    decreases rows.len(),
{
    if rows.len() == 0 {
        rows
    } else {
        insert_by_start(by_start(rows.drop_last()), rows.last())
    }
}

pub open spec fn sorted_by_start(v: Seq<SegmentRow>) -> bool {
    forall|i: int, j: int| 0 <= i <= j < v.len() ==> v[i].start_ms <= v[j].start_ms
}

/// Where no later element starts at or before `x`, placing `x` is placing it
/// in the part before them.
proof fn lemma_insert_past_later(v: Seq<SegmentRow>, x: SegmentRow, j: int)
    requires
        0 <= j <= v.len(),
        forall|k: int| j <= k < v.len() ==> #[trigger] v[k].start_ms > x.start_ms,
    ensures
        insert_by_start(v, x) == insert_by_start(v.take(j), x) + v.skip(j),
    decreases v.len() - j,
{
    if j < v.len() {
        let w = v.drop_last();
        assert(v.last().start_ms > x.start_ms);
        assert forall|k: int| j <= k < w.len() implies #[trigger] w[k].start_ms > x.start_ms by {
            assert(w[k] == v[k]);
        }
        lemma_insert_past_later(w, x, j);
        assert(w.take(j) =~= v.take(j));
        assert(w.skip(j).push(v.last()) =~= v.skip(j));
        assert(insert_by_start(v, x) == insert_by_start(w, x).push(v.last()));
        assert((insert_by_start(v.take(j), x) + w.skip(j)).push(v.last()) =~= insert_by_start(
            v.take(j),
            x,
        ) + v.skip(j));
    } else {
        assert(v.take(j) =~= v);
        assert(v.skip(j) =~= Seq::<SegmentRow>::empty());
        assert(insert_by_start(v, x) + v.skip(j) =~= insert_by_start(v, x));
    }
}

proof fn lemma_insert_keeps_sorted(v: Seq<SegmentRow>, x: SegmentRow)
    requires
        sorted_by_start(v),
    ensures
        sorted_by_start(insert_by_start(v, x)),
        insert_by_start(v, x).len() == v.len() + 1,
        forall|k: int|
            0 <= k < insert_by_start(v, x).len() ==> #[trigger] insert_by_start(v, x)[k] == x
                || v.contains(insert_by_start(v, x)[k]),
    decreases v.len(),
{
    if v.len() > 0 && v.last().start_ms > x.start_ms {
        let w = v.drop_last();
        lemma_insert_keeps_sorted(w, x);
        let r = insert_by_start(w, x);
        assert forall|k: int| 0 <= k < r.len() implies #[trigger] r[k].start_ms <= v.last().start_ms by {
            if r[k] != x {
                let m = choose|m: int| 0 <= m < w.len() && w[m] == r[k];
                assert(w[m] == v[m]);
            }
        }
        assert forall|k: int| 0 <= k < r.push(v.last()).len() implies #[trigger] r.push(v.last())[k]
            == x || v.contains(r.push(v.last())[k]) by {
            if k < r.len() {
                if r[k] != x {
                    let m = choose|m: int| 0 <= m < w.len() && w[m] == r[k];
                    assert(v[m] == r[k]);
                }
            } else {
                assert(v[v.len() - 1] == v.last());
            }
        }
    } else if v.len() > 0 {
        assert forall|k: int| 0 <= k < v.push(x).len() implies #[trigger] v.push(x)[k] == x
            || v.contains(v.push(x)[k]) by {
            if k < v.len() {
                assert(v.push(x)[k] == v[k]);
            }
        }
    }
}

/// The transcript's rows come out in start order, each of them a row that
/// was read, as many as were read.
pub proof fn law_transcript_rows_come_out_in_start_order(rows: Seq<SegmentRow>)
    ensures
        sorted_by_start(by_start(rows)),
        by_start(rows).len() == rows.len(),
        forall|k: int| 0 <= k < rows.len() ==> rows.contains(#[trigger] by_start(rows)[k]),
    decreases rows.len(),
{
    if rows.len() > 0 {
        let w = rows.drop_last();
        law_transcript_rows_come_out_in_start_order(w);
        lemma_insert_keeps_sorted(by_start(w), rows.last());
        let r = by_start(rows);
        assert forall|k: int| 0 <= k < rows.len() implies rows.contains(#[trigger] r[k]) by {
            if r[k] == rows.last() {
                assert(rows[rows.len() - 1] == rows.last());
            } else {
                let m = choose|m: int| 0 <= m < by_start(w).len() && by_start(w)[m] == r[k];
                let q = choose|q: int| 0 <= q < w.len() && w[q] == by_start(w)[m];
                assert(rows[q] == w[q]);
            }
        }
    }
}

/// Rows read in start order are shown in the order read: rows that start
/// together are never reordered.
pub proof fn law_rows_in_start_order_keep_their_order(rows: Seq<SegmentRow>)
    requires
        sorted_by_start(rows),
    ensures
        by_start(rows) == rows,
    decreases rows.len(),
{
    if rows.len() > 0 {
        let w = rows.drop_last();
        assert(sorted_by_start(w));
        law_rows_in_start_order_keep_their_order(w);
        if w.len() > 0 {
            assert(w.last() == rows[rows.len() - 2]);
        }
        assert(w.push(rows.last()) =~= rows);
    }
}

/// Places `x` into the start-ordered `v`, after everything that starts no
/// later than it.
fn insert_row(v: &mut Vec<SegmentRow>, x: SegmentRow)
    requires
        sorted_by_start(old(v)@),
    ensures
        final(v)@ == insert_by_start(old(v)@, x),
{
    let ghost v0 = v@;
    let start = x.start_ms;
    let mut j: usize = v.len();
    while j > 0 && v[j - 1].start_ms > start
        invariant
            j <= v0.len(),
            v@ == v0,
            start == x.start_ms,
            forall|k: int| j <= k < v0.len() ==> #[trigger] v0[k].start_ms > x.start_ms,
        decreases j,
    {
        j -= 1;
    }
    proof {
        lemma_insert_past_later(v0, x, j as int);
        if j > 0 {
            let t = v0.take(j as int);
            assert(t.last() == v0[j - 1]);
            assert(insert_by_start(t, x) == t.push(x));
        } else {
            assert(v0.take(0) =~= Seq::<SegmentRow>::empty());
        }
        assert(v0.take(j as int).push(x) + v0.skip(j as int) =~= v0.insert(j as int, x));
    }
    v.insert(j, x);
}

fn name_of(speakers: &Vec<SpeakerRow>, id: &str) -> (res: Option<String>)
    ensures
        opt_chars(res) == speaker_name(speakers@, id@),
{
    let mut i: usize = speakers.len();
    assert(speakers@.take(i as int) =~= speakers@);
    while i > 0
        invariant
            i <= speakers.len(),
            speaker_name(speakers@, id@) == speaker_name(speakers@.take(i as int), id@),
        decreases i,
    {
        let ghost t = speakers@.take(i as int);
        assert(t.drop_last() =~= speakers@.take(i - 1));
        assert(t.last() == speakers@[i - 1]);
        let row = &speakers[i - 1];
        match (&row.id, &row.display_name) {
            (Some(sid), Some(name)) => {
                if str_eq(sid.as_str(), id) {
                    return Some(copy_string(name.as_str()));
                }
            },
            _ => {},
        }
        i -= 1;
    }
    None
}

/// Why a transcript cannot be shown: the recording is not in the project,
/// `ไม่พบการบันทึก {recording} ในโปรเจกต์ {project}`.
pub open spec fn missing_recording_message(project_id: Seq<char>, recording_id: Seq<char>) -> Seq<
    char,
> {
    "ไม่พบการบันทึก "@ + recording_id + " ในโปรเจกต์ "@ + project_id
}

/// The transcript of `recording_id` in `project_id`: refused when the
/// recording is not found in that project; otherwise every segment row, in
/// start order with rows that start together in the order read, each with
/// its speaker's display name.
pub fn transcript_view(
    project_id: &str,
    recording_id: &str,
    recording_found: bool,
    speakers: &Vec<SpeakerRow>,
    rows: Vec<SegmentRow>,
    cap: u32,
) -> (res: Result<TranscriptView, String>)
    ensures
        !recording_found ==> (res matches Err(m) && m@ == missing_recording_message(
            project_id@,
            recording_id@,
        )),
        recording_found ==> (res matches Ok(view) && {
            &&& view.segments@.len() == rows@.len()
            &&& forall|k: int|
                0 <= k < rows@.len() ==> (#[trigger] view.segments@[k]).row == by_start(rows@)[k]
                    && opt_chars(view.segments@[k].speaker_name) == name_for(
                    speakers@,
                    opt_chars(by_start(rows@)[k].speaker_id),
                )
            &&& !view.capped
            &&& view.cap == cap
            &&& view.capped_recording_ids@.len() == 0
        }),
{
    if !recording_found {
        let mut m = copy_string("ไม่พบการบันทึก ");
        crate::text::push_text(&mut m, recording_id);
        crate::text::push_text(&mut m, " ในโปรเจกต์ ");
        crate::text::push_text(&mut m, project_id);
        return Err(m);
    }
    let ghost all = rows@;
    let mut ordered: Vec<SegmentRow> = Vec::new();
    let mut rest = rows;
    let mut taken: usize = 0;
    let n = rest.len();
    while rest.len() > 0
        invariant
            taken + rest@.len() == n,
            n == all.len(),
            rest@ == all.skip(taken as int),
            ordered@ == by_start(all.take(taken as int)),
            sorted_by_start(ordered@),
        decreases rest.len(),
    {
        let x = rest.remove(0);
        proof {
            assert(x == all[taken as int]);
            assert(all.take(taken + 1).drop_last() =~= all.take(taken as int));
            assert(all.take(taken + 1).last() == x);
            lemma_insert_keeps_sorted(ordered@, x);
        }
        insert_row(&mut ordered, x);
        taken += 1;
        assert(rest@ =~= all.skip(taken as int));
    }
    assert(all.take(n as int) =~= all);
    proof {
        law_transcript_rows_come_out_in_start_order(all);
    }
    let mut segments: Vec<TranscriptSegment> = Vec::new();
    let ghost sorted = ordered@;
    let mut k: usize = 0;
    while ordered.len() > 0
        invariant
            k + ordered@.len() == n,
            sorted.len() == n,
            ordered@ == sorted.skip(k as int),
            segments@.len() == k,
            forall|m: int|
                0 <= m < k ==> (#[trigger] segments@[m]).row == sorted[m] && opt_chars(
                    segments@[m].speaker_name,
                ) == name_for(speakers@, opt_chars(sorted[m].speaker_id)),
        decreases ordered.len(),
    {
        let row = ordered.remove(0);
        assert(row == sorted[k as int]);
        let speaker_name = match &row.speaker_id {
            Some(id) => name_of(speakers, id.as_str()),
            None => None,
        };
        segments.push(TranscriptSegment { row, speaker_name });
        k += 1;
        assert(ordered@ =~= sorted.skip(k as int));
    }
    Ok(TranscriptView { segments, capped: false, cap, capped_recording_ids: Vec::new() })
}

// ---------------------------------------------------------------------------
// Corrections
// ---------------------------------------------------------------------------

/// Why a correction was not made.
#[derive(Debug)]
pub enum CorrectionError {
    /// The request cannot be applied as given.
    InvalidInput(String),
    /// The stored transcript does not allow it.
    Storage(String),
}

pub enum CorrectionErrorView {
    InvalidInput(Seq<char>),
    Storage(Seq<char>),
}

impl View for CorrectionError {
    type V = CorrectionErrorView;

    open spec fn view(&self) -> CorrectionErrorView {
        match self {
            CorrectionError::InvalidInput(m) => CorrectionErrorView::InvalidInput(m@),
            CorrectionError::Storage(m) => CorrectionErrorView::Storage(m@),
        }
    }
}

/// The message for a correction with no text.
pub const EMPTY_CORRECTION: &'static str = "ข้อความ transcript ต้องไม่ว่าง";
/// The policy a manual correction is recorded under.
pub const MANUAL_CORRECTION_POLICY: &'static str = "manual_user_correction";
/// The audit event a manual correction is recorded as.
pub const SEGMENT_CORRECTED_EVENT: &'static str = "transcript.segment.corrected";

/// The message for a segment that is not in the recording.
pub open spec fn missing_segment_message(segment_id: Seq<char>, recording_id: Seq<char>) -> Seq<char> {
    "ไม่พบ transcript segment "@ + segment_id + " ในการบันทึก "@ + recording_id
}

/// A correction to apply to a segment: the segment with its new text, and
/// the text it had, which the accepted refinement proposal keeps.
#[derive(Debug)]
pub struct SegmentCorrection {
    pub segment: SegmentRow,
    pub original_text: String,
}

/// What correcting a segment comes to: refused when the text is empty once
/// trimmed (checked first) or the segment was not found in the recording;
/// nothing to do when the trimmed text is the text it has; otherwise the
/// segment with the trimmed text, every other field kept.
pub fn plan_segment_correction(
    recording_id: &str,
    segment_id: &str,
    corrected_text: &str,
    found: Option<SegmentRow>,
) -> (res: Result<Option<SegmentCorrection>, CorrectionError>)
    ensures
        ({
            let text = crate::text::trim_spec(corrected_text@);
            if text.len() == 0 {
                res matches Err(e) && e@ == CorrectionErrorView::InvalidInput(EMPTY_CORRECTION@)
            } else {
                match found {
                    None => res matches Err(e) && e@ == CorrectionErrorView::InvalidInput(
                        missing_segment_message(segment_id@, recording_id@),
                    ),
                    Some(row) => if row.text@ == text {
                        res matches Ok(None)
                    } else {
                        res matches Ok(Some(c)) && c.original_text@ == row.text@ && c.segment.text@
                            == text && c.segment.id == row.id && c.segment.project_id
                            == row.project_id && c.segment.recording_id == row.recording_id
                            && c.segment.speaker_id == row.speaker_id && c.segment.start_ms
                            == row.start_ms && c.segment.end_ms == row.end_ms
                            && c.segment.confidence_bits == row.confidence_bits
                            && c.segment.created_at == row.created_at
                    },
                }
            }
        }),
{
    let trimmed = crate::text::trim(&crate::text::chars_of(corrected_text));
    if trimmed.len() == 0 {
        return Err(CorrectionError::InvalidInput(copy_string(EMPTY_CORRECTION)));
    }
    let row = match found {
        Some(row) => row,
        None => {
            let mut m = copy_string("ไม่พบ transcript segment ");
            crate::text::push_text(&mut m, segment_id);
            crate::text::push_text(&mut m, " ในการบันทึก ");
            crate::text::push_text(&mut m, recording_id);
            return Err(CorrectionError::InvalidInput(m));
        },
    };
    let original = crate::text::chars_of(row.text.as_str());
    if crate::text::same_chars(&original, &trimmed) {
        return Ok(None);
    }
    let SegmentRow {
        id,
        project_id,
        recording_id: rec,
        speaker_id,
        start_ms,
        end_ms,
        text,
        confidence_bits,
        created_at,
    } = row;
    Ok(
        Some(
            SegmentCorrection {
                segment: SegmentRow {
                    id,
                    project_id,
                    recording_id: rec,
                    speaker_id,
                    start_ms,
                    end_ms,
                    text: crate::text::string_of(&trimmed),
                    confidence_bits,
                    created_at,
                },
                original_text: text,
            },
        ),
    )
}

/// The accepted refinement proposal a manual correction is kept as.
#[derive(Debug)]
pub struct CorrectionProposal {
    pub id: String,
    pub project_id: String,
    pub segment_id: String,
    pub original_text: String,
    pub proposed_text: String,
    pub policy: String,
    pub status: String,
    pub reviewed_at: String,
    pub created_at: String,
    pub updated_at: String,
}

/// The audit event a manual correction leaves.
#[derive(Debug)]
pub struct CorrectionAudit {
    pub id: String,
    pub project_id: String,
    pub event_type: String,
    pub actor: String,
    pub recording_id: String,
    pub segment_id: String,
    pub proposal_id: String,
    pub policy: String,
    pub created_at: String,
}

/// The rows that go with a manual correction, written in one transaction
/// with the corrected segment: an accepted proposal keeping the text before
/// and after, and an audit event by the user naming recording, segment,
/// proposal and policy. The two ids are fresh and random.
pub fn correction_records(
    project_id: &str,
    recording_id: &str,
    correction: &SegmentCorrection,
    timestamp: &str,
) -> (res: (CorrectionProposal, CorrectionAudit))
    ensures
        ({
            let (p, a) = res;
            &&& p.id@.len() == 36
            &&& p.project_id@ == project_id@
            &&& p.segment_id@ == correction.segment.id@
            &&& p.original_text@ == correction.original_text@
            &&& p.proposed_text@ == correction.segment.text@
            &&& p.policy@ == MANUAL_CORRECTION_POLICY@
            &&& p.status@ == "accepted"@
            &&& p.reviewed_at@ == timestamp@
            &&& p.created_at@ == timestamp@
            &&& p.updated_at@ == timestamp@
            &&& a.id@.len() == 36
            &&& a.project_id@ == project_id@
            &&& a.event_type@ == SEGMENT_CORRECTED_EVENT@
            &&& a.actor@ == "user"@
            &&& a.recording_id@ == recording_id@
            &&& a.segment_id@ == correction.segment.id@
            &&& a.proposal_id@ == p.id@
            &&& a.policy@ == MANUAL_CORRECTION_POLICY@
            &&& a.created_at@ == timestamp@
        }),
{
    let proposal_id = crate::live_meeting::new_uuid();
    let audit_id = crate::live_meeting::new_uuid();
    let proposal = CorrectionProposal {
        id: proposal_id.clone(),
        project_id: copy_string(project_id),
        segment_id: correction.segment.id.clone(),
        original_text: correction.original_text.clone(),
        proposed_text: correction.segment.text.clone(),
        policy: copy_string(MANUAL_CORRECTION_POLICY),
        status: copy_string("accepted"),
        reviewed_at: copy_string(timestamp),
        created_at: copy_string(timestamp),
        updated_at: copy_string(timestamp),
    };
    let audit = CorrectionAudit {
        id: audit_id,
        project_id: copy_string(project_id),
        event_type: copy_string(SEGMENT_CORRECTED_EVENT),
        actor: copy_string("user"),
        recording_id: copy_string(recording_id),
        segment_id: correction.segment.id.clone(),
        proposal_id,
        policy: copy_string(MANUAL_CORRECTION_POLICY),
        created_at: copy_string(timestamp),
    };
    (proposal, audit)
}

/// The revision an utterance is at, as stored.
#[derive(Debug)]
pub struct CurrentRevision {
    pub revision: i64,
    pub raw_text: String,
    pub language: Option<String>,
    pub confidence_bits: Option<u64>,
    pub start_ms: i64,
    pub end_ms: i64,
    pub model_run_id: Option<String>,
}

/// A person's revision of an utterance, superseding the current one.
#[derive(Debug)]
pub struct HumanRevision {
    pub id: String,
    pub utterance_id: String,
    pub revision: i64,
    pub supersedes_revision: Option<i64>,
    pub expected_revision: Option<i64>,
    pub raw_text: String,
    pub effective_text: String,
    pub language: Option<String>,
    pub confidence_bits: Option<u64>,
    pub start_ms: i64,
    pub end_ms: i64,
    pub model_run_id: Option<String>,
    pub review_state: String,
}

pub const SCOPE_MISMATCH: &'static str = "current transcript revision scope does not match selection";
pub const REVISION_EXHAUSTED: &'static str = "transcript revision is exhausted";

/// The revision a person's correction of an utterance makes: refused when the
/// current revision belongs to another project or recording, or when no
/// revision number follows it; otherwise the next revision, superseding and
/// expecting the current one, keeping its raw text, timing, language,
/// confidence and model run, with the corrected text as its effective text,
/// marked reviewed.
pub fn plan_human_revision(
    project_id: &str,
    recording_id: &str,
    scope_project_id: &str,
    scope_recording_id: &str,
    utterance_id: &str,
    revision_id: &str,
    corrected_text: &str,
    current: CurrentRevision,
) -> (res: Result<HumanRevision, CorrectionError>)
    ensures
        scope_project_id@ != project_id@ || scope_recording_id@ != recording_id@ ==> (res matches Err(
            e,
        ) && e@ == CorrectionErrorView::Storage(SCOPE_MISMATCH@)),
        scope_project_id@ == project_id@ && scope_recording_id@ == recording_id@ && current.revision
            == i64::MAX ==> (res matches Err(e) && e@ == CorrectionErrorView::Storage(
            REVISION_EXHAUSTED@,
        )),
        scope_project_id@ == project_id@ && scope_recording_id@ == recording_id@ && current.revision
            < i64::MAX ==> (res matches Ok(r) && {
            &&& r.id@ == revision_id@
            &&& r.utterance_id@ == utterance_id@
            &&& r.revision == current.revision + 1
            &&& r.supersedes_revision == Some(current.revision)
            &&& r.expected_revision == Some(current.revision)
            &&& r.raw_text == current.raw_text
            &&& r.effective_text@ == corrected_text@
            &&& r.language == current.language
            &&& r.confidence_bits == current.confidence_bits
            &&& r.start_ms == current.start_ms
            &&& r.end_ms == current.end_ms
            &&& r.model_run_id == current.model_run_id
            &&& r.review_state@ == "reviewed"@
        }),
{
    if !str_eq(scope_project_id, project_id) || !str_eq(scope_recording_id, recording_id) {
        return Err(CorrectionError::Storage(copy_string(SCOPE_MISMATCH)));
    }
    let next = match current.revision.checked_add(1) {
        Some(n) => n,
        None => {
            return Err(CorrectionError::Storage(copy_string(REVISION_EXHAUSTED)));
        },
    };
    let CurrentRevision {
        revision,
        raw_text,
        language,
        confidence_bits,
        start_ms,
        end_ms,
        model_run_id,
    } = current;
    Ok(
        HumanRevision {
            id: copy_string(revision_id),
            utterance_id: copy_string(utterance_id),
            revision: next,
            supersedes_revision: Some(revision),
            expected_revision: Some(revision),
            raw_text,
            effective_text: copy_string(corrected_text),
            language,
            confidence_bits,
            start_ms,
            end_ms,
            model_run_id,
            review_state: copy_string("reviewed"),
        },
    )
}

} // verus!
