//! Projection of diarization turns from a concatenated file back onto a
//! locally captured recording's timeline, and the choice of the far-side
//! slices that go into that file.
//!
//! Concatenating chunks produces a file whose offsets are not the
//! recording's timestamps: they diverge as soon as a chunk is missing. Every
//! turn is therefore projected through [`ChunkSpan`]s; a turn that straddles
//! a gap is split at the boundary rather than stretched across it, and the
//! pieces of one speaker that meet exactly are rejoined.
use vstd::prelude::*;
use crate::text::same_chars;

verus! {

/// Largest magnitude of any time the projection accepts, so that shifting a
/// time between the two timelines stays inside an `i64`.
pub const MAX_ABS_MS: i64 = 2_305_843_009_213_693_952;

/// Where one chunk sits in both timelines.
#[derive(Clone, Copy, Debug, PartialEq, Eq, Structural)]
pub struct ChunkSpan {
    pub file_start_ms: i64,
    pub file_end_ms: i64,
    pub recording_start_ms: i64,
}

/// One turn as the diarization worker reports it, in file time. The
/// worker's confidence stays with the caller; projected pieces name the
/// turn they came from.
#[derive(Clone, Debug)]
pub struct DiarizeTurn {
    pub speaker_key: String,
    pub display_name: String,
    pub start_ms: i64,
    pub end_ms: i64,
}

/// One turn on the recording's timeline. `source_turn` is the index of the
/// worker turn whose speaker, name and confidence it carries.
#[derive(Clone, Debug)]
pub struct SpeakerTurn {
    pub speaker_key: String,
    pub display_name: String,
    pub start_ms: i64,
    pub end_ms: i64,
    pub source_turn: usize,
    pub overlap: bool,
}

pub open spec fn span_to_recording(span: ChunkSpan, file_ms: i64) -> int {
    span.recording_start_ms + (file_ms - span.file_start_ms)
}

pub open spec fn in_bounds(x: i64) -> bool {
    -MAX_ABS_MS <= x <= MAX_ABS_MS
}

impl ChunkSpan {
    /// The recording time of a file offset that lies in this span.
    pub fn to_recording(self, file_ms: i64) -> (ms: i64)
        requires
            in_bounds(self.recording_start_ms),
            in_bounds(self.file_start_ms),
            in_bounds(file_ms),
        ensures
            ms == span_to_recording(self, file_ms),
    {
        self.recording_start_ms + (file_ms - self.file_start_ms)
    }
}

// ---------------------------------------------------------------------------
// Planning spans
// ---------------------------------------------------------------------------

/// The spans for `chunks` (recording start, decoded duration), laid end to
/// end from file offset `cursor`; chunks without audio are skipped.
pub open spec fn plan_from(chunks: Seq<(i64, i64)>, cursor: int) -> Seq<ChunkSpan>
    decreases chunks.len(),
{
    if chunks.len() == 0 {
        seq![]
    } else {
        let (rec, dur) = chunks[0];
        if dur <= 0 {
            plan_from(chunks.drop_first(), cursor)
        } else {
            seq![
                ChunkSpan {
                    file_start_ms: cursor as i64,
                    file_end_ms: (cursor + dur) as i64,
                    recording_start_ms: rec,
                },
            ] + plan_from(chunks.drop_first(), cursor + dur)
        }
    }
}

/// Total decoded audio of the chunks that have any.
pub open spec fn audio_total(chunks: Seq<(i64, i64)>) -> int
    decreases chunks.len(),
{
    if chunks.len() == 0 {
        0
    } else {
        let rest = audio_total(chunks.drop_last());
        if chunks.last().1 <= 0 {
            rest
        } else {
            rest + chunks.last().1
        }
    }
}

proof fn lemma_audio_total_mono(chunks: Seq<(i64, i64)>, i: int)
    requires
        0 <= i <= chunks.len(),
    ensures
        0 <= audio_total(chunks.take(i)) <= audio_total(chunks),
    decreases chunks.len() - i,
{
    if i < chunks.len() {
        lemma_audio_total_mono(chunks, i + 1);
        assert(chunks.take(i + 1).drop_last() =~= chunks.take(i));
        lemma_audio_total_nonneg(chunks.take(i));
    } else {
        assert(chunks.take(i) =~= chunks);
        lemma_audio_total_nonneg(chunks);
    }
}

proof fn lemma_audio_total_nonneg(chunks: Seq<(i64, i64)>)
    ensures
        audio_total(chunks) >= 0,
    decreases chunks.len(),
{
    if chunks.len() > 0 {
        lemma_audio_total_nonneg(chunks.drop_last());
    }
}

proof fn lemma_plan_append(chunks: Seq<(i64, i64)>, i: int, cursor: int)
    requires
        0 <= i < chunks.len(),
        cursor == audio_total(chunks.take(i)),
    ensures
        plan_from(chunks.take(i + 1), 0) == plan_from(chunks.take(i), 0) + plan_from(
            seq![chunks[i]],
            cursor,
        ),
{
    lemma_plan_split(chunks.take(i + 1), i, 0);
    assert(chunks.take(i + 1).take(i) =~= chunks.take(i));
    assert(chunks.take(i + 1).skip(i) =~= seq![chunks[i]]);
}

/// Planning a concatenation is planning its halves, the second from where
/// the first ends.
proof fn lemma_plan_split(chunks: Seq<(i64, i64)>, i: int, cursor: int)
    requires
        0 <= i <= chunks.len(),
    ensures
        plan_from(chunks, cursor) == plan_from(chunks.take(i), cursor) + plan_from(
            chunks.skip(i),
            cursor + audio_total(chunks.take(i)),
        ),
    decreases chunks.len(),
{
    if i == 0 {
        assert(chunks.take(0) =~= Seq::<(i64, i64)>::empty());
        assert(chunks.skip(0) =~= chunks);
        assert(plan_from(chunks.take(0), cursor) =~= Seq::<ChunkSpan>::empty());
        assert(Seq::<ChunkSpan>::empty() + plan_from(chunks, cursor) =~= plan_from(chunks, cursor));
    } else {
        let t = chunks.drop_first();
        lemma_plan_split(t, i - 1, cursor + (if chunks[0].1 <= 0 {
            0
        } else {
            chunks[0].1 as int
        }));
        assert(chunks.take(i).drop_first() =~= t.take(i - 1));
        assert(chunks.skip(i) =~= t.skip(i - 1));
        lemma_audio_total_first(chunks.take(i));
        let head = plan_from(chunks.take(i), cursor);
        let (rec, dur) = chunks[0];
        if dur <= 0 {
        } else {
            let first = seq![
                ChunkSpan {
                    file_start_ms: cursor as i64,
                    file_end_ms: (cursor + dur) as i64,
                    recording_start_ms: rec,
                },
            ];
            assert(first + (plan_from(t.take(i - 1), cursor + dur) + plan_from(
                t.skip(i - 1),
                cursor + dur + audio_total(t.take(i - 1)),
            )) =~= (first + plan_from(t.take(i - 1), cursor + dur)) + plan_from(
                t.skip(i - 1),
                cursor + dur + audio_total(t.take(i - 1)),
            ));
        }
    }
}

/// `audio_total` read from the front.
proof fn lemma_audio_total_first(chunks: Seq<(i64, i64)>)
    requires
        chunks.len() > 0,
    ensures
        audio_total(chunks) == (if chunks[0].1 <= 0 {
            0
        } else {
            chunks[0].1 as int
        }) + audio_total(chunks.drop_first()),
    decreases chunks.len(),
{
    if chunks.len() == 1 {
        assert(chunks.drop_first() =~= Seq::<(i64, i64)>::empty());
        assert(chunks.drop_last() =~= Seq::<(i64, i64)>::empty());
    } else {
        lemma_audio_total_first(chunks.drop_last());
        assert(chunks.drop_last().drop_first() =~= chunks.drop_first().drop_last());
        assert(chunks.drop_first().last() == chunks.last());
    }
}

/// Lays chunks end to end, recording where each lands in the concatenated
/// file and where it belongs in the recording. `chunks` is
/// `(recording_start_ms, decoded_duration_ms)` in playback order; a chunk of
/// zero or negative duration contributes nothing.
pub fn plan_spans(chunks: &[(i64, i64)]) -> (spans: Vec<ChunkSpan>)
    requires
        audio_total(chunks@) <= i64::MAX,
    ensures
        spans@ == plan_from(chunks@, 0),
{
    let mut spans: Vec<ChunkSpan> = Vec::new();
    let mut cursor: i64 = 0;
    let mut i: usize = 0;
    while i < chunks.len()
        invariant
            i <= chunks@.len(),
            audio_total(chunks@) <= i64::MAX,
            cursor == audio_total(chunks@.take(i as int)),
            spans@ == plan_from(chunks@.take(i as int), 0),
        decreases chunks@.len() - i,
    {
        let (recording_start_ms, duration_ms) = chunks[i];
        proof {
            lemma_plan_append(chunks@, i as int, cursor as int);
            assert(chunks@.take(i + 1).drop_last() =~= chunks@.take(i as int));
            lemma_audio_total_mono(chunks@, i + 1);
            let one = seq![chunks@[i as int]];
            assert(one.drop_first() =~= Seq::<(i64, i64)>::empty());
            assert(one[0] == (recording_start_ms, duration_ms));
            assert(plan_from(one.drop_first(), cursor as int) =~= Seq::<ChunkSpan>::empty());
            assert(plan_from(one.drop_first(), cursor + duration_ms) =~= Seq::<ChunkSpan>::empty());
            if duration_ms > 0 {
                assert(plan_from(one, cursor as int) =~= seq![
                    ChunkSpan {
                        file_start_ms: cursor,
                        file_end_ms: (cursor + duration_ms) as i64,
                        recording_start_ms,
                    },
                ]);
            } else {
                assert(plan_from(one, cursor as int) =~= Seq::<ChunkSpan>::empty());
            }
            assert(chunks@.take(i + 1).last() == (recording_start_ms, duration_ms));
        }
        if duration_ms > 0 {
            spans.push(
                ChunkSpan {
                    file_start_ms: cursor,
                    file_end_ms: cursor + duration_ms,
                    recording_start_ms,
                },
            );
            cursor = cursor + duration_ms;
        }
        i += 1;
    }
    assert(chunks@.take(chunks@.len() as int) =~= chunks@);
    spans
}

/// Total audio the spans expect the concatenated file to hold.
pub fn concatenated_duration_ms(spans: &[ChunkSpan]) -> (ms: i64)
    ensures
        ms == (if spans@.len() == 0 {
            0
        } else {
            spans@.last().file_end_ms
        }),
{
    if spans.len() == 0 {
        0
    } else {
        spans[spans.len() - 1].file_end_ms
    }
}

/// How far the produced file may differ from the planned length before the
/// projection stops being trustworthy: generous for per-chunk rounding,
/// far short of a whole dropped chunk.
pub fn duration_tolerance_ms(chunk_count: usize) -> (ms: i64)
    requires
        100 + 2 * chunk_count <= i64::MAX,
    ensures
        ms == 100 + 2 * chunk_count,
{
    100 + 2 * (chunk_count as i64)
}

/// Why a concatenated file is not diarized: its length strays from the
/// planned one by more than the tolerance.
pub open spec fn drift_message(actual_ms: i64, planned_ms: i64) -> Seq<char> {
    "ความยาวไฟล์เสียงที่รวมแล้วไม่ตรงกับที่คำนวณไว้ ("@ + crate::text::signed_decimal(actual_ms as int)
        + " ms เทียบกับ "@ + crate::text::signed_decimal(planned_ms as int)
        + " ms)              — เวลาของผู้พูดจะคลาดเคลื่อน จึงไม่แยกเสียงผู้พูด"@
}

/// The distance between two lengths.
pub open spec fn abs_diff(a: int, b: int) -> int {
    if a >= b {
        a - b
    } else {
        b - a
    }
}

/// Whether the concatenated file is too far from its planned length to be
/// trusted, and then why: more than `duration_tolerance_ms` of the number
/// of spans apart.
pub fn drift_refusal(actual_ms: i64, planned_ms: i64, span_count: usize) -> (res: Option<String>)
    requires
        actual_ms >= 0,
        planned_ms >= 0,
        100 + 2 * span_count <= i64::MAX,
    ensures
        abs_diff(actual_ms as int, planned_ms as int) > 100 + 2 * span_count ==> (res matches Some(m)
            && m@ == drift_message(actual_ms, planned_ms)),
        abs_diff(actual_ms as int, planned_ms as int) <= 100 + 2 * span_count ==> res is None,
{
    let drift = if actual_ms >= planned_ms {
        actual_ms - planned_ms
    } else {
        planned_ms - actual_ms
    };
    if drift > duration_tolerance_ms(span_count) {
        let mut m = crate::text::copy_string("ความยาวไฟล์เสียงที่รวมแล้วไม่ตรงกับที่คำนวณไว้ (");
        crate::text::push_i64(&mut m, actual_ms);
        crate::text::push_text(&mut m, " ms เทียบกับ ");
        crate::text::push_i64(&mut m, planned_ms);
        crate::text::push_text(&mut m, " ms)              — เวลาของผู้พูดจะคลาดเคลื่อน จึงไม่แยกเสียงผู้พูด");
        Some(m)
    } else {
        None
    }
}

// ---------------------------------------------------------------------------
// Projecting turns
// ---------------------------------------------------------------------------

/// The piece of turn number `idx` that falls inside `span`, if any.
pub open spec fn piece_of(t: DiarizeTurn, idx: int, span: ChunkSpan) -> Option<SpeakerTurn> {
    let lo = if t.start_ms <= t.end_ms {
        t.start_ms
    } else {
        t.end_ms
    };
    let hi = if t.start_ms <= t.end_ms {
        t.end_ms
    } else {
        t.start_ms
    };
    let os = if lo >= span.file_start_ms {
        lo
    } else {
        span.file_start_ms
    };
    let oe = if hi <= span.file_end_ms {
        hi
    } else {
        span.file_end_ms
    };
    if os >= oe {
        None
    } else {
        Some(
            SpeakerTurn {
                speaker_key: t.speaker_key,
                display_name: t.display_name,
                start_ms: span_to_recording(span, os) as i64,
                end_ms: span_to_recording(span, oe) as i64,
                source_turn: idx as usize,
                overlap: false,
            },
        )
    }
}

/// The pieces of one turn, span by span.
pub open spec fn pieces_of_turn(t: DiarizeTurn, idx: int, spans: Seq<ChunkSpan>) -> Seq<
    SpeakerTurn,
>
    decreases spans.len(),
{
    if spans.len() == 0 {
        seq![]
    } else {
        let rest = pieces_of_turn(t, idx, spans.drop_last());
        match piece_of(t, idx, spans.last()) {
            Some(p) => rest.push(p),
            None => rest,
        }
    }
}

/// The pieces of every turn, turn by turn.
pub open spec fn all_pieces(turns: Seq<DiarizeTurn>, spans: Seq<ChunkSpan>) -> Seq<SpeakerTurn>
    decreases turns.len(),
{
    if turns.len() == 0 {
        seq![]
    } else {
        all_pieces(turns.drop_last(), spans) + pieces_of_turn(
            turns.last(),
            turns.len() - 1,
            spans,
        )
    }
}

/// Adds a piece, rejoining it to the previous one when the same speaker
/// meets it exactly.
pub open spec fn merge_piece(acc: Seq<SpeakerTurn>, p: SpeakerTurn) -> Seq<SpeakerTurn> {
    if acc.len() > 0 && acc.last().speaker_key@ == p.speaker_key@ && acc.last().end_ms
        == p.start_ms {
        acc.update(acc.len() - 1, SpeakerTurn { end_ms: p.end_ms, ..acc.last() })
    } else {
        acc.push(p)
    }
}

pub open spec fn merge_all(pieces: Seq<SpeakerTurn>) -> Seq<SpeakerTurn>
    decreases pieces.len(),
{
    if pieces.len() == 0 {
        seq![]
    } else {
        merge_piece(merge_all(pieces.drop_last()), pieces.last())
    }
}

pub open spec fn turn_key_le(a: SpeakerTurn, b: SpeakerTurn) -> bool {
    a.start_ms < b.start_ms || (a.start_ms == b.start_ms && a.end_ms <= b.end_ms)
}

/// Inserts `x` after every element that does not sort after it.
pub open spec fn insert_sorted(s: Seq<SpeakerTurn>, x: SpeakerTurn) -> Seq<SpeakerTurn>
    decreases s.len(),
{
    if s.len() == 0 {
        seq![x]
    } else if turn_key_le(s.last(), x) {
        s.push(x)
    } else {
        insert_sorted(s.drop_last(), x).push(s.last())
    }
}

/// Stable sort by `(start_ms, end_ms)`.
pub open spec fn sort_turns(s: Seq<SpeakerTurn>) -> Seq<SpeakerTurn>
    decreases s.len(),
{
    if s.len() == 0 {
        seq![]
    } else {
        insert_sorted(sort_turns(s.drop_last()), s.last())
    }
}

/// The projection of `turns` through `spans`: every piece of every turn
/// inside the audio, same-speaker pieces that meet exactly rejoined, in
/// recording order.
pub open spec fn project_spec(turns: Seq<DiarizeTurn>, spans: Seq<ChunkSpan>) -> Seq<SpeakerTurn> {
    sort_turns(merge_all(all_pieces(turns, spans)))
}

pub open spec fn spans_in_bounds(spans: Seq<ChunkSpan>) -> bool {
    forall|j: int|
        0 <= j < spans.len() ==> in_bounds((#[trigger] spans[j]).file_start_ms) && in_bounds(
            spans[j].file_end_ms,
        ) && in_bounds(spans[j].recording_start_ms)
}

pub open spec fn turns_in_bounds(turns: Seq<DiarizeTurn>) -> bool {
    forall|i: int|
        0 <= i < turns.len() ==> in_bounds((#[trigger] turns[i]).start_ms) && in_bounds(
            turns[i].end_ms,
        )
}

proof fn lemma_pieces_concat(turns: Seq<DiarizeTurn>, spans: Seq<ChunkSpan>, i: int, j: int)
    requires
        0 <= i < turns.len(),
        0 <= j < spans.len(),
    ensures
        all_pieces(turns.take(i), spans) + pieces_of_turn(turns[i], i, spans.take(j + 1)) == (
        match piece_of(turns[i], i, spans[j]) {
            Some(p) => (all_pieces(turns.take(i), spans) + pieces_of_turn(
                turns[i],
                i,
                spans.take(j),
            )).push(p),
            None => all_pieces(turns.take(i), spans) + pieces_of_turn(turns[i], i, spans.take(j)),
        }),
{
    assert(spans.take(j + 1).drop_last() =~= spans.take(j));
    let a = all_pieces(turns.take(i), spans);
    let b = pieces_of_turn(turns[i], i, spans.take(j));
    match piece_of(turns[i], i, spans[j]) {
        Some(p) => {
            assert(a + b.push(p) =~= (a + b).push(p));
        },
        None => {},
    }
}

proof fn lemma_merge_push(pieces: Seq<SpeakerTurn>, p: SpeakerTurn)
    ensures
        merge_all(pieces.push(p)) == merge_piece(merge_all(pieces), p),
{
    assert(pieces.push(p).drop_last() =~= pieces);
}

/// Inserts `x` into the sorted vector `v`, keeping equal keys in arrival
/// order.
fn insert_turn(v: &mut Vec<SpeakerTurn>, x: SpeakerTurn)
    ensures
        final(v)@ == insert_sorted(old(v)@, x),
{
    let ghost s0 = v@;
    v.push(x);
    let mut i: usize = v.len() - 1;
    assert(s0.take(i as int) =~= s0);
    assert(v@.skip(i + 1) =~= Seq::<SpeakerTurn>::empty());
    assert(insert_sorted(s0, x) + Seq::<SpeakerTurn>::empty() =~= insert_sorted(s0, x));
    assert(v@.take(i as int) =~= s0);
    while i > 0 && !turn_le(&v[i - 1], &v[i])
        invariant
            0 <= i < v.len(),
            v@.len() == s0.len() + 1,
            v@[i as int] == x,
            insert_sorted(s0, x) == insert_sorted(s0.take(i as int), x) + v@.skip(i + 1),
            v@.take(i as int) == s0.take(i as int),
        decreases i,
    {
        let ghost before = v@;
        let prev = v[i - 1].clone_turn();
        let cur = v[i].clone_turn();
        v.set(i - 1, cur);
        v.set(i, prev);
        proof {
            let t = s0.take(i as int);
            assert(t.last() == s0[i - 1]);
            assert(t.drop_last() =~= s0.take(i - 1));
            assert(!turn_key_le(t.last(), x));
            assert(insert_sorted(t, x) == insert_sorted(s0.take(i - 1), x).push(s0[i - 1]));
            assert(v@.skip(i as int) =~= seq![s0[i - 1]] + before.skip(i + 1));
            assert(insert_sorted(s0.take(i - 1), x).push(s0[i - 1]) + before.skip(i + 1)
                =~= insert_sorted(s0.take(i - 1), x) + (seq![s0[i - 1]] + before.skip(i + 1)));
            assert(v@.take(i - 1) =~= s0.take(i - 1));
        }
        i -= 1;
    }
    proof {
        let t = s0.take(i as int);
        if i > 0 {
            assert(t.last() == s0[i - 1]);
            assert(turn_key_le(t.last(), x));
        }
        assert(insert_sorted(t, x) =~= t.push(x));
        assert(v@ =~= t.push(x) + v@.skip(i + 1));
    }
}

fn turn_le(a: &SpeakerTurn, b: &SpeakerTurn) -> (res: bool)
    ensures
        res == turn_key_le(*a, *b),
{
    a.start_ms < b.start_ms || (a.start_ms == b.start_ms && a.end_ms <= b.end_ms)
}

impl SpeakerTurn {
    /// A copy of this turn.
    pub fn clone_turn(&self) -> (out: SpeakerTurn)
        ensures
            out == *self,
    {
        SpeakerTurn {
            speaker_key: self.speaker_key.clone(),
            display_name: self.display_name.clone(),
            start_ms: self.start_ms,
            end_ms: self.end_ms,
            source_turn: self.source_turn,
            overlap: self.overlap,
        }
    }
}

/// Stable sort by `(start_ms, end_ms)`.
fn sort_by_time(v: Vec<SpeakerTurn>) -> (out: Vec<SpeakerTurn>)
    ensures
        out@ == sort_turns(v@),
{
    let mut out: Vec<SpeakerTurn> = Vec::new();
    let mut i: usize = 0;
    while i < v.len()
        invariant
            i <= v.len(),
            out@ == sort_turns(v@.take(i as int)),
        decreases v.len() - i,
    {
        let x = v[i].clone_turn();
        proof {
            assert(v@.take(i + 1).drop_last() =~= v@.take(i as int));
        }
        insert_turn(&mut out, x);
        i += 1;
    }
    assert(v@.take(v.len() as int) =~= v@);
    out
}

/// Projects diarization turns from file time into recording time.
///
/// A turn is clipped to the spans it actually covers; anything outside them
/// is dropped. A reversed turn is read as its range. Pieces of one speaker
/// that meet exactly in recording time are rejoined. The result is ordered
/// by `(start_ms, end_ms)`.
pub fn project_turns(turns: &[DiarizeTurn], spans: &[ChunkSpan]) -> (projected: Vec<SpeakerTurn>)
    requires
        turns_in_bounds(turns@),
        spans_in_bounds(spans@),
    ensures
        projected@ == project_spec(turns@, spans@),
{
    let mut projected: Vec<SpeakerTurn> = Vec::new();
    let mut i: usize = 0;
    while i < turns.len()
        invariant
            i <= turns@.len(),
            turns_in_bounds(turns@),
            spans_in_bounds(spans@),
            projected@ == merge_all(all_pieces(turns@.take(i as int), spans@)),
        decreases turns@.len() - i,
    {
        let turn = &turns[i];
        let (turn_start, turn_end) = if turn.start_ms <= turn.end_ms {
            (turn.start_ms, turn.end_ms)
        } else {
            (turn.end_ms, turn.start_ms)
        };
        assert(in_bounds(turns@[i as int].start_ms) && in_bounds(turns@[i as int].end_ms));
        let mut j: usize = 0;
        while j < spans.len()
            invariant
                i < turns@.len(),
                j <= spans@.len(),
                turn == turns@[i as int],
                turn_start == (if turn.start_ms <= turn.end_ms {
                    turn.start_ms
                } else {
                    turn.end_ms
                }),
                turn_end == (if turn.start_ms <= turn.end_ms {
                    turn.end_ms
                } else {
                    turn.start_ms
                }),
                in_bounds(turn_start),
                in_bounds(turn_end),
                spans_in_bounds(spans@),
                projected@ == merge_all(
                    all_pieces(turns@.take(i as int), spans@) + pieces_of_turn(
                        turns@[i as int],
                        i as int,
                        spans@.take(j as int),
                    ),
                ),
            decreases spans@.len() - j,
        {
            let span = spans[j];
            assert(in_bounds(spans@[j as int].file_start_ms));
            let overlap_start = if turn_start >= span.file_start_ms {
                turn_start
            } else {
                span.file_start_ms
            };
            let overlap_end = if turn_end <= span.file_end_ms {
                turn_end
            } else {
                span.file_end_ms
            };
            proof {
                lemma_pieces_concat(turns@, spans@, i as int, j as int);
            }
            if overlap_start < overlap_end {
                let start_ms = span.to_recording(overlap_start);
                let end_ms = span.to_recording(overlap_end);
                let piece = SpeakerTurn {
                    speaker_key: turn.speaker_key.clone(),
                    display_name: turn.display_name.clone(),
                    start_ms,
                    end_ms,
                    source_turn: i,
                    overlap: false,
                };
                let ghost pieces_before = all_pieces(turns@.take(i as int), spans@)
                    + pieces_of_turn(turns@[i as int], i as int, spans@.take(j as int));
                proof {
                    lemma_merge_push(pieces_before, piece);
                }
                let n = projected.len();
                let rejoin = n > 0 && same_chars_str(&projected[n - 1].speaker_key, &piece.speaker_key)
                    && projected[n - 1].end_ms == piece.start_ms;
                if rejoin {
                    let mut last = projected[n - 1].clone_turn();
                    last.end_ms = piece.end_ms;
                    projected.set(n - 1, last);
                } else {
                    projected.push(piece);
                }
            }
            j += 1;
        }
        proof {
            assert(spans@.take(spans@.len() as int) =~= spans@);
            assert(turns@.take(i + 1).drop_last() =~= turns@.take(i as int));
            assert(turns@.take(i + 1).last() == turns@[i as int]);
        }
        i += 1;
    }
    proof {
        assert(turns@.take(turns@.len() as int) =~= turns@);
    }
    sort_by_time(projected)
}

/// Whether two strings hold the same text.
fn same_chars_str(a: &String, b: &String) -> (res: bool)
    ensures
        res == (a@ == b@),
{
    let x = crate::text::chars_of(a.as_str());
    let y = crate::text::chars_of(b.as_str());
    same_chars(&x, &y)
}

// ---------------------------------------------------------------------------
// Laws
// ---------------------------------------------------------------------------

/// Planned spans lie end to end in the file from offset zero, each holding
/// some audio, and together they hold exactly the chunks' audio.
pub proof fn law_spans_tile_the_file(chunks: Seq<(i64, i64)>)
    requires
        audio_total(chunks) <= i64::MAX,
    ensures
        ({
            let spans = plan_from(chunks, 0);
            &&& spans.len() > 0 ==> spans[0].file_start_ms == 0
            &&& forall|k: int|
                0 <= k < spans.len() ==> (#[trigger] spans[k]).file_start_ms < spans[k].file_end_ms
            &&& forall|k: int|
                #![trigger spans[k]]
                0 <= k < spans.len() - 1 ==> spans[k].file_end_ms == spans[k + 1].file_start_ms
            &&& (if spans.len() == 0 {
                0
            } else {
                spans.last().file_end_ms as int
            }) == audio_total(chunks)
        }),
{
    lemma_plan_shape(chunks, 0);
}

proof fn lemma_plan_shape(chunks: Seq<(i64, i64)>, cursor: int)
    requires
        0 <= cursor,
        cursor + audio_total(chunks) <= i64::MAX,
    ensures
        ({
            let spans = plan_from(chunks, cursor);
            &&& spans.len() > 0 ==> spans[0].file_start_ms == cursor
            &&& forall|k: int|
                0 <= k < spans.len() ==> (#[trigger] spans[k]).file_start_ms < spans[k].file_end_ms
            &&& forall|k: int|
                #![trigger spans[k]]
                0 <= k < spans.len() - 1 ==> spans[k].file_end_ms == spans[k + 1].file_start_ms
            &&& (if spans.len() == 0 {
                cursor
            } else {
                spans.last().file_end_ms as int
            }) == cursor + audio_total(chunks)
        }),
    decreases chunks.len(),
{
    if chunks.len() > 0 {
        lemma_audio_total_first(chunks);
        lemma_audio_total_nonneg(chunks.drop_first());
        let (rec, dur) = chunks[0];
        if dur <= 0 {
            lemma_plan_shape(chunks.drop_first(), cursor);
        } else {
            lemma_plan_shape(chunks.drop_first(), cursor + dur);
            let rest = plan_from(chunks.drop_first(), cursor + dur);
            let first = ChunkSpan {
                file_start_ms: cursor as i64,
                file_end_ms: (cursor + dur) as i64,
                recording_start_ms: rec,
            };
            let spans = seq![first] + rest;
            assert(spans[0] == first);
            assert forall|k: int| 0 <= k < spans.len() implies (#[trigger] spans[k]).file_start_ms
                < spans[k].file_end_ms by {
                if k > 0 {
                    assert(spans[k] == rest[k - 1]);
                }
            }
            assert forall|k: int|
                #![trigger spans[k]]
                0 <= k < spans.len() - 1 implies spans[k].file_end_ms
                    == spans[k + 1].file_start_ms by {
                assert(spans[k + 1] == rest[k]);
                if k > 0 {
                    assert(spans[k] == rest[k - 1]);
                }
            }
            if rest.len() > 0 {
                assert(spans.last() == rest.last());
            }
        }
    }
}

proof fn lemma_insert_sorted(s: Seq<SpeakerTurn>, x: SpeakerTurn)
    requires
        forall|i: int, j: int| 0 <= i < j < s.len() ==> turn_key_le(s[i], s[j]),
    ensures
        ({
            let r = insert_sorted(s, x);
            &&& r.len() == s.len() + 1
            &&& forall|i: int, j: int| 0 <= i < j < r.len() ==> turn_key_le(r[i], r[j])
            &&& forall|k: int| 0 <= k < r.len() ==> r[k] == x || s.contains(r[k])
            &&& r.to_multiset() == s.to_multiset().insert(x)
        }),
    decreases s.len(),
{
    broadcast use vstd::seq_lib::group_to_multiset_ensures;

    if s.len() == 0 {
        assert(seq![x].to_multiset() =~= Seq::<SpeakerTurn>::empty().to_multiset().insert(x)) by {
            assert(seq![x] =~= Seq::<SpeakerTurn>::empty().push(x));
        }
    } else if turn_key_le(s.last(), x) {
        let r = s.push(x);
        assert forall|i: int, j: int| 0 <= i < j < r.len() implies turn_key_le(r[i], r[j]) by {
            if j == s.len() {
                assert(turn_key_le(s[i], s.last()) || i == s.len() - 1);
            }
        }
        assert forall|k: int| 0 <= k < r.len() implies r[k] == x || s.contains(r[k]) by {
            if k < s.len() {
                assert(r[k] == s[k]);
            }
        }
    } else {
        let t = s.drop_last();
        assert forall|i: int, j: int| 0 <= i < j < t.len() implies turn_key_le(t[i], t[j]) by {
            assert(t[i] == s[i] && t[j] == s[j]);
        }
        lemma_insert_sorted(t, x);
        let m = insert_sorted(t, x);
        let r = m.push(s.last());
        assert forall|i: int, j: int| 0 <= i < j < r.len() implies turn_key_le(r[i], r[j]) by {
            if j == m.len() {
                assert(r[j] == s.last());
                assert(r[i] == m[i]);
                if m[i] == x {
                    assert(!turn_key_le(s.last(), x));
                } else {
                    assert(t.contains(m[i]));
                    let k = choose|k: int| 0 <= k < t.len() && t[k] == m[i];
                    assert(s[k] == m[i]);
                    assert(turn_key_le(s[k], s[s.len() - 1]));
                }
            }
        }
        assert forall|k: int| 0 <= k < r.len() implies r[k] == x || s.contains(r[k]) by {
            if k < m.len() {
                if m[k] != x {
                    assert(t.contains(m[k]));
                    let q = choose|q: int| 0 <= q < t.len() && t[q] == m[k];
                    assert(s[q] == m[k]);
                }
            } else {
                assert(s[s.len() - 1] == r[k]);
            }
        }
        assert(s =~= t.push(s.last()));
        assert(r.to_multiset() =~= s.to_multiset().insert(x));
    }
}

proof fn lemma_sort_turns(s: Seq<SpeakerTurn>)
    ensures
        sort_turns(s).len() == s.len(),
        forall|i: int, j: int|
            0 <= i < j < sort_turns(s).len() ==> turn_key_le(sort_turns(s)[i], sort_turns(s)[j]),
        forall|k: int| 0 <= k < sort_turns(s).len() ==> s.contains(#[trigger] sort_turns(s)[k]),
        sort_turns(s).to_multiset() == s.to_multiset(),
    decreases s.len(),
{
    broadcast use vstd::seq_lib::group_to_multiset_ensures;

    if s.len() > 0 {
        let t = s.drop_last();
        lemma_sort_turns(t);
        lemma_insert_sorted(sort_turns(t), s.last());
        let r = sort_turns(s);
        assert forall|k: int| 0 <= k < r.len() implies s.contains(#[trigger] r[k]) by {
            if r[k] == s.last() {
                assert(s[s.len() - 1] == r[k]);
            } else {
                assert(sort_turns(t).contains(r[k]));
                let q = choose|q: int| 0 <= q < sort_turns(t).len() && sort_turns(t)[q] == r[k];
                assert(t.contains(sort_turns(t)[q]));
                let p = choose|p: int| 0 <= p < t.len() && t[p] == r[k];
                assert(s[p] == r[k]);
            }
        }
        assert(s =~= t.push(s.last()));
    }
}

proof fn lemma_merge_nonempty(pieces: Seq<SpeakerTurn>)
    requires
        forall|k: int| 0 <= k < pieces.len() ==> (#[trigger] pieces[k]).start_ms < pieces[k].end_ms,
    ensures
        forall|k: int|
            0 <= k < merge_all(pieces).len() ==> (#[trigger] merge_all(pieces)[k]).start_ms
                < merge_all(pieces)[k].end_ms,
    decreases pieces.len(),
{
    if pieces.len() > 0 {
        let t = pieces.drop_last();
        assert forall|k: int| 0 <= k < t.len() implies (#[trigger] t[k]).start_ms < t[k].end_ms by {
            assert(t[k] == pieces[k]);
        }
        lemma_merge_nonempty(t);
        let p = pieces.last();
        assert(p == pieces[pieces.len() - 1]);
        let m = merge_all(t);
        let r = merge_all(pieces);
        assert(r == merge_piece(m, p));
        if m.len() > 0 && m.last().speaker_key@ == p.speaker_key@ && m.last().end_ms == p.start_ms {
            assert forall|k: int| 0 <= k < r.len() implies (#[trigger] r[k]).start_ms
                < r[k].end_ms by {
                if k < m.len() - 1 {
                    assert(r[k] == m[k]);
                } else {
                    assert(m.last() == m[m.len() - 1]);
                    assert(r[k].start_ms == m[m.len() - 1].start_ms);
                }
            }
        } else {
            assert forall|k: int| 0 <= k < r.len() implies (#[trigger] r[k]).start_ms
                < r[k].end_ms by {
                if k < m.len() {
                    assert(r[k] == m[k]);
                }
            }
        }
    }
}

proof fn lemma_pieces_nonempty(turns: Seq<DiarizeTurn>, spans: Seq<ChunkSpan>)
    requires
        turns_in_bounds(turns),
        spans_in_bounds(spans),
    ensures
        forall|k: int|
            0 <= k < all_pieces(turns, spans).len() ==> (#[trigger] all_pieces(turns, spans)[k]).start_ms
                < all_pieces(turns, spans)[k].end_ms,
    decreases turns.len(),
{
    if turns.len() > 0 {
        let t = turns.drop_last();
        assert forall|i: int| 0 <= i < t.len() implies in_bounds((#[trigger] t[i]).start_ms)
            && in_bounds(t[i].end_ms) by {
            assert(t[i] == turns[i]);
        }
        lemma_pieces_nonempty(t, spans);
        assert(in_bounds(turns[turns.len() - 1].start_ms));
        lemma_turn_pieces_nonempty(turns.last(), turns.len() - 1, spans);
        let a = all_pieces(t, spans);
        let b = pieces_of_turn(turns.last(), turns.len() - 1, spans);
        assert forall|k: int| 0 <= k < (a + b).len() implies (#[trigger] (a + b)[k]).start_ms < (a
            + b)[k].end_ms by {
            if k < a.len() {
                assert((a + b)[k] == a[k]);
            } else {
                assert((a + b)[k] == b[k - a.len()]);
            }
        }
    }
}

proof fn lemma_turn_pieces_nonempty(t: DiarizeTurn, idx: int, spans: Seq<ChunkSpan>)
    requires
        in_bounds(t.start_ms),
        in_bounds(t.end_ms),
        spans_in_bounds(spans),
    ensures
        forall|k: int|
            0 <= k < pieces_of_turn(t, idx, spans).len() ==> (#[trigger] pieces_of_turn(
                t,
                idx,
                spans,
            )[k]).start_ms < pieces_of_turn(t, idx, spans)[k].end_ms,
    decreases spans.len(),
{
    if spans.len() > 0 {
        let rest = spans.drop_last();
        assert forall|j: int| 0 <= j < rest.len() implies in_bounds(
            (#[trigger] rest[j]).file_start_ms,
        ) && in_bounds(rest[j].file_end_ms) && in_bounds(rest[j].recording_start_ms) by {
            assert(rest[j] == spans[j]);
        }
        lemma_turn_pieces_nonempty(t, idx, rest);
        let span = spans.last();
        assert(span == spans[spans.len() - 1]);
        assert(in_bounds(span.file_start_ms) && in_bounds(span.file_end_ms) && in_bounds(
            span.recording_start_ms,
        ));
        let prev = pieces_of_turn(t, idx, rest);
        let all = pieces_of_turn(t, idx, spans);
        match piece_of(t, idx, span) {
            Some(p) => {
                assert(p.start_ms < p.end_ms);
                assert forall|k: int| 0 <= k < all.len() implies (#[trigger] all[k]).start_ms
                    < all[k].end_ms by {
                    if k < prev.len() {
                        assert(all[k] == prev[k]);
                    } else {
                        assert(all[k] == p);
                    }
                }
            },
            None => {},
        }
    }
}

/// Projected turns come out in recording order, each a nonempty stretch.
pub proof fn law_projection_is_ordered_and_nonempty(turns: Seq<DiarizeTurn>, spans: Seq<ChunkSpan>)
    requires
        turns_in_bounds(turns),
        spans_in_bounds(spans),
    ensures
        ({
            let r = project_spec(turns, spans);
            &&& forall|i: int, j: int| 0 <= i < j < r.len() ==> turn_key_le(r[i], r[j])
            &&& forall|k: int| 0 <= k < r.len() ==> (#[trigger] r[k]).start_ms < r[k].end_ms
        }),
{
    let p = all_pieces(turns, spans);
    lemma_pieces_nonempty(turns, spans);
    lemma_merge_nonempty(p);
    lemma_sort_turns(merge_all(p));
    let m = merge_all(p);
    let r = sort_turns(m);
    assert forall|k: int| 0 <= k < r.len() implies (#[trigger] r[k]).start_ms < r[k].end_ms by {
        assert(m.contains(r[k]));
        let q = choose|q: int| 0 <= q < m.len() && m[q] == r[k];
        assert(m[q].start_ms < m[q].end_ms);
    }
}

/// `x` lies on the recording's timeline inside the audio of `span`.
pub open spec fn in_span_image(span: ChunkSpan, x: int) -> bool {
    span.recording_start_ms <= x < span_to_recording(span, span.file_end_ms)
}

/// Some span holds audio at recording time `x`.
pub open spec fn on_recorded_audio(spans: Seq<ChunkSpan>, x: int) -> bool {
    exists|j: int| 0 <= j < spans.len() && #[trigger] in_span_image(spans[j], x)
}

/// A projected turn is faithful when it names a worker turn and carries its
/// speaker and name, and every moment it covers has recorded audio.
pub open spec fn faithful(turns: Seq<DiarizeTurn>, spans: Seq<ChunkSpan>, t: SpeakerTurn) -> bool {
    &&& t.source_turn < turns.len()
    &&& t.speaker_key@ == turns[t.source_turn as int].speaker_key@
    &&& t.display_name@ == turns[t.source_turn as int].display_name@
    &&& forall|x: int| t.start_ms <= x < t.end_ms ==> #[trigger] on_recorded_audio(spans, x)
}

pub open spec fn all_faithful(
    turns: Seq<DiarizeTurn>,
    spans: Seq<ChunkSpan>,
    s: Seq<SpeakerTurn>,
) -> bool {
    forall|k: int| 0 <= k < s.len() ==> #[trigger] faithful(turns, spans, s[k])
}

proof fn lemma_piece_faithful(turns: Seq<DiarizeTurn>, spans: Seq<ChunkSpan>, i: int, j: int)
    requires
        0 <= i < turns.len(),
        0 <= j < spans.len(),
        turns.len() <= usize::MAX,
        turns_in_bounds(turns),
        spans_in_bounds(spans),
    ensures
        piece_of(turns[i], i, spans[j]) matches Some(p) ==> faithful(turns, spans, p),
{
    let t = turns[i];
    let span = spans[j];
    assert(in_bounds(t.start_ms) && in_bounds(t.end_ms));
    assert(in_bounds(span.file_start_ms) && in_bounds(span.file_end_ms) && in_bounds(
        span.recording_start_ms,
    ));
    match piece_of(t, i, span) {
        Some(p) => {
            assert forall|x: int| p.start_ms <= x < p.end_ms implies #[trigger] on_recorded_audio(
                spans,
                x,
            ) by {
                assert(in_span_image(spans[j], x));
            }
        },
        None => {},
    }
}

proof fn lemma_turn_pieces_faithful(turns: Seq<DiarizeTurn>, spans: Seq<ChunkSpan>, i: int, n: int)
    requires
        0 <= i < turns.len(),
        0 <= n <= spans.len(),
        turns.len() <= usize::MAX,
        turns_in_bounds(turns),
        spans_in_bounds(spans),
    ensures
        all_faithful(turns, spans, pieces_of_turn(turns[i], i, spans.take(n))),
    decreases n,
{
    let ps = spans.take(n);
    if n > 0 {
        assert(ps.drop_last() =~= spans.take(n - 1));
        assert(ps.last() == spans[n - 1]);
        lemma_turn_pieces_faithful(turns, spans, i, n - 1);
        lemma_piece_faithful(turns, spans, i, n - 1);
        let prev = pieces_of_turn(turns[i], i, spans.take(n - 1));
        let all = pieces_of_turn(turns[i], i, ps);
        assert forall|k: int| 0 <= k < all.len() implies #[trigger] faithful(turns, spans, all[k]) by {
            if k < prev.len() {
                assert(all[k] == prev[k]);
            }
        }
    } else {
        assert(pieces_of_turn(turns[i], i, ps) =~= Seq::<SpeakerTurn>::empty());
    }
}

proof fn lemma_all_pieces_faithful(turns: Seq<DiarizeTurn>, spans: Seq<ChunkSpan>, m: int)
    requires
        0 <= m <= turns.len(),
        turns.len() <= usize::MAX,
        turns_in_bounds(turns),
        spans_in_bounds(spans),
    ensures
        all_faithful(turns, spans, all_pieces(turns.take(m), spans)),
    decreases m,
{
    if m > 0 {
        let tm = turns.take(m);
        assert(tm.drop_last() =~= turns.take(m - 1));
        assert(tm.last() == turns[m - 1]);
        assert(spans.take(spans.len() as int) =~= spans);
        lemma_all_pieces_faithful(turns, spans, m - 1);
        lemma_turn_pieces_faithful(turns, spans, m - 1, spans.len() as int);
        let a = all_pieces(turns.take(m - 1), spans);
        let b = pieces_of_turn(turns[m - 1], m - 1, spans);
        assert(all_pieces(tm, spans) == a + b);
        assert forall|k: int| 0 <= k < (a + b).len() implies #[trigger] faithful(
            turns,
            spans,
            (a + b)[k],
        ) by {
            if k < a.len() {
                assert((a + b)[k] == a[k]);
            } else {
                assert((a + b)[k] == b[k - a.len()]);
            }
        }
    } else {
        assert(all_pieces(turns.take(0), spans) =~= Seq::<SpeakerTurn>::empty()) by {
            assert(turns.take(0) =~= Seq::<DiarizeTurn>::empty());
        }
    }
}

proof fn lemma_merge_faithful(turns: Seq<DiarizeTurn>, spans: Seq<ChunkSpan>, pieces: Seq<SpeakerTurn>)
    requires
        all_faithful(turns, spans, pieces),
    ensures
        all_faithful(turns, spans, merge_all(pieces)),
    decreases pieces.len(),
{
    if pieces.len() > 0 {
        let t = pieces.drop_last();
        assert forall|k: int| 0 <= k < t.len() implies #[trigger] faithful(turns, spans, t[k]) by {
            assert(t[k] == pieces[k]);
        }
        lemma_merge_faithful(turns, spans, t);
        let p = pieces.last();
        assert(faithful(turns, spans, pieces[pieces.len() - 1]));
        let m = merge_all(t);
        let r = merge_all(pieces);
        assert(r == merge_piece(m, p));
        if m.len() > 0 && m.last().speaker_key@ == p.speaker_key@ && m.last().end_ms == p.start_ms {
            let last = m[m.len() - 1];
            assert(faithful(turns, spans, last));
            let joined = SpeakerTurn { end_ms: p.end_ms, ..last };
            assert forall|x: int| joined.start_ms <= x < joined.end_ms implies #[trigger] on_recorded_audio(
                spans,
                x,
            ) by {
                if x < last.end_ms {
                    assert(on_recorded_audio(spans, x));
                } else {
                    assert(p.start_ms <= x < p.end_ms);
                }
            }
            assert(faithful(turns, spans, joined));
            assert forall|k: int| 0 <= k < r.len() implies #[trigger] faithful(turns, spans, r[k]) by {
                if k < m.len() - 1 {
                    assert(r[k] == m[k]);
                } else {
                    assert(r[k] == joined);
                }
            }
        } else {
            assert forall|k: int| 0 <= k < r.len() implies #[trigger] faithful(turns, spans, r[k]) by {
                if k < m.len() {
                    assert(r[k] == m[k]);
                } else {
                    assert(r[k] == p);
                }
            }
        }
    }
}

/// Every projected turn carries the speaker and name of the worker turn it
/// came from, and never reaches over missing audio: a turn that straddles a
/// gap is split at the gap, and pieces are only rejoined where the audio
/// runs on.
pub proof fn law_projection_stays_on_recorded_audio(turns: Seq<DiarizeTurn>, spans: Seq<ChunkSpan>)
    requires
        turns.len() <= usize::MAX,
        turns_in_bounds(turns),
        spans_in_bounds(spans),
    ensures
        all_faithful(turns, spans, project_spec(turns, spans)),
{
    assert(turns.take(turns.len() as int) =~= turns);
    lemma_all_pieces_faithful(turns, spans, turns.len() as int);
    let p = all_pieces(turns, spans);
    lemma_merge_faithful(turns, spans, p);
    let m = merge_all(p);
    lemma_sort_turns(m);
    let r = sort_turns(m);
    assert forall|k: int| 0 <= k < r.len() implies #[trigger] faithful(turns, spans, r[k]) by {
        assert(m.contains(r[k]));
        let q = choose|q: int| 0 <= q < m.len() && m[q] == r[k];
        assert(faithful(turns, spans, m[q]));
    }
}

proof fn lemma_no_spans_no_pieces(turns: Seq<DiarizeTurn>)
    ensures
        all_pieces(turns, seq![]) == Seq::<SpeakerTurn>::empty(),
    decreases turns.len(),
{
    if turns.len() > 0 {
        lemma_no_spans_no_pieces(turns.drop_last());
        assert(pieces_of_turn(turns.last(), turns.len() - 1, seq![]) =~= Seq::<SpeakerTurn>::empty());
        assert(Seq::<SpeakerTurn>::empty() + Seq::<SpeakerTurn>::empty() =~= Seq::<
            SpeakerTurn,
        >::empty());
    }
}

/// Nothing can be placed on the recording without audio to place it on.
pub proof fn law_nothing_is_projected_without_audio(turns: Seq<DiarizeTurn>)
    ensures
        project_spec(turns, seq![]) == Seq::<SpeakerTurn>::empty(),
{
    lemma_no_spans_no_pieces(turns);
}

/// A slice row of a recording as read: its file, its start on the
/// recording's timeline, its number, and how long its audio is by its WAV
/// header (`None` when the header could not be read).
#[derive(Debug)]
pub struct SliceRow {
    pub file_path: String,
    pub start_ms: i64,
    pub sequence_no: i64,
    pub duration_ms: Option<i64>,
}

/// A far-side slice that goes into the concatenated file.
#[derive(Debug)]
pub struct SystemChunk {
    pub file_path: String,
    pub start_ms: i64,
    pub duration_ms: i64,
}

pub struct SystemView {
    pub file_path: Seq<char>,
    pub start_ms: i64,
    pub duration_ms: i64,
    pub sequence_no: i64,
}

/// The far-side slices whose audio could be measured, in row order.
pub open spec fn system_rows(rows: Seq<SliceRow>, style: crate::paths::PathStyle) -> Seq<SystemView>
    decreases rows.len(),
{
    if rows.len() == 0 {
        seq![]
    } else {
        let prev = system_rows(rows.drop_last(), style);
        let r = rows.last();
        if crate::live_meeting::path_channel(style, r.file_path@) == Some(
            crate::live_meeting::CHANNEL_SYSTEM@,
        ) && r.duration_ms is Some {
            prev.push(
                SystemView {
                    file_path: r.file_path@,
                    start_ms: r.start_ms,
                    duration_ms: r.duration_ms->0,
                    sequence_no: r.sequence_no,
                },
            )
        } else {
            prev
        }
    }
}

/// Slices are concatenated by recorded time, then by number.
pub open spec fn system_le(a: SystemView, b: SystemView) -> bool {
    a.start_ms < b.start_ms || (a.start_ms == b.start_ms && a.sequence_no <= b.sequence_no)
}

pub open spec fn insert_system(s: Seq<SystemView>, x: SystemView) -> Seq<SystemView>
    decreases s.len(),
{
    if s.len() == 0 {
        seq![x]
    } else if system_le(s.last(), x) {
        s.push(x)
    } else {
        insert_system(s.drop_last(), x).push(s.last())
    }
}

/// Stable sort by `(start_ms, sequence_no)`.
pub open spec fn sort_system(s: Seq<SystemView>) -> Seq<SystemView>
    decreases s.len(),
{
    if s.len() == 0 {
        seq![]
    } else {
        insert_system(sort_system(s.drop_last()), s.last())
    }
}

proof fn lemma_insert_system_at(s: Seq<SystemView>, x: SystemView, i: int)
    requires
        0 <= i <= s.len(),
        i == 0 || system_le(s[i - 1], x),
        forall|k: int| i <= k < s.len() ==> !system_le(#[trigger] s[k], x),
    ensures
        insert_system(s, x) == s.insert(i, x),
    decreases s.len(),
{
    if s.len() == 0 {
        assert(s.insert(i, x) =~= seq![x]);
    } else if i == s.len() {
        assert(s.insert(i, x) =~= s.push(x));
    } else {
        let p = s.drop_last();
        assert(!system_le(s[s.len() - 1], x));
        assert forall|k: int| i <= k < p.len() implies !system_le(#[trigger] p[k], x) by {
            assert(p[k] == s[k]);
        }
        if i > 0 {
            assert(p[i - 1] == s[i - 1]);
        }
        lemma_insert_system_at(p, x, i);
        assert(p.insert(i, x).push(s.last()) =~= s.insert(i, x));
    }
}

pub open spec fn system_view_of(c: SystemChunk, sequence_no: i64) -> SystemView {
    SystemView {
        file_path: c.file_path@,
        start_ms: c.start_ms,
        duration_ms: c.duration_ms,
        sequence_no,
    }
}

/// The far-side slices of a recording in playback order: system slices
/// whose audio could be measured, by recorded time and then number.
pub fn select_system_chunks(rows: &Vec<SliceRow>, style: crate::paths::PathStyle) -> (res: Vec<
    SystemChunk,
>)
    ensures
        res@.len() == sort_system(system_rows(rows@, style)).len(),
        forall|k: int|
            0 <= k < res@.len() ==> {
                let v = sort_system(system_rows(rows@, style))[k];
                &&& (#[trigger] res@[k]).file_path@ == v.file_path
                &&& res@[k].start_ms == v.start_ms
                &&& res@[k].duration_ms == v.duration_ms
            },
{
    let mut sorted: Vec<(SystemChunk, i64)> = Vec::new();
    let ghost view_of = |p: (SystemChunk, i64)| system_view_of(p.0, p.1);
    let mut i: usize = 0;
    while i < rows.len()
        invariant
            i <= rows.len(),
            sorted@.map_values(view_of) == sort_system(system_rows(rows@.take(i as int), style)),
            view_of == (|p: (SystemChunk, i64)| system_view_of(p.0, p.1)),
        decreases rows.len() - i,
    {
        let ghost t = rows@.take(i + 1);
        assert(t.drop_last() =~= rows@.take(i as int));
        assert(t.last() == rows@[i as int]);
        let r = &rows[i];
        let system = match crate::paths::file_name(style, r.file_path.as_str()) {
            Some(name) => {
                let n = crate::text::string_of(&name);
                match crate::live_meeting::channel_for_file_name(n.as_str()) {
                    Some(c) => crate::text::str_eq(c, crate::live_meeting::CHANNEL_SYSTEM),
                    None => false,
                }
            },
            None => false,
        };
        if system {
            if let Some(d) = r.duration_ms {
                let ghost s0 = sorted@.map_values(view_of);
                let x = (SystemChunk { file_path: r.file_path.clone(), start_ms: r.start_ms, duration_ms: d }, r.sequence_no);
                let ghost xv = view_of(x);
                let mut j: usize = sorted.len();
                while j > 0 && !(sorted[j - 1].0.start_ms < x.0.start_ms || (sorted[j - 1].0.start_ms
                    == x.0.start_ms && sorted[j - 1].1 <= x.1))
                    invariant
                        j <= sorted.len(),
                        s0 == sorted@.map_values(view_of),
                        xv == view_of(x),
                        view_of == (|p: (SystemChunk, i64)| system_view_of(p.0, p.1)),
                        forall|k: int| j <= k < s0.len() ==> !system_le(#[trigger] s0[k], xv),
                    decreases j,
                {
                    assert(s0[j - 1] == view_of(sorted@[j - 1]));
                    j -= 1;
                }
                if j > 0 {
                    assert(s0[j - 1] == view_of(sorted@[j - 1]));
                }
                proof {
                    lemma_insert_system_at(s0, xv, j as int);
                }
                sorted.insert(j, x);
                assert(sorted@.map_values(view_of) =~= s0.insert(j as int, xv));
                let ghost prev = system_rows(rows@.take(i as int), style);
                assert(prev.push(xv).drop_last() =~= prev);
            }
        }
        i += 1;
    }
    assert(rows@.take(rows.len() as int) =~= rows@);
    let ghost sv = sorted@.map_values(view_of);
    let mut out: Vec<SystemChunk> = Vec::new();
    let total = sorted.len();
    let mut k: usize = 0;
    while k < total
        invariant
            k <= total,
            total == sorted@.len(),
            sv == sorted@.map_values(view_of),
            view_of == (|p: (SystemChunk, i64)| system_view_of(p.0, p.1)),
            out@.len() == k,
            forall|m: int|
                0 <= m < k ==> {
                    &&& (#[trigger] out@[m]).file_path@ == sv[m].file_path
                    &&& out@[m].start_ms == sv[m].start_ms
                    &&& out@[m].duration_ms == sv[m].duration_ms
                },
        decreases total - k,
    {
        let c = &sorted[k].0;
        assert(sv[k as int] == view_of(sorted@[k as int]));
        out.push(SystemChunk { file_path: c.file_path.clone(), start_ms: c.start_ms, duration_ms: c.duration_ms });
        k += 1;
    }
    out
}

/// The speaker keys of the turns, in order.
pub open spec fn turn_keys(turns: Seq<SpeakerTurn>) -> Seq<Seq<char>> {
    turns.map_values(|t: SpeakerTurn| t.speaker_key@)
}

proof fn lemma_push_to_set(s: Seq<Seq<char>>, x: Seq<char>)
    ensures
        s.push(x).to_set() == s.to_set().insert(x),
{
    assert forall|y: Seq<char>| s.push(x).to_set().contains(y) == s.to_set().insert(x).contains(y) by {
        if s.push(x).contains(y) {
            let k = choose|k: int| 0 <= k < s.push(x).len() && s.push(x)[k] == y;
            if k < s.len() {
                assert(s[k] == y);
                assert(s.contains(y));
            }
        }
        if s.contains(y) {
            let k = choose|k: int| 0 <= k < s.len() && s[k] == y;
            assert(s.push(x)[k] == y);
        }
        if y == x {
            assert(s.push(x)[s.len() as int] == x);
        }
    }
    assert(s.push(x).to_set() =~= s.to_set().insert(x));
}

/// How many different speakers the turns name.
pub fn speakers_found(turns: &[SpeakerTurn]) -> (n: usize)
    ensures
        n == turn_keys(turns@).to_set().len(),
{
    let mut seen: Vec<String> = Vec::new();
    let mut i: usize = 0;
    while i < turns.len()
        invariant
            i <= turns.len(),
            crate::text::strings_view(seen@).no_duplicates(),
            crate::text::strings_view(seen@).to_set() == turn_keys(turns@.take(i as int)).to_set(),
        decreases turns.len() - i,
    {
        let ghost before = crate::text::strings_view(seen@);
        let key = turns[i].speaker_key.as_str();
        let mut known = false;
        let mut j: usize = 0;
        while j < seen.len()
            invariant
                j <= seen.len(),
                !known ==> forall|k: int| 0 <= k < j ==> crate::text::strings_view(seen@)[k] != key@,
                known ==> crate::text::strings_view(seen@).contains(key@),
            decreases seen.len() - j,
        {
            if crate::text::str_eq(seen[j].as_str(), key) {
                assert(crate::text::strings_view(seen@)[j as int] == key@);
                known = true;
            }
            j += 1;
        }
        assert(turns@.take(i + 1) =~= turns@.take(i as int).push(turns@[i as int]));
        assert(turn_keys(turns@.take(i + 1)) =~= turn_keys(turns@.take(i as int)).push(key@));
        proof {
            lemma_push_to_set(turn_keys(turns@.take(i as int)), key@);
            lemma_push_to_set(before, key@);
        }
        if !known {
            seen.push(crate::text::copy_string(key));
            assert(crate::text::strings_view(seen@) =~= before.push(key@));
            assert(!before.contains(key@));
        } else {
            assert(before.to_set().insert(key@) =~= before.to_set());
        }
        i += 1;
    }
    assert(turns@.take(turns.len() as int) =~= turns@);
    proof {
        crate::text::strings_view(seen@).unique_seq_to_set();
    }
    seen.len()
}

} // verus!
