//! Revision-aware local transcript scheduling.
//!
//! Audio fragments are durable before this module sees them. The scheduler
//! turns one source's fragments into rolling 4-second decode windows that
//! overlap by exactly 1 second, never across an unaccounted interval of the
//! source timeline. Hypotheses decoded from those windows stay provisional
//! until they are stable; a commit candidate must be persisted before it is
//! marked committed.
use vstd::prelude::*;
use crate::text::{opt_chars};
use crate::text::{chars_of, decimal, push_char, push_i64, push_text, push_u64, signed_decimal};

verus! {

pub const LEGACY_FRAGMENT_MS: i64 = 8_000;

pub const REVISIONED_FRAGMENT_MS: i64 = 2_000;

pub const DECODE_WINDOW_MS: i64 = 4_000;

pub const DECODE_OVERLAP_MS: i64 = 1_000;

pub const MAX_WINDOW_FRAGMENTS: usize = 3;

/// Shortest tail window `flush` will still seal.
pub const MIN_TAIL_MS: i64 = 400;

/// Latest source time the scheduler accepts, so that a window end computed
/// past it still fits an `i64`.
pub const MAX_TIMELINE_MS: i64 = 9_223_372_036_854_771_807;

/// How a live session's transcript is produced.
#[derive(Clone, Copy, Debug, PartialEq, Eq, Structural)]
pub enum LiveTranscriptProfile {
    Chunked,
    Revisioned,
}

impl LiveTranscriptProfile {
    /// Reads the configured profile; absent means `chunked`.
    pub fn parse(value: Option<&str>) -> (res: Result<Self, String>)
        ensures
            match value {
                None => res == Ok::<Self, String>(LiveTranscriptProfile::Chunked),
                Some(v) => if v@ == "chunked"@ {
                    res == Ok::<Self, String>(LiveTranscriptProfile::Chunked)
                } else if v@ == "revisioned"@ {
                    res == Ok::<Self, String>(LiveTranscriptProfile::Revisioned)
                } else {
                    res matches Err(e) && e@
                        == "transcript profile must be `chunked` or `revisioned`"@
                },
            },
    {
        match value {
            None => Ok(LiveTranscriptProfile::Chunked),
            Some(v) => {
                let c = chars_of(v);
                if crate::text::text_is(&c, "chunked") {
                    Ok(LiveTranscriptProfile::Chunked)
                } else if crate::text::text_is(&c, "revisioned") {
                    Ok(LiveTranscriptProfile::Revisioned)
                } else {
                    Err(crate::text::copy_string("transcript profile must be `chunked` or `revisioned`"))
                }
            },
        }
    }

    /// Length of the audio fragments captured under this profile.
    pub fn fragment_ms(self) -> (ms: i64)
        ensures
            ms == (match self {
                LiveTranscriptProfile::Chunked => LEGACY_FRAGMENT_MS,
                LiveTranscriptProfile::Revisioned => REVISIONED_FRAGMENT_MS,
            }),
    {
        match self {
            LiveTranscriptProfile::Chunked => LEGACY_FRAGMENT_MS,
            LiveTranscriptProfile::Revisioned => REVISIONED_FRAGMENT_MS,
        }
    }
}

/// A durable audio fragment of one source, by reference.
#[derive(Clone, Debug)]
pub struct AudioFragmentRef {
    pub id: String,
    pub path: String,
    pub sequence_no: i64,
    pub start_ms: i64,
    pub end_ms: i64,
}

/// The part of one fragment a decode window reads.
#[derive(Clone, Debug)]
pub struct WindowFragment {
    pub id: String,
    pub path: String,
    pub fragment_start_ms: i64,
    pub fragment_end_ms: i64,
    pub clip_start_ms: i64,
    pub clip_end_ms: i64,
}

/// One decode request: a contiguous stretch of one source.
#[derive(Clone, Debug)]
pub struct DecodeWindow {
    pub id: String,
    pub start_ms: i64,
    pub end_ms: i64,
    pub is_final: bool,
    pub fragments: Vec<WindowFragment>,
}

pub struct DecodeWindowView {
    pub id: Seq<char>,
    pub start_ms: i64,
    pub end_ms: i64,
    pub is_final: bool,
    pub fragments: Seq<WindowFragment>,
}

impl View for DecodeWindow {
    type V = DecodeWindowView;

    open spec fn view(&self) -> DecodeWindowView {
        DecodeWindowView {
            id: self.id@,
            start_ms: self.start_ms,
            end_ms: self.end_ms,
            is_final: self.is_final,
            fragments: self.fragments@,
        }
    }
}

/// A discontinuity in a source: the interval between where the source was
/// expected to continue and where it actually did.
#[derive(Clone, Copy, Debug, PartialEq, Eq, Structural)]
pub struct AudioGap {
    pub expected_sequence_no: i64,
    pub observed_sequence_no: i64,
    pub start_ms: i64,
    pub end_ms: i64,
}

/// What one accepted fragment produced.
#[derive(Debug)]
pub struct WindowBatch {
    pub gap: Option<AudioGap>,
    pub windows: Vec<DecodeWindow>,
}

pub struct WindowBatchView {
    pub gap: Option<AudioGap>,
    pub windows: Seq<DecodeWindowView>,
}

pub open spec fn windows_view(ws: Seq<DecodeWindow>) -> Seq<DecodeWindowView> {
    ws.map_values(|w: DecodeWindow| w@)
}

impl View for WindowBatch {
    type V = WindowBatchView;

    open spec fn view(&self) -> WindowBatchView {
        WindowBatchView { gap: self.gap, windows: windows_view(self.windows@) }
    }
}

#[derive(Clone, Copy, Debug, PartialEq, Eq, Structural)]
pub enum ScheduleError {
    InvalidRange,
    FragmentTooLong,
    SequenceWentBackwards,
    OverlappingAudio,
    WindowNotFullyCovered,
    TooManyFragments,
}

/// Produces 4-second, per-source windows with a 1-second overlap. Each
/// source remains independent, so mic/system timelines are never
/// interleaved. The scheduler retains only paths and range data.
pub struct RollingWindowScheduler {
    next_sequence_no: Option<i64>,
    next_window_start_ms: Option<i64>,
    last_end_ms: Option<i64>,
    fragments: std::collections::VecDeque<AudioFragmentRef>,
    window_ordinal: u64,
}

/// The scheduler's state as plain values.
pub struct SchedulerView {
    pub next_sequence_no: Option<i64>,
    pub next_window_start_ms: Option<i64>,
    pub last_end_ms: Option<i64>,
    pub fragments: Seq<AudioFragmentRef>,
    pub window_ordinal: u64,
}

impl View for RollingWindowScheduler {
    type V = SchedulerView;

    closed spec fn view(&self) -> SchedulerView {
        SchedulerView {
            next_sequence_no: self.next_sequence_no,
            next_window_start_ms: self.next_window_start_ms,
            last_end_ms: self.last_end_ms,
            fragments: self.fragments@,
            window_ordinal: self.window_ordinal,
        }
    }
}

// ---------------------------------------------------------------------------
// Specification of the scheduler
// ---------------------------------------------------------------------------

pub open spec fn max_i(a: i64, b: i64) -> i64 {
    if a >= b {
        a
    } else {
        b
    }
}

pub open spec fn min_i(a: i64, b: i64) -> i64 {
    if a <= b {
        a
    } else {
        b
    }
}

pub open spec fn sat_inc(n: u64) -> u64 {
    if n < u64::MAX {
        (n + 1) as u64
    } else {
        n
    }
}

/// The part of fragment `f` that lies inside `[start, end)`.
pub open spec fn clip_of(f: AudioFragmentRef, start: i64, end: i64) -> WindowFragment {
    WindowFragment {
        id: f.id,
        path: f.path,
        fragment_start_ms: f.start_ms,
        fragment_end_ms: f.end_ms,
        clip_start_ms: max_i(start, f.start_ms),
        clip_end_ms: min_i(end, f.end_ms),
    }
}

/// The nonempty clips of `frags` against `[start, end)`, in order.
pub open spec fn clips_spec(frags: Seq<AudioFragmentRef>, start: i64, end: i64) -> Seq<
    WindowFragment,
>
    decreases frags.len(),
{
    if frags.len() == 0 {
        seq![]
    } else {
        let rest = clips_spec(frags.drop_last(), start, end);
        let c = clip_of(frags.last(), start, end);
        if c.clip_start_ms >= c.clip_end_ms {
            rest
        } else {
            rest.push(c)
        }
    }
}

/// Where a chain of clips starting at `start` ends, if each clip begins
/// exactly where the previous one ended.
pub open spec fn chain_end(clips: Seq<WindowFragment>, start: i64) -> Option<int>
    decreases clips.len(),
{
    if clips.len() == 0 {
        Some(start as int)
    } else {
        match chain_end(clips.drop_last(), start) {
            Some(c) => if clips.last().clip_start_ms == c {
                Some(clips.last().clip_end_ms as int)
            } else {
                None
            },
            None => None,
        }
    }
}

/// `source:ordinal:end`, the identifier of a window.
pub open spec fn window_id(source: Seq<char>, ordinal: u64, end_ms: i64) -> Seq<char> {
    source + seq![':'] + decimal(ordinal as nat) + seq![':'] + signed_decimal(end_ms as int)
}

/// The window `[start, end)` over `frags`, or why it cannot be built.
pub open spec fn build_spec(
    frags: Seq<AudioFragmentRef>,
    source: Seq<char>,
    ordinal: u64,
    start: i64,
    end: i64,
    is_final: bool,
) -> Result<DecodeWindowView, ScheduleError> {
    if start < 0 || end <= start || end - start > DECODE_WINDOW_MS {
        Err(ScheduleError::InvalidRange)
    } else {
        let clips = clips_spec(frags, start, end);
        if chain_end(clips, start) != Some(end as int) {
            Err(ScheduleError::WindowNotFullyCovered)
        } else if clips.len() > MAX_WINDOW_FRAGMENTS {
            Err(ScheduleError::TooManyFragments)
        } else {
            Ok(
                DecodeWindowView {
                    id: window_id(source, ordinal, end),
                    start_ms: start,
                    end_ms: end,
                    is_final,
                    fragments: clips,
                },
            )
        }
    }
}

/// Drops the leading fragments that end at or before `retain_from`.
pub open spec fn drop_expired(frags: Seq<AudioFragmentRef>, retain_from: i64) -> Seq<
    AudioFragmentRef,
>
    decreases frags.len(),
{
    if frags.len() > 0 && frags[0].end_ms <= retain_from {
        drop_expired(frags.drop_first(), retain_from)
    } else {
        frags
    }
}

/// The state after a window was produced and the next one starts at `next`.
pub open spec fn after_window(v: SchedulerView, next: i64) -> SchedulerView {
    SchedulerView {
        window_ordinal: sat_inc(v.window_ordinal),
        next_window_start_ms: Some(next),
        fragments: drop_expired(v.fragments, next),
        ..v
    }
}

pub open spec fn opt_or(o: Option<i64>, d: i64) -> i64 {
    match o {
        Some(x) => x,
        None => d,
    }
}

/// Validation of a new fragment, and the state once it is admitted.
pub open spec fn admit_spec(v: SchedulerView, f: AudioFragmentRef) -> Result<
    (SchedulerView, Option<AudioGap>),
    ScheduleError,
> {
    if f.sequence_no < 0 || f.start_ms < 0 || f.end_ms <= f.start_ms {
        Err(ScheduleError::InvalidRange)
    } else if f.end_ms - f.start_ms > REVISIONED_FRAGMENT_MS {
        Err(ScheduleError::FragmentTooLong)
    } else {
        let expected_sequence = opt_or(v.next_sequence_no, f.sequence_no);
        let expected_start = opt_or(v.last_end_ms, f.start_ms);
        if f.sequence_no < expected_sequence {
            Err(ScheduleError::SequenceWentBackwards)
        } else if f.start_ms < expected_start {
            Err(ScheduleError::OverlappingAudio)
        } else {
            let gapped = f.sequence_no != expected_sequence || f.start_ms != expected_start;
            let gap = if gapped {
                Some(
                    AudioGap {
                        expected_sequence_no: expected_sequence,
                        observed_sequence_no: f.sequence_no,
                        start_ms: expected_start,
                        end_ms: f.start_ms,
                    },
                )
            } else {
                None
            };
            let kept = if gapped {
                Seq::<AudioFragmentRef>::empty()
            } else {
                v.fragments
            };
            let next_start = if gapped || v.next_window_start_ms is None {
                Some(f.start_ms)
            } else {
                v.next_window_start_ms
            };
            Ok(
                (
                    SchedulerView {
                        next_sequence_no: Some((f.sequence_no + 1) as i64),
                        next_window_start_ms: next_start,
                        last_end_ms: Some(f.end_ms),
                        fragments: kept.push(f),
                        window_ordinal: v.window_ordinal,
                    },
                    gap,
                ),
            )
        }
    }
}

/// Prefixes `ws` to a successful run of windows.
pub open spec fn prepend_windows(
    ws: Seq<DecodeWindowView>,
    r: (SchedulerView, Result<Seq<DecodeWindowView>, ScheduleError>),
) -> (SchedulerView, Result<Seq<DecodeWindowView>, ScheduleError>) {
    (
        r.0,
        match r.1 {
            Ok(rest) => Ok(ws + rest),
            Err(e) => Err(e),
        },
    )
}

/// Every full window the admitted audio now reaches, one after another,
/// each starting 3 seconds after the previous one.
pub open spec fn emit_spec(v: SchedulerView, source: Seq<char>) -> (
    SchedulerView,
    Result<Seq<DecodeWindowView>, ScheduleError>,
)
    decreases opt_or(v.last_end_ms, 0) - opt_or(v.next_window_start_ms, 0),
{
    let start = opt_or(v.next_window_start_ms, 0);
    let end = start + DECODE_WINDOW_MS;
    if start > MAX_TIMELINE_MS || opt_or(v.last_end_ms, 0) < end {
        (v, Ok(seq![]))
    } else {
        match build_spec(v.fragments, source, v.window_ordinal, start, end as i64, false) {
            Err(e) => (v, Err(e)),
            Ok(w) => prepend_windows(
                seq![w],
                emit_spec(
                    after_window(v, (start + DECODE_WINDOW_MS - DECODE_OVERLAP_MS) as i64),
                    source,
                ),
            ),
        }
    }
}

/// The complete effect of `push`: the new state and what it returns.
pub open spec fn push_spec(v: SchedulerView, source: Seq<char>, f: AudioFragmentRef) -> (
    SchedulerView,
    Result<WindowBatchView, ScheduleError>,
) {
    match admit_spec(v, f) {
        Err(e) => (v, Err(e)),
        Ok((v1, gap)) => {
            let (v2, r) = emit_spec(v1, source);
            (
                v2,
                match r {
                    Ok(ws) => Ok(WindowBatchView { gap, windows: ws }),
                    Err(e) => Err(e),
                },
            )
        },
    }
}

/// The complete effect of `flush`: the new state and what it returns.
pub open spec fn flush_spec(v: SchedulerView, source: Seq<char>) -> (
    SchedulerView,
    Result<Option<DecodeWindowView>, ScheduleError>,
) {
    match (v.last_end_ms, v.next_window_start_ms) {
        (Some(end), Some(next_start)) => {
            if end <= next_start {
                (v, Ok(None))
            } else {
                let start = max_i(next_start, (end - DECODE_WINDOW_MS) as i64);
                if end - start < MIN_TAIL_MS {
                    (v, Ok(None))
                } else {
                    match build_spec(v.fragments, source, v.window_ordinal, start, end, true) {
                        Err(e) => (v, Err(e)),
                        Ok(w) => (after_window(v, end), Ok(Some(w))),
                    }
                }
            }
        },
        _ => (v, Ok(None)),
    }
}

pub open spec fn frags_ok(frags: Seq<AudioFragmentRef>, last_end: i64) -> bool {
    &&& forall|i: int|
        0 <= i < frags.len() ==> 0 <= (#[trigger] frags[i]).start_ms < frags[i].end_ms <= last_end
    &&& forall|i: int|
        0 <= i < frags.len() - 1 ==> (#[trigger] frags[i]).end_ms == frags[i + 1].start_ms
    &&& frags.len() > 0 ==> frags.last().end_ms == last_end
}

/// The scheduler's invariant: either nothing has been admitted since the
/// last reset, or the admitted fragments are contiguous and end where the
/// source was last seen, with the next window starting inside that range.
pub open spec fn wf_view(v: SchedulerView) -> bool {
    match (v.next_sequence_no, v.next_window_start_ms, v.last_end_ms) {
        (None, None, None) => v.fragments.len() == 0,
        (Some(q), Some(s), Some(le)) => 0 <= q && 0 <= s <= le <= MAX_TIMELINE_MS && frags_ok(
            v.fragments,
            le,
        ),
        _ => false,
    }
}

pub open spec fn batch_result_view(r: Result<WindowBatch, ScheduleError>) -> Result<
    WindowBatchView,
    ScheduleError,
> {
    match r {
        Ok(b) => Ok(b@),
        Err(e) => Err(e),
    }
}

pub open spec fn window_result_view(r: Result<DecodeWindow, ScheduleError>) -> Result<
    DecodeWindowView,
    ScheduleError,
> {
    match r {
        Ok(w) => Ok(w@),
        Err(e) => Err(e),
    }
}

pub open spec fn flush_result_view(r: Result<Option<DecodeWindow>, ScheduleError>) -> Result<
    Option<DecodeWindowView>,
    ScheduleError,
> {
    match r {
        Ok(Some(w)) => Ok(Some(w@)),
        Ok(None) => Ok(None),
        Err(e) => Err(e),
    }
}

// ---------------------------------------------------------------------------
// Lemmas
// ---------------------------------------------------------------------------

proof fn lemma_chain_none_stays(
    frags: Seq<AudioFragmentRef>,
    start: i64,
    end: i64,
    i: int,
    j: int,
)
    requires
        0 <= i <= j <= frags.len(),
        chain_end(clips_spec(frags.take(i), start, end), start) is None,
    ensures
        chain_end(clips_spec(frags.take(j), start, end), start) is None,
    decreases j - i,
{
    if i < j {
        lemma_chain_none_stays(frags, start, end, i, j - 1);
        assert(frags.take(j).drop_last() =~= frags.take(j - 1));
        let prev = clips_spec(frags.take(j - 1), start, end);
        let c = clip_of(frags.take(j).last(), start, end);
        if c.clip_start_ms < c.clip_end_ms {
            assert(prev.push(c).drop_last() =~= prev);
        }
    }
}

proof fn lemma_drop_expired_ok(frags: Seq<AudioFragmentRef>, r: i64, le: i64)
    requires
        frags_ok(frags, le),
    ensures
        frags_ok(drop_expired(frags, r), le),
        drop_expired(frags, r).len() > 0 ==> drop_expired(frags, r)[0].end_ms > r,
        drop_expired(frags, r).len() == 0 ==> frags.len() == 0 || frags.last().end_ms <= r,
    decreases frags.len(),
{
    if frags.len() > 0 && frags[0].end_ms <= r {
        let t = frags.drop_first();
        assert forall|i: int| 0 <= i < t.len() implies 0 <= (#[trigger] t[i]).start_ms
            < t[i].end_ms <= le by {
            assert(t[i] == frags[i + 1]);
        }
        assert forall|i: int| 0 <= i < t.len() - 1 implies (#[trigger] t[i]).end_ms == t[i
            + 1].start_ms by {
            assert(t[i] == frags[i + 1]);
            assert(t[i + 1] == frags[i + 2]);
        }
        if t.len() > 0 {
            assert(t.last() == frags.last());
        }
        lemma_drop_expired_ok(t, r, le);
    }
}

proof fn lemma_after_window_wf(v: SchedulerView, next: i64)
    requires
        wf_view(v),
        v.last_end_ms is Some,
        0 <= next <= v.last_end_ms->0,
    ensures
        wf_view(after_window(v, next)),
{
    lemma_drop_expired_ok(v.fragments, next, v.last_end_ms->0);
}

proof fn lemma_admit_wf(v: SchedulerView, f: AudioFragmentRef)
    requires
        wf_view(v),
        f.end_ms <= MAX_TIMELINE_MS,
        f.sequence_no < i64::MAX,
        admit_spec(v, f) is Ok,
    ensures
        wf_view(admit_spec(v, f)->Ok_0.0),
{
    let (v1, gap) = admit_spec(v, f)->Ok_0;
    let expected_start = opt_or(v.last_end_ms, f.start_ms);
    let gapped = gap is Some;
    let kept = if gapped {
        Seq::<AudioFragmentRef>::empty()
    } else {
        v.fragments
    };
    let frags = kept.push(f);
    assert(v1.fragments == frags);
    assert forall|i: int| 0 <= i < frags.len() implies 0 <= (#[trigger] frags[i]).start_ms
        < frags[i].end_ms <= f.end_ms by {
        if i < frags.len() - 1 {
            assert(frags[i] == kept[i]);
        }
    }
    assert forall|i: int| 0 <= i < frags.len() - 1 implies (#[trigger] frags[i]).end_ms
        == frags[i + 1].start_ms by {
        assert(frags[i] == kept[i]);
        if i < frags.len() - 2 {
            assert(frags[i + 1] == kept[i + 1]);
        } else {
            assert(kept.last() == kept[i]);
        }
    }
}


// ---------------------------------------------------------------------------
// Laws
// ---------------------------------------------------------------------------

/// A window is always a nonempty stretch of at most 4 seconds, read from at
/// most three fragments that tile it exactly, each clipped inside it.
pub proof fn law_windows_are_bounded_and_tiled(
    frags: Seq<AudioFragmentRef>,
    source: Seq<char>,
    ordinal: u64,
    start: i64,
    end: i64,
    is_final: bool,
)
    requires
        build_spec(frags, source, ordinal, start, end, is_final) is Ok,
    ensures
        ({
            let w = build_spec(frags, source, ordinal, start, end, is_final)->Ok_0;
            &&& 0 <= w.start_ms < w.end_ms
            &&& w.end_ms - w.start_ms <= DECODE_WINDOW_MS
            &&& w.fragments.len() <= MAX_WINDOW_FRAGMENTS
            &&& chain_end(w.fragments, w.start_ms) == Some(w.end_ms as int)
            &&& forall|k: int|
                0 <= k < w.fragments.len() ==> w.start_ms <= (#[trigger] w.fragments[k]).clip_start_ms
                    < w.fragments[k].clip_end_ms <= w.end_ms
        }),
{
    lemma_clips_inside(frags, start, end);
}

proof fn lemma_clips_inside(frags: Seq<AudioFragmentRef>, start: i64, end: i64)
    ensures
        forall|k: int|
            0 <= k < clips_spec(frags, start, end).len() ==> start <= (#[trigger] clips_spec(
                frags,
                start,
                end,
            )[k]).clip_start_ms < clips_spec(frags, start, end)[k].clip_end_ms <= end,
    decreases frags.len(),
{
    if frags.len() > 0 {
        lemma_clips_inside(frags.drop_last(), start, end);
        let rest = clips_spec(frags.drop_last(), start, end);
        let c = clip_of(frags.last(), start, end);
        let all = clips_spec(frags, start, end);
        if c.clip_start_ms < c.clip_end_ms {
            assert forall|k: int| 0 <= k < all.len() implies start <= (#[trigger] all[k]).clip_start_ms
                < all[k].clip_end_ms <= end by {
                if k < rest.len() {
                    assert(all[k] == rest[k]);
                } else {
                    assert(all[k] == c);
                }
            }
        }
    }
}

/// What `emit_spec` produces, window by window.
proof fn lemma_emit_shape(v: SchedulerView, source: Seq<char>)
    ensures
        emit_spec(v, source).1 matches Ok(ws) ==> {
            &&& ws.len() > 0 ==> ws[0].start_ms == opt_or(v.next_window_start_ms, 0)
            &&& forall|k: int|
                0 <= k < ws.len() ==> (#[trigger] ws[k]).end_ms == ws[k].start_ms
                    + DECODE_WINDOW_MS && !ws[k].is_final && ws[k].start_ms >= opt_or(
                    v.next_window_start_ms,
                    0,
                )
            &&& forall|k: int|
                #![trigger ws[k]]
                0 <= k < ws.len() - 1 ==> ws[k + 1].start_ms == ws[k].end_ms - DECODE_OVERLAP_MS
        },
    decreases opt_or(v.last_end_ms, 0) - opt_or(v.next_window_start_ms, 0),
{
    let start = opt_or(v.next_window_start_ms, 0);
    let end = start + DECODE_WINDOW_MS;
    if start > MAX_TIMELINE_MS || opt_or(v.last_end_ms, 0) < end {
    } else {
        match build_spec(v.fragments, source, v.window_ordinal, start, end as i64, false) {
            Err(e) => {},
            Ok(w) => {
                let next = after_window(v, (start + DECODE_WINDOW_MS - DECODE_OVERLAP_MS) as i64);
                lemma_emit_shape(next, source);
                match emit_spec(next, source).1 {
                    Ok(rest) => {
                        let ws = seq![w] + rest;
                        assert(ws[0] == w);
                        assert(w.end_ms == end);
                        assert forall|k: int|
                            #![trigger ws[k]]
                            0 <= k < ws.len() - 1 implies ws[k + 1].start_ms == ws[k].end_ms
                                - DECODE_OVERLAP_MS by {
                            if k > 0 {
                                assert(ws[k] == rest[k - 1]);
                            } else {
                                assert(rest.len() > 0);
                                assert(rest[0].start_ms == start + DECODE_WINDOW_MS
                                    - DECODE_OVERLAP_MS);
                            }
                            assert(ws[k + 1] == rest[k]);
                        }
                        assert forall|k: int| 0 <= k < ws.len() implies (#[trigger] ws[k]).end_ms
                            == ws[k].start_ms + DECODE_WINDOW_MS && !ws[k].is_final
                            && ws[k].start_ms >= start by {
                            if k > 0 {
                                assert(ws[k] == rest[k - 1]);
                            }
                        }
                    },
                    Err(e) => {},
                }
            },
        }
    }
}

/// Consecutive windows of one push overlap by exactly one second, every
/// window of a push is a full 4-second window, and none is final.
pub proof fn law_push_windows_overlap_by_one_second(
    v: SchedulerView,
    source: Seq<char>,
    f: AudioFragmentRef,
)
    requires
        push_spec(v, source, f).1 is Ok,
    ensures
        ({
            let ws = push_spec(v, source, f).1->Ok_0.windows;
            &&& forall|k: int|
                0 <= k < ws.len() ==> (#[trigger] ws[k]).end_ms - ws[k].start_ms == DECODE_WINDOW_MS
                    && !ws[k].is_final
            &&& forall|k: int|
                #![trigger ws[k]]
                0 <= k < ws.len() - 1 ==> ws[k + 1].start_ms == ws[k].end_ms - DECODE_OVERLAP_MS
        }),
{
    let (v1, gap) = admit_spec(v, f)->Ok_0;
    lemma_emit_shape(v1, source);
}

/// A decode window never crosses an unaccounted interval: when a push
/// reports a gap, every window it returns starts where the gap ends.
pub proof fn law_no_window_crosses_a_gap(v: SchedulerView, source: Seq<char>, f: AudioFragmentRef)
    requires
        push_spec(v, source, f).1 matches Ok(b) && b.gap is Some,
    ensures
        ({
            let b = push_spec(v, source, f).1->Ok_0;
            forall|k: int|
                0 <= k < b.windows.len() ==> (#[trigger] b.windows[k]).start_ms >= b.gap->0.end_ms
        }),
{
    let (v1, gap) = admit_spec(v, f)->Ok_0;
    lemma_emit_shape(v1, source);
}

/// A fragment the scheduler rejects before admitting it leaves the
/// scheduler exactly as it was.
pub proof fn law_rejected_fragment_changes_nothing(
    v: SchedulerView,
    source: Seq<char>,
    f: AudioFragmentRef,
)
    requires
        admit_spec(v, f) is Err,
    ensures
        push_spec(v, source, f).0 == v,
        push_spec(v, source, f).1 == Err::<WindowBatchView, ScheduleError>(admit_spec(v, f)->Err_0),
{
}

/// After a reset, the next fragment starts a fresh source: it is never
/// reported as a gap.
pub proof fn law_reset_forgets_the_previous_source(
    v: SchedulerView,
    source: Seq<char>,
    f: AudioFragmentRef,
)
    requires
        v.next_sequence_no is None,
        v.last_end_ms is None,
        push_spec(v, source, f).1 is Ok,
    ensures
        push_spec(v, source, f).1->Ok_0.gap is None,
{
}

/// Once a tail window has been sealed, flushing again seals nothing.
pub proof fn law_tail_is_flushed_only_once(v: SchedulerView, source: Seq<char>)
    requires
        flush_spec(v, source).1 matches Ok(w) && w is Some,
    ensures
        flush_spec(flush_spec(v, source).0, source) == (flush_spec(v, source).0, Ok::<
            Option<DecodeWindowView>,
            ScheduleError,
        >(None)),
{
}

/// Where the next window is scheduled once `emit_spec` is done: just after
/// the last window it produced, or where it already was.
proof fn lemma_emit_next(v: SchedulerView, source: Seq<char>)
    ensures
        emit_spec(v, source).1 matches Ok(ws) ==> {
            &&& ws.len() == 0 ==> emit_spec(v, source).0 == v
            &&& ws.len() > 0 ==> emit_spec(v, source).0.next_window_start_ms == Some(
                (ws.last().start_ms + DECODE_WINDOW_MS - DECODE_OVERLAP_MS) as i64,
            )
        },
    decreases opt_or(v.last_end_ms, 0) - opt_or(v.next_window_start_ms, 0),
{
    let start = opt_or(v.next_window_start_ms, 0);
    let end = start + DECODE_WINDOW_MS;
    if start > MAX_TIMELINE_MS || opt_or(v.last_end_ms, 0) < end {
    } else {
        match build_spec(v.fragments, source, v.window_ordinal, start, end as i64, false) {
            Err(e) => {},
            Ok(w) => {
                let next = after_window(v, (start + DECODE_WINDOW_MS - DECODE_OVERLAP_MS) as i64);
                lemma_emit_next(next, source);
                match emit_spec(next, source).1 {
                    Ok(rest) => {
                        let ws = seq![w] + rest;
                        assert(ws.last() == if rest.len() > 0 {
                            rest.last()
                        } else {
                            w
                        });
                    },
                    Err(e) => {},
                }
            },
        }
    }
}

/// Every fragment of `frags` covers at most one revisioned fragment length.
pub open spec fn fragments_are_short(frags: Seq<AudioFragmentRef>) -> bool {
    forall|i: int|
        0 <= i < frags.len() ==> (#[trigger] frags[i]).end_ms - frags[i].start_ms
            <= REVISIONED_FRAGMENT_MS
}

proof fn lemma_drop_expired_short(frags: Seq<AudioFragmentRef>, r: i64)
    requires
        fragments_are_short(frags),
    ensures
        fragments_are_short(drop_expired(frags, r)),
    decreases frags.len(),
{
    if frags.len() > 0 && frags[0].end_ms <= r {
        let t = frags.drop_first();
        assert forall|i: int| 0 <= i < t.len() implies (#[trigger] t[i]).end_ms - t[i].start_ms
            <= REVISIONED_FRAGMENT_MS by {
            assert(t[i] == frags[i + 1]);
        }
        lemma_drop_expired_short(t, r);
    }
}

/// A chain of clips, each at most one fragment length long, covers at most
/// that length per clip.
proof fn lemma_chain_length(clips: Seq<WindowFragment>, start: i64)
    requires
        forall|k: int|
            0 <= k < clips.len() ==> (#[trigger] clips[k]).clip_end_ms - clips[k].clip_start_ms
                <= REVISIONED_FRAGMENT_MS,
        chain_end(clips, start) is Some,
    ensures
        chain_end(clips, start)->0 - start <= clips.len() * REVISIONED_FRAGMENT_MS,
    decreases clips.len(),
{
    if clips.len() > 0 {
        let p = clips.drop_last();
        assert forall|k: int| 0 <= k < p.len() implies (#[trigger] p[k]).clip_end_ms
            - p[k].clip_start_ms <= REVISIONED_FRAGMENT_MS by {
            assert(p[k] == clips[k]);
        }
        assert(clips.last() == clips[clips.len() - 1]);
        lemma_chain_length(p, start);
    }
}

proof fn lemma_clips_short(frags: Seq<AudioFragmentRef>, start: i64, end: i64)
    requires
        fragments_are_short(frags),
    ensures
        forall|k: int|
            0 <= k < clips_spec(frags, start, end).len() ==> (#[trigger] clips_spec(
                frags,
                start,
                end,
            )[k]).clip_end_ms - clips_spec(frags, start, end)[k].clip_start_ms
                <= REVISIONED_FRAGMENT_MS,
    decreases frags.len(),
{
    if frags.len() > 0 {
        let p = frags.drop_last();
        assert forall|i: int| 0 <= i < p.len() implies (#[trigger] p[i]).end_ms - p[i].start_ms
            <= REVISIONED_FRAGMENT_MS by {
            assert(p[i] == frags[i]);
        }
        lemma_clips_short(p, start, end);
        let rest = clips_spec(p, start, end);
        let c = clip_of(frags.last(), start, end);
        assert(frags.last() == frags[frags.len() - 1]);
        let all = clips_spec(frags, start, end);
        if c.clip_start_ms < c.clip_end_ms {
            assert forall|k: int| 0 <= k < all.len() implies (#[trigger] all[k]).clip_end_ms
                - all[k].clip_start_ms <= REVISIONED_FRAGMENT_MS by {
                if k < rest.len() {
                    assert(all[k] == rest[k]);
                } else {
                    assert(all[k] == c);
                }
            }
        }
    }
}

/// A full four-second window built from short fragments reads at least two
/// of them.
pub proof fn law_a_full_window_reads_at_least_two_fragments(
    frags: Seq<AudioFragmentRef>,
    source: Seq<char>,
    ordinal: u64,
    start: i64,
    end: i64,
    is_final: bool,
)
    requires
        fragments_are_short(frags),
        end - start == DECODE_WINDOW_MS,
        build_spec(frags, source, ordinal, start, end, is_final) is Ok,
    ensures
        build_spec(frags, source, ordinal, start, end, is_final)->Ok_0.fragments.len() >= 2,
{
    lemma_clips_short(frags, start, end);
    lemma_chain_length(clips_spec(frags, start, end), start);
}

/// A window read from two or three fragments whose clips follow one
/// another and cover it exactly, each inside it.
pub open spec fn tiled_by_fragments(w: DecodeWindowView) -> bool {
    &&& 2 <= w.fragments.len() <= MAX_WINDOW_FRAGMENTS
    &&& chain_end(w.fragments, w.start_ms) == Some(w.end_ms as int)
    &&& forall|k: int|
        0 <= k < w.fragments.len() ==> w.start_ms <= (#[trigger] w.fragments[k]).clip_start_ms
            < w.fragments[k].clip_end_ms <= w.end_ms
}

proof fn lemma_emit_reads_two(v: SchedulerView, source: Seq<char>)
    requires
        fragments_are_short(v.fragments),
    ensures
        fragments_are_short(emit_spec(v, source).0.fragments),
        emit_spec(v, source).1 matches Ok(ws) ==> forall|k: int|
            0 <= k < ws.len() ==> #[trigger] tiled_by_fragments(ws[k]),
    decreases opt_or(v.last_end_ms, 0) - opt_or(v.next_window_start_ms, 0),
{
    let start = opt_or(v.next_window_start_ms, 0);
    let end = start + DECODE_WINDOW_MS;
    if start > MAX_TIMELINE_MS || opt_or(v.last_end_ms, 0) < end {
    } else {
        match build_spec(v.fragments, source, v.window_ordinal, start, end as i64, false) {
            Err(e) => {},
            Ok(w) => {
                law_a_full_window_reads_at_least_two_fragments(
                    v.fragments,
                    source,
                    v.window_ordinal,
                    start as i64,
                    end as i64,
                    false,
                );
                law_windows_are_bounded_and_tiled(
                    v.fragments,
                    source,
                    v.window_ordinal,
                    start as i64,
                    end as i64,
                    false,
                );
                let nx = (start + DECODE_WINDOW_MS - DECODE_OVERLAP_MS) as i64;
                lemma_drop_expired_short(v.fragments, nx);
                let next = after_window(v, nx);
                lemma_emit_reads_two(next, source);
                match emit_spec(next, source).1 {
                    Ok(rest) => {
                        let ws = seq![w] + rest;
                        assert(tiled_by_fragments(w));
                        assert forall|k: int| 0 <= k < ws.len() implies #[trigger] tiled_by_fragments(ws[k]) by {
                            if k > 0 {
                                assert(ws[k] == rest[k - 1]);
                            } else {
                                assert(ws[k] == w);
                            }
                        }
                    },
                    Err(e) => {},
                }
            },
        }
    }
}

proof fn lemma_admit_short(v: SchedulerView, f: AudioFragmentRef)
    requires
        fragments_are_short(v.fragments),
        admit_spec(v, f) is Ok,
    ensures
        fragments_are_short(admit_spec(v, f)->Ok_0.0.fragments),
{
    let (v1, gap) = admit_spec(v, f)->Ok_0;
    let kept = if gap is Some {
        Seq::<AudioFragmentRef>::empty()
    } else {
        v.fragments
    };
    assert(v1.fragments == kept.push(f));
    assert forall|i: int| 0 <= i < v1.fragments.len() implies (#[trigger] v1.fragments[i]).end_ms
        - v1.fragments[i].start_ms <= REVISIONED_FRAGMENT_MS by {
        if i < kept.len() {
            assert(v1.fragments[i] == kept[i]);
        }
    }
}

/// The scheduler only ever holds fragments of at most two seconds, so every
/// four-second window a push returns reads two or three of them, whose
/// clips follow one another and cover the window exactly.
pub proof fn law_push_windows_are_tiled_by_two_or_three_fragments(
    v: SchedulerView,
    source: Seq<char>,
    f: AudioFragmentRef,
)
    requires
        fragments_are_short(v.fragments),
    ensures
        fragments_are_short(push_spec(v, source, f).0.fragments),
        push_spec(v, source, f).1 matches Ok(b) ==> forall|k: int|
            0 <= k < b.windows.len() ==> #[trigger] tiled_by_fragments(b.windows[k]),
{
    if admit_spec(v, f) is Ok {
        lemma_admit_short(v, f);
        lemma_emit_reads_two(admit_spec(v, f)->Ok_0.0, source);
    }
}

/// After a push that returned windows, the next window is scheduled three
/// seconds after the start of the last one (one second of overlap).
pub proof fn law_next_window_follows_the_last(
    v: SchedulerView,
    source: Seq<char>,
    f: AudioFragmentRef,
)
    requires
        push_spec(v, source, f).1 matches Ok(b) && b.windows.len() > 0,
    ensures
        ({
            let ws = push_spec(v, source, f).1->Ok_0.windows;
            push_spec(v, source, f).0.next_window_start_ms == Some(
                (ws.last().start_ms + DECODE_WINDOW_MS - DECODE_OVERLAP_MS) as i64,
            )
        }),
{
    lemma_emit_next(admit_spec(v, f)->Ok_0.0, source);
}

/// A push that reports no gap starts its windows where the scheduler had
/// already planned the next one, and when it returns none it leaves that
/// plan as it was.
pub proof fn law_a_push_without_a_gap_keeps_the_schedule(
    v: SchedulerView,
    source: Seq<char>,
    f: AudioFragmentRef,
)
    requires
        v.next_window_start_ms is Some,
        push_spec(v, source, f).1 matches Ok(b) && b.gap is None,
    ensures
        ({
            let b = push_spec(v, source, f).1->Ok_0;
            &&& b.windows.len() > 0 ==> b.windows[0].start_ms == v.next_window_start_ms->0
            &&& b.windows.len() == 0 ==> push_spec(v, source, f).0.next_window_start_ms
                == v.next_window_start_ms
        }),
{
    let v1 = admit_spec(v, f)->Ok_0.0;
    lemma_emit_shape(v1, source);
    lemma_emit_next(v1, source);
}

/// Successive windows of one source keep their spacing across pushes: when
/// one push returns windows and the next push reports no gap, the first
/// window of the second starts three seconds after the last of the first.
pub proof fn law_windows_keep_their_spacing_across_pushes(
    v: SchedulerView,
    source: Seq<char>,
    f1: AudioFragmentRef,
    f2: AudioFragmentRef,
)
    requires
        push_spec(v, source, f1).1 matches Ok(b1) && b1.windows.len() > 0,
        push_spec(push_spec(v, source, f1).0, source, f2).1 matches Ok(b2) && b2.gap is None
            && b2.windows.len() > 0,
    ensures
        ({
            let w1 = push_spec(v, source, f1).1->Ok_0.windows.last();
            let w2 = push_spec(push_spec(v, source, f1).0, source, f2).1->Ok_0.windows[0];
            w2.start_ms == w1.end_ms - DECODE_OVERLAP_MS
        }),
{
    law_next_window_follows_the_last(v, source, f1);
    law_push_windows_overlap_by_one_second(v, source, f1);
    let ws = push_spec(v, source, f1).1->Ok_0.windows;
    assert(ws.last() == ws[ws.len() - 1]);
    law_a_push_without_a_gap_keeps_the_schedule(push_spec(v, source, f1).0, source, f2);
}

/// After a reset (or on a new scheduler), any valid fragment of at most two
/// seconds is admitted with no gap and no window, as on a fresh scheduler:
/// the earlier sequence and time are forgotten, and the window ordinal is
/// kept.
pub proof fn law_after_a_reset_a_short_fragment_starts_afresh(
    v: SchedulerView,
    source: Seq<char>,
    f: AudioFragmentRef,
)
    requires
        v.next_sequence_no is None,
        v.next_window_start_ms is None,
        v.last_end_ms is None,
        f.sequence_no >= 0,
        0 <= f.start_ms < f.end_ms,
        f.end_ms - f.start_ms <= REVISIONED_FRAGMENT_MS,
    ensures
        push_spec(v, source, f).1 == Ok::<WindowBatchView, ScheduleError>(
            WindowBatchView { gap: None, windows: seq![] },
        ),
        push_spec(v, source, f).0.window_ordinal == v.window_ordinal,
        push_spec(v, source, f).0.next_window_start_ms == Some(f.start_ms),
        push_spec(v, source, f).0.last_end_ms == Some(f.end_ms),
{
}

// ---------------------------------------------------------------------------
// The scheduler
// ---------------------------------------------------------------------------

impl RollingWindowScheduler {
    /// The state is consistent and every fragment held is at most two
    /// seconds long.
    pub closed spec fn wf(&self) -> bool {
        wf_view(self@) && fragments_are_short(self@.fragments)
    }

    pub fn new() -> (s: Self)
        ensures
            s.wf(),
            s@.next_sequence_no is None,
            s@.next_window_start_ms is None,
            s@.last_end_ms is None,
            s@.fragments.len() == 0,
            s@.window_ordinal == 0,
    {
        RollingWindowScheduler {
            next_sequence_no: None,
            next_window_start_ms: None,
            last_end_ms: None,
            fragments: std::collections::VecDeque::new(),
            window_ordinal: 0,
        }
    }

    /// Forgets the source's position; the window ordinal keeps counting.
    pub fn reset(&mut self)
        ensures
            final(self).wf(),
            final(self)@.next_sequence_no is None,
            final(self)@.next_window_start_ms is None,
            final(self)@.last_end_ms is None,
            final(self)@.fragments.len() == 0,
            final(self)@.window_ordinal == old(self)@.window_ordinal,
    {
        self.next_sequence_no = None;
        self.next_window_start_ms = None;
        self.last_end_ms = None;
        self.fragments.clear();
    }

    /// Admits the next fragment of `source_id` and returns every window
    /// that became complete, plus the discontinuity it revealed, if any.
    pub fn push(&mut self, source_id: &str, fragment: AudioFragmentRef) -> (res: Result<
        WindowBatch,
        ScheduleError,
    >)
        requires
            old(self).wf(),
            fragment.end_ms <= MAX_TIMELINE_MS,
            fragment.sequence_no < i64::MAX,
        ensures
            final(self).wf(),
            final(self)@ == push_spec(old(self)@, source_id@, fragment).0,
            batch_result_view(res) == push_spec(old(self)@, source_id@, fragment).1,
            batch_result_view(res) matches Ok(b) ==> forall|k: int|
                0 <= k < b.windows.len() ==> #[trigger] tiled_by_fragments(b.windows[k]),
    {
        let ghost v0 = self@;
        proof {
            law_push_windows_are_tiled_by_two_or_three_fragments(v0, source_id@, fragment);
        }
        if fragment.sequence_no < 0 || fragment.start_ms < 0 || fragment.end_ms
            <= fragment.start_ms {
            return Err(ScheduleError::InvalidRange);
        }
        if fragment.end_ms - fragment.start_ms > REVISIONED_FRAGMENT_MS {
            return Err(ScheduleError::FragmentTooLong);
        }
        let expected_sequence = match self.next_sequence_no {
            Some(q) => q,
            None => fragment.sequence_no,
        };
        let expected_start = match self.last_end_ms {
            Some(e) => e,
            None => fragment.start_ms,
        };
        if fragment.sequence_no < expected_sequence {
            return Err(ScheduleError::SequenceWentBackwards);
        }
        if fragment.start_ms < expected_start {
            return Err(ScheduleError::OverlappingAudio);
        }
        let gapped = fragment.sequence_no != expected_sequence || fragment.start_ms
            != expected_start;
        let gap = if gapped {
            Some(
                AudioGap {
                    expected_sequence_no: expected_sequence,
                    observed_sequence_no: fragment.sequence_no,
                    start_ms: expected_start,
                    end_ms: fragment.start_ms,
                },
            )
        } else {
            None
        };
        if gapped {
            // Never decode across an unaccounted source interval.
            self.fragments.clear();
            self.next_window_start_ms = Some(fragment.start_ms);
        }
        if self.next_window_start_ms.is_none() {
            self.next_window_start_ms = Some(fragment.start_ms);
        }
        self.next_sequence_no = Some(fragment.sequence_no + 1);
        self.last_end_ms = Some(fragment.end_ms);
        self.fragments.push_back(fragment);
        proof {
            lemma_admit_wf(v0, fragment);
            lemma_admit_short(v0, fragment);
            assert(self@ == admit_spec(v0, fragment)->Ok_0.0);
            assert(gap == admit_spec(v0, fragment)->Ok_0.1);
        }
        let ghost v1 = self@;
        let mut windows: Vec<DecodeWindow> = Vec::new();
        loop
            invariant
                old(self)@ == v0,
                admit_spec(v0, fragment) == Ok::<(SchedulerView, Option<AudioGap>), ScheduleError>(
                    (v1, gap),
                ),
                wf_view(self@),
                fragments_are_short(self@.fragments),
                self@.next_window_start_ms is Some,
                self@.last_end_ms is Some,
                emit_spec(v1, source_id@) == prepend_windows(
                    windows_view(windows@),
                    emit_spec(self@, source_id@),
                ),
            ensures
                opt_or(self@.last_end_ms, 0) < opt_or(self@.next_window_start_ms, 0)
                    + DECODE_WINDOW_MS,
            decreases opt_or(self@.last_end_ms, 0) - opt_or(self@.next_window_start_ms, 0),
        {
            let start_ms = match self.next_window_start_ms {
                Some(s) => s,
                None => 0,
            };
            let last_end = match self.last_end_ms {
                Some(e) => e,
                None => 0,
            };
            let end_ms = start_ms + DECODE_WINDOW_MS;
            if last_end < end_ms {
                break;
            }
            let ghost before = self@;
            proof {
                assert(start_ms <= MAX_TIMELINE_MS);
                assert(opt_or(before.last_end_ms, 0) >= start_ms + DECODE_WINDOW_MS);
            }
            let w = match self.build_window(source_id, start_ms, end_ms, false) {
                Ok(w) => w,
                Err(e) => {
                    proof {
                        assert(emit_spec(before, source_id@) == (before, Err::<
                            Seq<DecodeWindowView>,
                            ScheduleError,
                        >(e)));
                    }
                    return Err(e);
                },
            };
            let ghost ws_old = windows_view(windows@);
            windows.push(w);
            self.window_ordinal = if self.window_ordinal < u64::MAX {
                self.window_ordinal + 1
            } else {
                self.window_ordinal
            };
            let next = start_ms + DECODE_WINDOW_MS - DECODE_OVERLAP_MS;
            self.next_window_start_ms = Some(next);
            self.discard_expired_fragments();
            proof {
                lemma_after_window_wf(before, next);
                lemma_drop_expired_short(before.fragments, next);
                assert(self@ == after_window(before, next));
                assert(windows_view(windows@) =~= ws_old + seq![w@]);
                assert(emit_spec(before, source_id@) == prepend_windows(
                    seq![w@],
                    emit_spec(self@, source_id@),
                ));
                let r = emit_spec(self@, source_id@);
                match r.1 {
                    Ok(rest) => {
                        assert(ws_old + (seq![w@] + rest) =~= (ws_old + seq![w@]) + rest);
                    },
                    Err(e) => {},
                }
            }
        }
        let batch = WindowBatch { gap, windows };
        proof {
            assert(emit_spec(self@, source_id@) == (self@, Ok::<
                Seq<DecodeWindowView>,
                ScheduleError,
            >(seq![])));
            assert(windows_view(batch.windows@) + seq![] =~= windows_view(batch.windows@));
        }
        Ok(batch)
    }

    /// Seals a shorter last window after capture stops. This is a decode
    /// request only.
    pub fn flush(&mut self, source_id: &str) -> (res: Result<Option<DecodeWindow>, ScheduleError>)
        requires
            old(self).wf(),
        ensures
            final(self).wf(),
            final(self)@ == flush_spec(old(self)@, source_id@).0,
            flush_result_view(res) == flush_spec(old(self)@, source_id@).1,
    {
        let end_ms = match self.last_end_ms {
            Some(e) => e,
            None => {
                return Ok(None);
            },
        };
        let next_start = match self.next_window_start_ms {
            Some(s) => s,
            None => {
                return Ok(None);
            },
        };
        if end_ms <= next_start {
            return Ok(None);
        }
        let start_ms = if next_start >= end_ms - DECODE_WINDOW_MS {
            next_start
        } else {
            end_ms - DECODE_WINDOW_MS
        };
        if end_ms - start_ms < MIN_TAIL_MS {
            return Ok(None);
        }
        let ghost before = self@;
        let window = self.build_window(source_id, start_ms, end_ms, true)?;
        self.window_ordinal = if self.window_ordinal < u64::MAX {
            self.window_ordinal + 1
        } else {
            self.window_ordinal
        };
        self.next_window_start_ms = Some(end_ms);
        self.discard_expired_fragments();
        proof {
            lemma_after_window_wf(before, end_ms);
            lemma_drop_expired_short(before.fragments, end_ms);
        }
        Ok(Some(window))
    }

    pub fn build_window(&self, source_id: &str, start_ms: i64, end_ms: i64, is_final: bool) -> (res:
        Result<DecodeWindow, ScheduleError>)
        ensures
            window_result_view(res) == build_spec(
                self@.fragments,
                source_id@,
                self@.window_ordinal,
                start_ms,
                end_ms,
                is_final,
            ),
    {
        if start_ms < 0 || end_ms <= start_ms || end_ms - start_ms > DECODE_WINDOW_MS {
            return Err(ScheduleError::InvalidRange);
        }
        let ghost frags = self@.fragments;
        let mut cursor_ms = start_ms;
        let mut fragments: Vec<WindowFragment> = Vec::new();
        let mut i: usize = 0;
        while i < self.fragments.len()
            invariant
                frags == self@.fragments,
                0 <= start_ms < end_ms,
                end_ms - start_ms <= DECODE_WINDOW_MS,
                i <= frags.len(),
                fragments@ == clips_spec(frags.take(i as int), start_ms, end_ms),
                chain_end(fragments@, start_ms) == Some(cursor_ms as int),
            decreases frags.len() - i,
        {
            let f = &self.fragments[i];
            let clip_start_ms = if start_ms >= f.start_ms {
                start_ms
            } else {
                f.start_ms
            };
            let clip_end_ms = if end_ms <= f.end_ms {
                end_ms
            } else {
                f.end_ms
            };
            proof {
                assert(frags.take(i + 1).drop_last() =~= frags.take(i as int));
                assert(frags.take(i + 1).last() == frags[i as int]);
            }
            if clip_start_ms >= clip_end_ms {
                i += 1;
            } else {
                if clip_start_ms != cursor_ms {
                    proof {
                        let c = clip_of(frags[i as int], start_ms, end_ms);
                        assert(clips_spec(frags.take(i + 1), start_ms, end_ms) == fragments@.push(
                            c,
                        ));
                        assert(fragments@.push(c).drop_last() =~= fragments@);
                        assert(chain_end(fragments@.push(c), start_ms) is None);
                        lemma_chain_none_stays(
                            frags,
                            start_ms,
                            end_ms,
                            i + 1,
                            frags.len() as int,
                        );
                        assert(frags.take(frags.len() as int) =~= frags);
                        assert(chain_end(clips_spec(frags, start_ms, end_ms), start_ms) is None);
                    }
                    return Err(ScheduleError::WindowNotFullyCovered);
                }
                let piece = WindowFragment {
                    id: f.id.clone(),
                    path: f.path.clone(),
                    fragment_start_ms: f.start_ms,
                    fragment_end_ms: f.end_ms,
                    clip_start_ms,
                    clip_end_ms,
                };
                let ghost prev = fragments@;
                fragments.push(piece);
                cursor_ms = clip_end_ms;
                i += 1;
                proof {
                    assert(fragments@.drop_last() =~= prev);
                }
            }
        }
        proof {
            assert(frags.take(frags.len() as int) =~= frags);
        }
        if cursor_ms != end_ms {
            return Err(ScheduleError::WindowNotFullyCovered);
        }
        if fragments.len() > MAX_WINDOW_FRAGMENTS {
            return Err(ScheduleError::TooManyFragments);
        }
        let mut id = String::new();
        push_text(&mut id, source_id);
        push_char(&mut id, ':');
        push_u64(&mut id, self.window_ordinal);
        push_char(&mut id, ':');
        push_i64(&mut id, end_ms);
        proof {
            assert(id@ =~= window_id(source_id@, self@.window_ordinal, end_ms));
        }
        Ok(DecodeWindow { id, start_ms, end_ms, is_final, fragments })
    }

    pub fn discard_expired_fragments(&mut self)
        ensures
            final(self)@ == (SchedulerView {
                fragments: drop_expired(
                    old(self)@.fragments,
                    opt_or(old(self)@.next_window_start_ms, 0),
                ),
                ..old(self)@
            }),
    {
        let retain_from = match self.next_window_start_ms {
            Some(s) => s,
            None => 0,
        };
        let ghost orig = self@;
        while self.fragments.len() > 0 && self.fragments[0].end_ms <= retain_from
            invariant
                drop_expired(orig.fragments, retain_from) == drop_expired(
                    self@.fragments,
                    retain_from,
                ),
                retain_from == opt_or(self@.next_window_start_ms, 0),
                self@ == (SchedulerView { fragments: self@.fragments, ..orig }),
            decreases self@.fragments.len(),
        {
            let ghost before = self@.fragments;
            let _ = self.fragments.pop_front();
            assert(self@.fragments =~= before.drop_first());
        }
        proof {
            assert(drop_expired(self@.fragments, retain_from) == self@.fragments);
        }
    }
}

// ---------------------------------------------------------------------------
// Revision tracking
// ---------------------------------------------------------------------------

/// Longest hypothesis text, in UTF-8 bytes, that is tracked.
pub const MAX_UTTERANCE_TEXT_BYTES: usize = 16_384;

/// How far apart two hypotheses may start and still be the same utterance.
pub const MATCH_TOLERANCE_MS: i64 = 1_000;

/// Consecutive unchanged windows after which a hypothesis is stable.
pub const REQUIRED_STABLE_WINDOWS: u8 = 2;

/// Bound on the source times the tracker compares, so that differences of
/// two of them fit an `i64`.
pub const TRACKER_TIME_BOUND: i64 = 2_305_843_009_213_693_952;

/// One decoded stretch of speech. The worker's confidence is carried as the
/// bits of its IEEE-754 double and never compared.
#[derive(Debug)]
pub struct TranscriptHypothesis {
    pub start_ms: i64,
    pub end_ms: i64,
    pub text: String,
    pub language: Option<String>,
    pub confidence_bits: Option<u64>,
}

pub struct HypothesisView {
    pub start_ms: i64,
    pub end_ms: i64,
    pub text: Seq<char>,
    pub language: Option<Seq<char>>,
    pub confidence_bits: Option<u64>,
}

impl View for TranscriptHypothesis {
    type V = HypothesisView;

    open spec fn view(&self) -> HypothesisView {
        HypothesisView {
            start_ms: self.start_ms,
            end_ms: self.end_ms,
            text: self.text@,
            language: opt_chars(self.language),
            confidence_bits: self.confidence_bits,
        }
    }
}

pub open spec fn hyps_view(v: Seq<TranscriptHypothesis>) -> Seq<HypothesisView> {
    v.map_values(|h: TranscriptHypothesis| h@)
}

impl TranscriptHypothesis {
    /// A copy of this hypothesis.
    pub fn clone_hypothesis(&self) -> (out: TranscriptHypothesis)
        ensures
            out@ == self@,
    {
        TranscriptHypothesis {
            start_ms: self.start_ms,
            end_ms: self.end_ms,
            text: self.text.clone(),
            language: match &self.language {
                Some(l) => Some(l.clone()),
                None => None,
            },
            confidence_bits: self.confidence_bits,
        }
    }
}

/// A hypothesis worth tracking from a window: inside it, not empty in time
/// or text, and not overlong.
pub open spec fn usable(h: HypothesisView, w_start: i64, w_end: i64) -> bool {
    &&& h.start_ms >= w_start
    &&& h.end_ms > h.start_ms
    &&& h.end_ms <= w_end
    &&& crate::text::byte_len(h.text) <= MAX_UTTERANCE_TEXT_BYTES
    &&& crate::text::trim_spec(h.text).len() > 0
}

/// The usable hypotheses, in the order given.
pub open spec fn usable_list(hs: Seq<HypothesisView>, w_start: i64, w_end: i64) -> Seq<
    HypothesisView,
>
    decreases hs.len(),
{
    if hs.len() == 0 {
        seq![]
    } else if usable(hs.last(), w_start, w_end) {
        usable_list(hs.drop_last(), w_start, w_end).push(hs.last())
    } else {
        usable_list(hs.drop_last(), w_start, w_end)
    }
}

pub open spec fn hyp_key_le(a: HypothesisView, b: HypothesisView) -> bool {
    a.start_ms < b.start_ms || (a.start_ms == b.start_ms && a.end_ms <= b.end_ms)
}

/// Inserts `x` after every hypothesis that does not sort after it.
pub open spec fn insert_hyp(s: Seq<HypothesisView>, x: HypothesisView) -> Seq<HypothesisView>
    decreases s.len(),
{
    if s.len() == 0 {
        seq![x]
    } else if hyp_key_le(s.last(), x) {
        s.push(x)
    } else {
        insert_hyp(s.drop_last(), x).push(s.last())
    }
}

/// Stable sort by `(start_ms, end_ms)`.
pub open spec fn sort_hyps(s: Seq<HypothesisView>) -> Seq<HypothesisView>
    decreases s.len(),
{
    if s.len() == 0 {
        seq![]
    } else {
        insert_hyp(sort_hyps(s.drop_last()), s.last())
    }
}

fn usable_exec(h: &TranscriptHypothesis, w_start: i64, w_end: i64) -> (res: bool)
    ensures
        res == usable(h@, w_start, w_end),
{
    let text = chars_of(h.text.as_str());
    h.start_ms >= w_start && h.end_ms > h.start_ms && h.end_ms <= w_end
        && crate::text::utf8_len_at_most(&text, MAX_UTTERANCE_TEXT_BYTES)
        && crate::text::trim(&text).len() > 0
}

fn insert_hyp_exec(v: &mut Vec<TranscriptHypothesis>, x: TranscriptHypothesis)
    ensures
        hyps_view(final(v)@) == insert_hyp(hyps_view(old(v)@), x@),
{
    let ghost s0 = hyps_view(v@);
    let ghost xv = x@;
    v.push(x);
    let mut i: usize = v.len() - 1;
    assert(s0.take(i as int) =~= s0);
    assert(hyps_view(v@).skip(i + 1) =~= Seq::<HypothesisView>::empty());
    assert(insert_hyp(s0, xv) + Seq::<HypothesisView>::empty() =~= insert_hyp(s0, xv));
    assert(hyps_view(v@).take(i as int) =~= s0);
    while i > 0 && !(v[i - 1].start_ms < v[i].start_ms || (v[i - 1].start_ms == v[i].start_ms
        && v[i - 1].end_ms <= v[i].end_ms))
        invariant
            0 <= i < v.len(),
            v@.len() == s0.len() + 1,
            hyps_view(v@)[i as int] == xv,
            insert_hyp(s0, xv) == insert_hyp(s0.take(i as int), xv) + hyps_view(v@).skip(i + 1),
            hyps_view(v@).take(i as int) == s0.take(i as int),
        decreases i,
    {
        let ghost before = hyps_view(v@);
        let prev = v[i - 1].clone_hypothesis();
        let cur = v[i].clone_hypothesis();
        v.set(i - 1, cur);
        v.set(i, prev);
        proof {
            let t = s0.take(i as int);
            assert(before[i - 1] == s0[i - 1]);
            assert(t.last() == s0[i - 1]);
            assert(t.drop_last() =~= s0.take(i - 1));
            assert(insert_hyp(t, xv) == insert_hyp(s0.take(i - 1), xv).push(s0[i - 1]));
            assert(hyps_view(v@).skip(i as int) =~= seq![s0[i - 1]] + before.skip(i + 1));
            assert(insert_hyp(s0.take(i - 1), xv).push(s0[i - 1]) + before.skip(i + 1)
                =~= insert_hyp(s0.take(i - 1), xv) + (seq![s0[i - 1]] + before.skip(i + 1)));
            assert(hyps_view(v@).take(i - 1) =~= s0.take(i - 1));
            assert(hyps_view(v@)[i - 1] == xv);
        }
        i -= 1;
    }
    proof {
        let t = s0.take(i as int);
        if i > 0 {
            assert(t.last() == s0[i - 1]);
            assert(hyps_view(v@)[i - 1] == s0[i - 1]);
        }
        assert(insert_hyp(t, xv) =~= t.push(xv));
        assert(hyps_view(v@) =~= t.push(xv) + hyps_view(v@).skip(i + 1));
    }
}

/// The usable hypotheses of a window, sorted by `(start_ms, end_ms)`.
fn usable_sorted(hypotheses: &Vec<TranscriptHypothesis>, w_start: i64, w_end: i64) -> (out: Vec<
    TranscriptHypothesis,
>)
    ensures
        hyps_view(out@) == sort_hyps(usable_list(hyps_view(hypotheses@), w_start, w_end)),
{
    let ghost hs = hyps_view(hypotheses@);
    let mut kept: Vec<TranscriptHypothesis> = Vec::new();
    let mut i: usize = 0;
    while i < hypotheses.len()
        invariant
            i <= hypotheses.len(),
            hs == hyps_view(hypotheses@),
            hyps_view(kept@) == usable_list(hs.take(i as int), w_start, w_end),
        decreases hypotheses.len() - i,
    {
        assert(hs.take(i + 1).drop_last() =~= hs.take(i as int));
        assert(hs.take(i + 1).last() == hypotheses@[i as int]@);
        if usable_exec(&hypotheses[i], w_start, w_end) {
            let h = hypotheses[i].clone_hypothesis();
            let ghost before = kept@;
            kept.push(h);
            assert(hyps_view(kept@) =~= hyps_view(before).push(h@));
        }
        i += 1;
    }
    assert(hs.take(hypotheses.len() as int) =~= hs);
    let ghost u = hyps_view(kept@);
    let mut out: Vec<TranscriptHypothesis> = Vec::new();
    let mut j: usize = 0;
    while j < kept.len()
        invariant
            j <= kept.len(),
            u == hyps_view(kept@),
            hyps_view(out@) == sort_hyps(u.take(j as int)),
        decreases kept.len() - j,
    {
        assert(u.take(j + 1).drop_last() =~= u.take(j as int));
        assert(u.take(j + 1).last() == kept@[j as int]@);
        let h = kept[j].clone_hypothesis();
        insert_hyp_exec(&mut out, h);
        j += 1;
    }
    assert(u.take(kept.len() as int) =~= u);
    out
}

/// What the tracker reports: a new or revised provisional hypothesis, an
/// utterance withdrawn, or a stable revision ready to be persisted.
#[derive(Debug)]
pub enum TranscriptUpdate {
    Provisional { utterance_id: String, revision: u64, hypothesis: TranscriptHypothesis },
    Discard { utterance_id: String, revision: u64 },
    CommitCandidate {
        utterance_id: String,
        revision: u64,
        expected_persisted_revision: i64,
        hypothesis: TranscriptHypothesis,
    },
}

pub enum UpdateView {
    Provisional { id: Seq<char>, revision: u64, hypothesis: HypothesisView },
    Discard { id: Seq<char>, revision: u64 },
    CommitCandidate { id: Seq<char>, revision: u64, expected: i64, hypothesis: HypothesisView },
}

impl View for TranscriptUpdate {
    type V = UpdateView;

    open spec fn view(&self) -> UpdateView {
        match self {
            TranscriptUpdate::Provisional { utterance_id, revision, hypothesis } =>
                UpdateView::Provisional {
                id: utterance_id@,
                revision: *revision,
                hypothesis: hypothesis@,
            },
            TranscriptUpdate::Discard { utterance_id, revision } => UpdateView::Discard {
                id: utterance_id@,
                revision: *revision,
            },
            TranscriptUpdate::CommitCandidate {
                utterance_id,
                revision,
                expected_persisted_revision,
                hypothesis,
            } => UpdateView::CommitCandidate {
                id: utterance_id@,
                revision: *revision,
                expected: *expected_persisted_revision,
                hypothesis: hypothesis@,
            },
        }
    }
}

pub open spec fn updates_view(v: Seq<TranscriptUpdate>) -> Seq<UpdateView> {
    v.map_values(|u: TranscriptUpdate| u@)
}

/// What the tracker knows of one utterance.
#[derive(Debug)]
pub struct TrackedUtterance {
    pub utterance_id: String,
    pub display_revision: u64,
    pub latest: TranscriptHypothesis,
    pub stable_windows: u8,
    pub last_seen_window: u64,
    pub persisted_revision: i64,
    pub committed_text: Option<String>,
    pub committed_hypothesis: Option<TranscriptHypothesis>,
    pub candidate_offered_revision: Option<u64>,
}

pub struct TrackedView {
    pub id: Seq<char>,
    pub display_revision: u64,
    pub latest: HypothesisView,
    pub stable_windows: u8,
    pub last_seen_window: u64,
    pub persisted_revision: i64,
    pub committed_text: Option<Seq<char>>,
    pub committed: Option<HypothesisView>,
    pub offered: Option<u64>,
}

pub open spec fn opt_hyp(o: Option<TranscriptHypothesis>) -> Option<HypothesisView> {
    match o {
        Some(h) => Some(h@),
        None => None,
    }
}

impl View for TrackedUtterance {
    type V = TrackedView;

    open spec fn view(&self) -> TrackedView {
        TrackedView {
            id: self.utterance_id@,
            display_revision: self.display_revision,
            latest: self.latest@,
            stable_windows: self.stable_windows,
            last_seen_window: self.last_seen_window,
            persisted_revision: self.persisted_revision,
            committed_text: opt_chars(self.committed_text),
            committed: opt_hyp(self.committed_hypothesis),
            offered: self.candidate_offered_revision,
        }
    }
}

pub open spec fn tracked_view(v: Seq<TrackedUtterance>) -> Seq<TrackedView> {
    v.map_values(|t: TrackedUtterance| t@)
}

impl TrackedUtterance {
    fn clone_tracked(&self) -> (out: TrackedUtterance)
        ensures
            out@ == self@,
    {
        TrackedUtterance {
            utterance_id: self.utterance_id.clone(),
            display_revision: self.display_revision,
            latest: self.latest.clone_hypothesis(),
            stable_windows: self.stable_windows,
            last_seen_window: self.last_seen_window,
            persisted_revision: self.persisted_revision,
            committed_text: match &self.committed_text {
                Some(t) => Some(t.clone()),
                None => None,
            },
            committed_hypothesis: match &self.committed_hypothesis {
                Some(h) => Some(h.clone_hypothesis()),
                None => None,
            },
            candidate_offered_revision: self.candidate_offered_revision,
        }
    }
}

/// How long two hypotheses share, negative when they are apart.
pub open spec fn overlap_ms(a: HypothesisView, b: HypothesisView) -> int {
    (if a.end_ms <= b.end_ms {
        a.end_ms
    } else {
        b.end_ms
    }) - (if a.start_ms >= b.start_ms {
        a.start_ms
    } else {
        b.start_ms
    })
}

/// Two hypotheses are the same utterance: they share time, start within
/// the tolerance of each other, and are in the same language. Text is not
/// compared.
pub open spec fn temporal_match(a: HypothesisView, b: HypothesisView) -> bool {
    &&& overlap_ms(a, b) > 0
    &&& -MATCH_TOLERANCE_MS <= a.start_ms - b.start_ms <= MATCH_TOLERANCE_MS
    &&& a.language == b.language
}

/// Same time, text and language; confidence does not count.
pub open spec fn same_hypothesis(a: HypothesisView, b: HypothesisView) -> bool {
    a.start_ms == b.start_ms && a.end_ms == b.end_ms && a.text == b.text && a.language == b.language
}

/// The tracked utterance a hypothesis continues: of those it matches, the
/// one it overlaps most, the later one on a tie.
pub open spec fn best_match(us: Seq<TrackedView>, h: HypothesisView) -> Option<int>
    decreases us.len(),
{
    if us.len() == 0 {
        None
    } else {
        let k = us.len() - 1;
        let before = best_match(us.drop_last(), h);
        if temporal_match(us[k].latest, h) {
            match before {
                Some(j) => if overlap_ms(us[k].latest, h) >= overlap_ms(us[j].latest, h) {
                    Some(k)
                } else {
                    Some(j)
                },
                None => Some(k),
            }
        } else {
            before
        }
    }
}

/// Where the utterance `id` is tracked.
pub open spec fn find_id(us: Seq<TrackedView>, id: Seq<char>) -> Option<int>
    decreases us.len(),
{
    if us.len() == 0 {
        None
    } else {
        match find_id(us.drop_last(), id) {
            Some(j) => Some(j),
            None => if us.last().id == id {
                Some(us.len() - 1)
            } else {
                None
            },
        }
    }
}

/// Times of a tracked hypothesis lie within the tracker's bound.
pub open spec fn hyp_in_bounds(h: HypothesisView) -> bool {
    -TRACKER_TIME_BOUND <= h.start_ms && h.end_ms <= TRACKER_TIME_BOUND && h.start_ms < h.end_ms
}

/// Every tracked hypothesis has comparable times.
pub open spec fn all_in_bounds(us: Seq<TrackedView>) -> bool {
    forall|i: int| 0 <= i < us.len() ==> hyp_in_bounds(#[trigger] us[i].latest)
}

proof fn lemma_best_match(us: Seq<TrackedView>, h: HypothesisView)
    ensures
        best_match(us, h) matches Some(j) ==> 0 <= j < us.len() && temporal_match(us[j].latest, h),
    decreases us.len(),
{
    if us.len() > 0 {
        lemma_best_match(us.drop_last(), h);
    }
}

proof fn lemma_find_id(us: Seq<TrackedView>, id: Seq<char>)
    ensures
        find_id(us, id) matches Some(j) ==> 0 <= j < us.len() && us[j].id == id,
        find_id(us, id) is None ==> forall|k: int| 0 <= k < us.len() ==> us[k].id != id,
        find_id(us, id) matches Some(j) ==> forall|k: int| 0 <= k < j ==> us[k].id != id,
    decreases us.len(),
{
    if us.len() > 0 {
        let t = us.drop_last();
        lemma_find_id(t, id);
        assert forall|k: int| 0 <= k < t.len() implies t[k] == us[k] by {}
    }
}

fn overlap_exec(a: &TranscriptHypothesis, b: &TranscriptHypothesis) -> (res: i64)
    requires
        hyp_in_bounds(a@),
        hyp_in_bounds(b@),
    ensures
        res == overlap_ms(a@, b@),
{
    let hi = if a.end_ms <= b.end_ms {
        a.end_ms
    } else {
        b.end_ms
    };
    let lo = if a.start_ms >= b.start_ms {
        a.start_ms
    } else {
        b.start_ms
    };
    hi - lo
}

fn same_language(a: &Option<String>, b: &Option<String>) -> (res: bool)
    ensures
        res == (opt_chars(*a) == opt_chars(*b)),
{
    match (a, b) {
        (Some(x), Some(y)) => crate::text::str_eq(x.as_str(), y.as_str()),
        (None, None) => true,
        _ => false,
    }
}

fn temporal_match_exec(a: &TranscriptHypothesis, b: &TranscriptHypothesis) -> (res: bool)
    requires
        hyp_in_bounds(a@),
        hyp_in_bounds(b@),
    ensures
        res == temporal_match(a@, b@),
{
    let d = a.start_ms - b.start_ms;
    overlap_exec(a, b) > 0 && -MATCH_TOLERANCE_MS <= d && d <= MATCH_TOLERANCE_MS && same_language(
        &a.language,
        &b.language,
    )
}

fn hypothesis_equal(a: &TranscriptHypothesis, b: &TranscriptHypothesis) -> (res: bool)
    ensures
        res == same_hypothesis(a@, b@),
{
    a.start_ms == b.start_ms && a.end_ms == b.end_ms && crate::text::str_eq(
        a.text.as_str(),
        b.text.as_str(),
    ) && same_language(&a.language, &b.language)
}

fn best_match_exec(us: &Vec<TrackedUtterance>, h: &TranscriptHypothesis) -> (res: Option<usize>)
    requires
        all_in_bounds(tracked_view(us@)),
        hyp_in_bounds(h@),
    ensures
        match res {
            Some(r) => best_match(tracked_view(us@), h@) == Some(r as int),
            None => best_match(tracked_view(us@), h@) is None,
        },
{
    let ghost tv = tracked_view(us@);
    let mut best: Option<usize> = None;
    let mut best_overlap: i64 = 0;
    let mut i: usize = 0;
    while i < us.len()
        invariant
            i <= us.len(),
            tv == tracked_view(us@),
            all_in_bounds(tv),
            hyp_in_bounds(h@),
            match best {
                Some(b) => best_match(tv.take(i as int), h@) == Some(b as int) && best_overlap
                    == overlap_ms(tv[b as int].latest, h@) && b < i,
                None => best_match(tv.take(i as int), h@) is None,
            },
        decreases us.len() - i,
    {
        assert(tv.take(i + 1).drop_last() =~= tv.take(i as int));
        assert(tv.take(i + 1)[i as int] == us@[i as int]@);
        assert(us@[i as int]@.latest == us@[i as int].latest@);
        proof {
            match best {
                Some(b) => {
                    assert(tv.take(i + 1)[b as int] == tv[b as int]);
                    assert(tv.take(i as int)[b as int] == tv[b as int]);
                },
                None => {},
            }
        }
        let t = &us[i];
        if temporal_match_exec(&t.latest, h) {
            let o = overlap_exec(&t.latest, h);
            match best {
                Some(_) => {
                    if o >= best_overlap {
                        best = Some(i);
                        best_overlap = o;
                    }
                },
                None => {
                    best = Some(i);
                    best_overlap = o;
                },
            }
        }
        i += 1;
    }
    assert(tv.take(us.len() as int) =~= tv);
    best
}

fn find_id_exec(us: &Vec<TrackedUtterance>, id: &str) -> (res: Option<usize>)
    ensures
        match res {
            Some(r) => find_id(tracked_view(us@), id@) == Some(r as int),
            None => find_id(tracked_view(us@), id@) is None,
        },
{
    let ghost tv = tracked_view(us@);
    let mut i: usize = 0;
    proof {
        lemma_find_id(tv, id@);
    }
    while i < us.len()
        invariant
            i <= us.len(),
            tv == tracked_view(us@),
            forall|k: int| 0 <= k < i ==> tv[k].id != id@,
            find_id(tv, id@) matches Some(j) ==> forall|k: int| 0 <= k < j ==> tv[k].id != id@,
            find_id(tv, id@) matches Some(j) ==> 0 <= j < tv.len() && tv[j].id == id@,
            find_id(tv, id@) is None ==> forall|k: int| 0 <= k < tv.len() ==> tv[k].id != id@,
        decreases us.len() - i,
    {
        assert(tv[i as int] == us@[i as int]@);
        if crate::text::str_eq(us[i].utterance_id.as_str(), id) {
            return Some(i);
        }
        i += 1;
    }
    None
}

pub open spec fn sat_inc_u8(n: u8) -> u8 {
    if n < u8::MAX {
        (n + 1) as u8
    } else {
        n
    }
}

/// The id a new utterance gets: `utt:{window}:{ordinal}:{start}`.
pub open spec fn utterance_id_for(window_id: Seq<char>, ordinal: nat, start_ms: i64) -> Seq<char> {
    "utt:"@ + window_id + ":"@ + decimal(ordinal) + ":"@ + signed_decimal(start_ms as int)
}

/// A newly tracked utterance, not yet seen in any window.
pub open spec fn new_tracked(id: Seq<char>, h: HypothesisView) -> TrackedView {
    TrackedView {
        id,
        display_revision: 1,
        latest: h,
        stable_windows: 0,
        last_seen_window: 0,
        persisted_revision: 0,
        committed_text: None,
        committed: None,
        offered: None,
    }
}

/// One hypothesis of window number `cur` taken into the tracked set: it
/// continues the utterance it matches best, or starts a new one. A changed
/// hypothesis raises the display revision and is reported as provisional
/// (as is the first sighting); an unchanged one counts towards stability.
/// A revision not yet committed is offered for commit once the window is
/// final, the hypothesis ends before the window's overlap, or it has been
/// stable for enough windows, and only once per revision.
pub open spec fn observe_one(
    us: Seq<TrackedView>,
    h: HypothesisView,
    ordinal: nat,
    w: DecodeWindowView,
    cur: u64,
) -> (Seq<TrackedView>, Seq<UpdateView>) {
    let id = match best_match(us, h) {
        Some(j) => us[j].id,
        None => utterance_id_for(w.id, ordinal, h.start_ms),
    };
    let (us1, idx) = match find_id(us, id) {
        Some(k) => (us, k),
        None => (us.push(new_tracked(id, h)), us.len() as int),
    };
    let t = us1[idx];
    let first = t.last_seen_window == 0;
    let unchanged = same_hypothesis(t.latest, h);
    let stable: u8 = if unchanged && t.last_seen_window < cur && t.last_seen_window + 1 == cur {
        sat_inc_u8(t.stable_windows)
    } else {
        1
    };
    let display: u64 = if unchanged {
        t.display_revision
    } else {
        sat_inc(t.display_revision)
    };
    let latest = if unchanged {
        HypothesisView { confidence_bits: h.confidence_bits, ..t.latest }
    } else {
        h
    };
    let offered0 = if unchanged {
        t.offered
    } else {
        None
    };
    let prov = if !unchanged || first {
        seq![UpdateView::Provisional { id, revision: display, hypothesis: h }]
    } else {
        seq![]
    };
    let changed_since_commit = match t.committed {
        None => true,
        Some(c) => !same_hypothesis(c, h),
    };
    let stable_enough = w.is_final || h.end_ms <= w.end_ms - DECODE_OVERLAP_MS || stable
        >= REQUIRED_STABLE_WINDOWS;
    let offer = changed_since_commit && stable_enough && offered0 != Some(display);
    let t2 = TrackedView {
        display_revision: display,
        latest,
        stable_windows: stable,
        last_seen_window: cur,
        offered: if offer {
            Some(display)
        } else {
            offered0
        },
        ..t
    };
    (
        us1.update(idx, t2),
        prov + if offer {
            seq![
                UpdateView::CommitCandidate {
                    id,
                    revision: display,
                    expected: t.persisted_revision,
                    hypothesis: h,
                },
            ]
        } else {
            seq![]
        },
    )
}

/// The hypotheses taken in order, each numbered by its position.
pub open spec fn observe_all(
    us: Seq<TrackedView>,
    hs: Seq<HypothesisView>,
    w: DecodeWindowView,
    cur: u64,
) -> (Seq<TrackedView>, Seq<UpdateView>)
    decreases hs.len(),
{
    if hs.len() == 0 {
        (us, seq![])
    } else {
        let (u1, a1) = observe_all(us, hs.drop_last(), w, cur);
        let (u2, a2) = observe_one(u1, hs.last(), (hs.len() - 1) as nat, w, cur);
        (u2, a1 + a2)
    }
}

/// Which tracked utterances a sweep takes out.
#[derive(Clone, Copy, Debug)]
pub enum Sweep {
    /// Uncommitted utterances the last two windows did not see, which ended
    /// inside the window that ends at `w_end`.
    Stale { cur: u64, w_end: i64 },
    /// Every utterance not yet committed.
    Uncommitted,
    /// Committed utterances that ended before the matching reach of the
    /// window that starts at `w_start`.
    Expired { w_start: i64 },
}

pub open spec fn leaves(t: TrackedView, m: Sweep) -> bool {
    match m {
        Sweep::Stale { cur, w_end } => t.last_seen_window + 1 < cur && t.committed_text is None
            && t.latest.end_ms <= w_end,
        Sweep::Uncommitted => t.committed_text is None,
        Sweep::Expired { w_start } => t.committed_text is Some && t.latest.end_ms <= w_start
            - MATCH_TOLERANCE_MS,
    }
}

pub open spec fn discard_of(t: TrackedView) -> UpdateView {
    UpdateView::Discard { id: t.id, revision: t.display_revision }
}

/// The utterances a sweep keeps, in order, and a discard for each one it
/// takes out, in order.
pub open spec fn sweep(us: Seq<TrackedView>, m: Sweep) -> (Seq<TrackedView>, Seq<UpdateView>)
    decreases us.len(),
{
    if us.len() == 0 {
        (seq![], seq![])
    } else {
        let (k, d) = sweep(us.drop_last(), m);
        if leaves(us.last(), m) {
            (k, d.push(discard_of(us.last())))
        } else {
            (k.push(us.last()), d)
        }
    }
}

pub struct TrackerView {
    pub utterances: Seq<TrackedView>,
    pub window_ordinal: u64,
}

/// One decoded window taken in: its usable hypotheses in time order, then
/// stale provisionals withdrawn and old committed utterances forgotten.
pub open spec fn observe_spec(v: TrackerView, w: DecodeWindowView, hs: Seq<HypothesisView>) -> (
    TrackerView,
    Seq<UpdateView>,
) {
    let cur = sat_inc(v.window_ordinal);
    let (u1, ups) = observe_all(
        v.utterances,
        sort_hyps(usable_list(hs, w.start_ms, w.end_ms)),
        w,
        cur,
    );
    let (u2, discards) = sweep(u1, Sweep::Stale { cur, w_end: w.end_ms });
    (
        TrackerView {
            utterances: sweep(u2, Sweep::Expired { w_start: w.start_ms }).0,
            window_ordinal: cur,
        },
        ups + discards,
    )
}

/// Each utterance is tracked once, with times the tracker can compare,
/// last seen no later than the latest window.
pub open spec fn tracked_wf(us: Seq<TrackedView>, ordinal: u64) -> bool {
    &&& forall|i: int, j: int| 0 <= i < j < us.len() ==> us[i].id != us[j].id
    &&& all_in_bounds(us)
    &&& forall|i: int| 0 <= i < us.len() ==> (#[trigger] us[i]).last_seen_window <= ordinal
}

/// Tracks provisional hypotheses by source-time overlap, never by text
/// alone. A stable result becomes a commit candidate; the caller persists
/// it before calling `mark_committed`.
pub struct RevisionTracker {
    utterances: Vec<TrackedUtterance>,
    window_ordinal: u64,
}

impl View for RevisionTracker {
    type V = TrackerView;

    closed spec fn view(&self) -> TrackerView {
        TrackerView { utterances: tracked_view(self.utterances@), window_ordinal: self.window_ordinal }
    }
}

fn utterance_id_exec(window_id: &str, ordinal: usize, start_ms: i64) -> (out: String)
    ensures
        out@ == utterance_id_for(window_id@, ordinal as nat, start_ms),
{
    let mut id = crate::text::copy_string("utt:");
    push_text(&mut id, window_id);
    push_text(&mut id, ":");
    push_u64(&mut id, ordinal as u64);
    push_text(&mut id, ":");
    push_i64(&mut id, start_ms);
    id
}

fn observe_one_exec(
    us: &mut Vec<TrackedUtterance>,
    updates: &mut Vec<TranscriptUpdate>,
    h: &TranscriptHypothesis,
    ordinal: usize,
    window: &DecodeWindow,
    cur: u64,
)
    requires
        tracked_wf(tracked_view(old(us)@), cur),
        hyp_in_bounds(h@),
        -TRACKER_TIME_BOUND <= window.end_ms,
    ensures
        tracked_wf(tracked_view(final(us)@), cur),
        ({
            let (u2, a2) = observe_one(tracked_view(old(us)@), h@, ordinal as nat, window@, cur);
            &&& tracked_view(final(us)@) == u2
            &&& updates_view(final(updates)@) == updates_view(old(updates)@) + a2
        }),
{
    let ghost u0 = tracked_view(us@);
    let ghost before = updates_view(updates@);
    assert(u0.len() == us@.len());
    let id = match best_match_exec(us, h) {
        Some(j) => {
            proof {
                lemma_best_match(u0, h@);
            }
            assert(u0.len() == us@.len());
            assert(u0[j as int] == us@[j as int]@);
            assert(best_match(u0, h@) == Some(j as int));
            let c = us[j].utterance_id.clone();
            assert(c@ == u0[j as int].id);
            c
        },
        None => {
            assert(best_match(u0, h@) is None);
            utterance_id_exec(window.id.as_str(), ordinal, h.start_ms)
        },
    };
    let ghost spec_id = match best_match(u0, h@) {
        Some(j) => u0[j].id,
        None => utterance_id_for(window@.id, ordinal as nat, h@.start_ms),
    };
    assert(id@ == spec_id);
    proof {
        lemma_find_id(u0, id@);
    }
    let idx = match find_id_exec(us, id.as_str()) {
        Some(k) => {
            assert(find_id(u0, id@) == Some(k as int));
            k
        },
        None => {
            let fresh = TrackedUtterance {
                utterance_id: id.clone(),
                display_revision: 1,
                latest: h.clone_hypothesis(),
                stable_windows: 0,
                last_seen_window: 0,
                persisted_revision: 0,
                committed_text: None,
                committed_hypothesis: None,
                candidate_offered_revision: None,
            };
            us.push(fresh);
            assert(tracked_view(us@) =~= u0.push(new_tracked(id@, h@)));
            us.len() - 1
        },
    };
    let ghost u1 = tracked_view(us@);
    assert(match find_id(u0, id@) {
        Some(k) => u1 == u0 && idx == k,
        None => u1 == u0.push(new_tracked(id@, h@)) && idx == u0.len(),
    });
    assert(u1[idx as int] == us@[idx as int]@);
    let t = &us[idx];
    let first = t.last_seen_window == 0;
    let unchanged = hypothesis_equal(&t.latest, h);
    let stable: u8 = if unchanged && t.last_seen_window < cur && t.last_seen_window + 1 == cur {
        if t.stable_windows < u8::MAX {
            t.stable_windows + 1
        } else {
            t.stable_windows
        }
    } else {
        1
    };
    let display: u64 = if unchanged {
        t.display_revision
    } else if t.display_revision < u64::MAX {
        t.display_revision + 1
    } else {
        t.display_revision
    };
    let latest = if unchanged {
        let mut l = t.latest.clone_hypothesis();
        l.confidence_bits = h.confidence_bits;
        l
    } else {
        h.clone_hypothesis()
    };
    let offered0 = if unchanged {
        t.candidate_offered_revision
    } else {
        None
    };
    if !unchanged || first {
        updates.push(
            TranscriptUpdate::Provisional {
                utterance_id: id.clone(),
                revision: display,
                hypothesis: h.clone_hypothesis(),
            },
        );
    }
    let changed_since_commit = match &t.committed_hypothesis {
        Some(c) => !hypothesis_equal(c, h),
        None => true,
    };
    let stable_enough = window.is_final || h.end_ms <= window.end_ms - DECODE_OVERLAP_MS || stable
        >= REQUIRED_STABLE_WINDOWS;
    let already = match offered0 {
        Some(r) => r == display,
        None => false,
    };
    let offer = changed_since_commit && stable_enough && !already;
    if offer {
        updates.push(
            TranscriptUpdate::CommitCandidate {
                utterance_id: id.clone(),
                revision: display,
                expected_persisted_revision: t.persisted_revision,
                hypothesis: h.clone_hypothesis(),
            },
        );
    }
    let t2 = TrackedUtterance {
        utterance_id: t.utterance_id.clone(),
        display_revision: display,
        latest,
        stable_windows: stable,
        last_seen_window: cur,
        persisted_revision: t.persisted_revision,
        committed_text: match &t.committed_text {
            Some(c) => Some(c.clone()),
            None => None,
        },
        committed_hypothesis: match &t.committed_hypothesis {
            Some(c) => Some(c.clone_hypothesis()),
            None => None,
        },
        candidate_offered_revision: if offer {
            Some(display)
        } else {
            offered0
        },
    };
    let ghost t2v = t2@;
    us.set(idx, t2);
    proof {
        let tv = u1[idx as int];
        assert(tv.id == id@);
        let spec_t2 = TrackedView {
            display_revision: display,
            latest: if unchanged {
                HypothesisView { confidence_bits: h@.confidence_bits, ..tv.latest }
            } else {
                h@
            },
            stable_windows: stable,
            last_seen_window: cur,
            offered: if offer {
                Some(display)
            } else {
                offered0
            },
            ..tv
        };
        assert(t2v == spec_t2);
        assert(tracked_view(us@) =~= u1.update(idx as int, t2v));
        let (u2, a2) = observe_one(u0, h@, ordinal as nat, window@, cur);
        assert(tracked_view(us@) == u2);
        assert(updates_view(updates@) =~= before + a2);
        let v = tracked_view(us@);
        assert forall|i: int, j: int| 0 <= i < j < v.len() implies v[i].id != v[j].id by {
            assert(u1[i].id == v[i].id && u1[j].id == v[j].id);
        }
        assert forall|i: int| 0 <= i < v.len() implies hyp_in_bounds(#[trigger] v[i].latest)
            && v[i].last_seen_window <= cur by {
            if i != idx {
                assert(v[i] == u1[i]);
            }
        }
    }
}


pub open spec fn all_usable(hs: Seq<HypothesisView>, w_start: i64, w_end: i64) -> bool {
    forall|k: int| 0 <= k < hs.len() ==> usable(#[trigger] hs[k], w_start, w_end)
}

proof fn lemma_usable_list(hs: Seq<HypothesisView>, w_start: i64, w_end: i64)
    ensures
        all_usable(usable_list(hs, w_start, w_end), w_start, w_end),
    decreases hs.len(),
{
    if hs.len() > 0 {
        lemma_usable_list(hs.drop_last(), w_start, w_end);
    }
}

proof fn lemma_insert_usable(s: Seq<HypothesisView>, x: HypothesisView, w_start: i64, w_end: i64)
    requires
        all_usable(s, w_start, w_end),
        usable(x, w_start, w_end),
    ensures
        all_usable(insert_hyp(s, x), w_start, w_end),
    decreases s.len(),
{
    if s.len() > 0 && !hyp_key_le(s.last(), x) {
        lemma_insert_usable(s.drop_last(), x, w_start, w_end);
        let r = insert_hyp(s.drop_last(), x);
        assert forall|k: int| 0 <= k < r.len() + 1 implies usable(
            #[trigger] r.push(s.last())[k],
            w_start,
            w_end,
        ) by {
            if k < r.len() {
                assert(r.push(s.last())[k] == r[k]);
            }
        }
    }
}

proof fn lemma_sort_usable(s: Seq<HypothesisView>, w_start: i64, w_end: i64)
    requires
        all_usable(s, w_start, w_end),
    ensures
        all_usable(sort_hyps(s), w_start, w_end),
    decreases s.len(),
{
    if s.len() > 0 {
        lemma_sort_usable(s.drop_last(), w_start, w_end);
        lemma_insert_usable(sort_hyps(s.drop_last()), s.last(), w_start, w_end);
    }
}

fn leaves_exec(t: &TrackedUtterance, m: Sweep) -> (res: bool)
    requires
        hyp_in_bounds(t@.latest),
        m matches Sweep::Expired { w_start } ==> w_start >= -TRACKER_TIME_BOUND,
    ensures
        res == leaves(t@, m),
{
    match m {
        Sweep::Stale { cur, w_end } => cur > 0 && t.last_seen_window < cur - 1
            && t.committed_text.is_none() && t.latest.end_ms <= w_end,
        Sweep::Uncommitted => t.committed_text.is_none(),
        Sweep::Expired { w_start } => t.committed_text.is_some() && t.latest.end_ms <= w_start
            - MATCH_TOLERANCE_MS,
    }
}

fn sweep_exec(us: &Vec<TrackedUtterance>, m: Sweep, updates: &mut Vec<TranscriptUpdate>) -> (kept:
    Vec<TrackedUtterance>)
    requires
        all_in_bounds(tracked_view(us@)),
        m matches Sweep::Expired { w_start } ==> w_start >= -TRACKER_TIME_BOUND,
    ensures
        tracked_view(kept@) == sweep(tracked_view(us@), m).0,
        updates_view(final(updates)@) == updates_view(old(updates)@) + sweep(
            tracked_view(us@),
            m,
        ).1,
{
    let ghost u = tracked_view(us@);
    let ghost before = updates_view(updates@);
    let mut kept: Vec<TrackedUtterance> = Vec::new();
    let mut i: usize = 0;
    while i < us.len()
        invariant
            i <= us.len(),
            u == tracked_view(us@),
            all_in_bounds(u),
            m matches Sweep::Expired { w_start } ==> w_start >= -TRACKER_TIME_BOUND,
            tracked_view(kept@) == sweep(u.take(i as int), m).0,
            updates_view(updates@) == before + sweep(u.take(i as int), m).1,
        decreases us.len() - i,
    {
        assert(u.take(i + 1).drop_last() =~= u.take(i as int));
        assert(u.take(i + 1).last() == us@[i as int]@);
        assert(u[i as int] == us@[i as int]@);
        let t = &us[i];
        let ghost k0 = kept@;
        let ghost d0 = updates_view(updates@);
        if leaves_exec(t, m) {
            updates.push(
                TranscriptUpdate::Discard {
                    utterance_id: t.utterance_id.clone(),
                    revision: t.display_revision,
                },
            );
            assert(updates_view(updates@) =~= d0.push(discard_of(t@)));
        } else {
            kept.push(t.clone_tracked());
            assert(tracked_view(kept@) =~= tracked_view(k0).push(t@));
        }
        i += 1;
    }
    assert(u.take(us.len() as int) =~= u);
    kept
}

proof fn lemma_sweep_from(us: Seq<TrackedView>, m: Sweep)
    ensures
        sweep(us, m).0.len() <= us.len(),
        forall|j: int|
            0 <= j < sweep(us, m).0.len() ==> exists|k: int|
                0 <= k < us.len() && #[trigger] sweep(us, m).0[j] == us[k],
    decreases us.len(),
{
    if us.len() > 0 {
        let p = us.drop_last();
        lemma_sweep_from(p, m);
        let k0 = sweep(p, m).0;
        assert forall|j: int| 0 <= j < sweep(us, m).0.len() implies exists|k: int|
            0 <= k < us.len() && #[trigger] sweep(us, m).0[j] == us[k] by {
            if j < k0.len() {
                assert(sweep(us, m).0[j] == k0[j]);
                let k = choose|k: int| 0 <= k < p.len() && k0[j] == p[k];
                assert(p[k] == us[k]);
            } else {
                assert(sweep(us, m).0[j] == us[us.len() - 1]);
            }
        }
    }
}

proof fn lemma_sweep_wf(us: Seq<TrackedView>, m: Sweep, ordinal: u64)
    requires
        tracked_wf(us, ordinal),
    ensures
        tracked_wf(sweep(us, m).0, ordinal),
    decreases us.len(),
{
    if us.len() > 0 {
        let p = us.drop_last();
        assert(tracked_wf(p, ordinal)) by {
            assert forall|i: int| 0 <= i < p.len() implies p[i] == us[i] by {}
        }
        lemma_sweep_wf(p, m, ordinal);
        lemma_sweep_from(p, m);
        let k0 = sweep(p, m).0;
        let r = sweep(us, m).0;
        if !leaves(us.last(), m) {
            assert forall|i: int, j: int| 0 <= i < j < r.len() implies r[i].id != r[j].id by {
                if j == r.len() - 1 {
                    assert(r[i] == k0[i]);
                    let k = choose|k: int| 0 <= k < p.len() && k0[i] == p[k];
                    assert(p[k] == us[k]);
                } else {
                    assert(r[i] == k0[i] && r[j] == k0[j]);
                }
            }
            assert forall|i: int| 0 <= i < r.len() implies hyp_in_bounds(#[trigger] r[i].latest) by {
                if i < k0.len() {
                    assert(r[i] == k0[i]);
                }
            }
            assert forall|i: int| 0 <= i < r.len() implies (#[trigger] r[i]).last_seen_window
                <= ordinal by {
                if i < k0.len() {
                    assert(r[i] == k0[i]);
                }
            }
        }
    }
}

/// A tracked utterance whose current hypothesis is not yet persisted as it
/// stands.
pub open spec fn pending(t: TrackedView) -> bool {
    match t.committed {
        None => true,
        Some(c) => !same_hypothesis(c, t.latest),
    }
}

/// The utterance after a successful commit of `text` at `persisted`.
pub open spec fn committed_as(t: TrackedView, persisted: i64, text: Seq<char>) -> TrackedView {
    TrackedView {
        persisted_revision: persisted,
        committed_text: Some(text),
        committed: Some(HypothesisView { text, ..t.latest }),
        offered: None,
        ..t
    }
}

/// What recording a persisted revision does to the tracked utterances: only
/// the revision right after the utterance's last persisted one is taken.
pub open spec fn commit_spec(
    us: Seq<TrackedView>,
    id: Seq<char>,
    persisted: i64,
    text: Seq<char>,
) -> Result<Seq<TrackedView>, Seq<char>> {
    match find_id(us, id) {
        None => Err("unknown provisional utterance"@),
        Some(k) => if persisted == us[k].persisted_revision + 1 {
            Ok(us.update(k, committed_as(us[k], persisted, text)))
        } else {
            Err("persisted transcript revision is not monotonic"@)
        },
    }
}

impl RevisionTracker {
    pub closed spec fn wf(&self) -> bool {
        tracked_wf(self@.utterances, self@.window_ordinal)
    }

    pub fn new() -> (t: Self)
        ensures
            t.wf(),
            t@.utterances.len() == 0,
            t@.window_ordinal == 0,
    {
        let t = RevisionTracker { utterances: Vec::new(), window_ordinal: 0 };
        assert(tracked_view(t.utterances@) =~= Seq::<TrackedView>::empty());
        t
    }

    /// Takes in one decoded window and its hypotheses; see `observe_spec`.
    pub fn observe(&mut self, window: &DecodeWindow, hypotheses: Vec<TranscriptHypothesis>) -> (updates:
        Vec<TranscriptUpdate>)
        requires
            old(self).wf(),
            -TRACKER_TIME_BOUND <= window.start_ms,
            window.end_ms <= TRACKER_TIME_BOUND,
        ensures
            final(self).wf(),
            (final(self)@, updates_view(updates@)) == observe_spec(
                old(self)@,
                window@,
                hyps_view(hypotheses@),
            ),
    {
        let ghost v0 = self@;
        let cur = if self.window_ordinal < u64::MAX {
            self.window_ordinal + 1
        } else {
            self.window_ordinal
        };
        self.window_ordinal = cur;
        let valid = usable_sorted(&hypotheses, window.start_ms, window.end_ms);
        let ghost hs = hyps_view(valid@);
        proof {
            lemma_usable_list(hyps_view(hypotheses@), window.start_ms, window.end_ms);
            lemma_sort_usable(
                usable_list(hyps_view(hypotheses@), window.start_ms, window.end_ms),
                window.start_ms,
                window.end_ms,
            );
        }
        let mut updates: Vec<TranscriptUpdate> = Vec::new();
        let mut i: usize = 0;
        while i < valid.len()
            invariant
                i <= valid.len(),
                hs == hyps_view(valid@),
                all_usable(hs, window.start_ms, window.end_ms),
                -TRACKER_TIME_BOUND <= window.start_ms,
                window.end_ms <= TRACKER_TIME_BOUND,
                cur == sat_inc(v0.window_ordinal),
                self.window_ordinal == cur,
                tracked_wf(tracked_view(self.utterances@), cur),
                (tracked_view(self.utterances@), updates_view(updates@)) == observe_all(
                    v0.utterances,
                    hs.take(i as int),
                    window@,
                    cur,
                ),
            decreases valid.len() - i,
        {
            assert(hs.take(i + 1).drop_last() =~= hs.take(i as int));
            assert(hs.take(i + 1).last() == valid@[i as int]@);
            assert(usable(hs[i as int], window.start_ms, window.end_ms));
            observe_one_exec(&mut self.utterances, &mut updates, &valid[i], i, window, cur);
            i += 1;
        }
        assert(hs.take(valid.len() as int) =~= hs);
        let ghost u1 = tracked_view(self.utterances@);
        let live = sweep_exec(&self.utterances, Sweep::Stale { cur, w_end: window.end_ms }, &mut updates);
        proof {
            lemma_sweep_wf(u1, Sweep::Stale { cur, w_end: window.end_ms }, cur);
        }
        let mut gone: Vec<TranscriptUpdate> = Vec::new();
        let recent = sweep_exec(&live, Sweep::Expired { w_start: window.start_ms }, &mut gone);
        proof {
            lemma_sweep_wf(tracked_view(live@), Sweep::Expired { w_start: window.start_ms }, cur);
        }
        self.utterances = recent;
        proof {
            let (ua, upa) = observe_all(v0.utterances, hs, window@, cur);
            assert(ua == u1);
            let (ub, d) = sweep(ua, Sweep::Stale { cur, w_end: window.end_ms });
            assert(ub == tracked_view(live@));
            assert(self@.utterances == sweep(ub, Sweep::Expired { w_start: window.start_ms }).0);
            assert(self@.window_ordinal == cur);
            assert(updates_view(updates@) == upa + d);
        }
        updates
    }

    /// Records that revision `persisted_revision` of `utterance_id` was
    /// persisted with `effective_text`. Only the revision right after the
    /// last persisted one is accepted.
    pub fn mark_committed(
        &mut self,
        utterance_id: &str,
        persisted_revision: i64,
        effective_text: &str,
    ) -> (res: Result<(), String>)
        requires
            old(self).wf(),
        ensures
            final(self).wf(),
            final(self)@.window_ordinal == old(self)@.window_ordinal,
            match commit_spec(old(self)@.utterances, utterance_id@, persisted_revision, effective_text@) {
                Ok(u) => res is Ok && final(self)@.utterances == u,
                Err(m) => res is Err && res->Err_0@ == m && final(self)@ == old(self)@,
            },
    {
        let ghost u0 = tracked_view(self.utterances@);
        proof {
            lemma_find_id(u0, utterance_id@);
        }
        let k = match find_id_exec(&self.utterances, utterance_id) {
            Some(k) => k,
            None => {
                return Err(crate::text::copy_string("unknown provisional utterance"));
            },
        };
        assert(u0[k as int] == self.utterances@[k as int]@);
        let t = &self.utterances[k];
        if !(t.persisted_revision < i64::MAX && persisted_revision == t.persisted_revision + 1) {
            return Err(crate::text::copy_string("persisted transcript revision is not monotonic"));
        }
        let mut committed = t.latest.clone_hypothesis();
        committed.text = crate::text::copy_string(effective_text);
        let t2 = TrackedUtterance {
            utterance_id: t.utterance_id.clone(),
            display_revision: t.display_revision,
            latest: t.latest.clone_hypothesis(),
            stable_windows: t.stable_windows,
            last_seen_window: t.last_seen_window,
            persisted_revision,
            committed_text: Some(crate::text::copy_string(effective_text)),
            committed_hypothesis: Some(committed),
            candidate_offered_revision: None,
        };
        assert(t2@ == committed_as(u0[k as int], persisted_revision, effective_text@));
        self.utterances.set(k, t2);
        proof {
            let v = tracked_view(self.utterances@);
            assert(v =~= u0.update(k as int, t2@));
            assert forall|i: int, j: int| 0 <= i < j < v.len() implies v[i].id != v[j].id by {
                assert(u0[i].id == v[i].id && u0[j].id == v[j].id);
            }
            assert forall|i: int| 0 <= i < v.len() implies hyp_in_bounds(#[trigger] v[i].latest)
                && v[i].last_seen_window <= self.window_ordinal by {
                assert(v[i].latest == u0[i].latest);
                assert(v[i].last_seen_window == u0[i].last_seen_window);
            }
        }
        Ok(())
    }

    /// A failed commit attempt: the revision may be offered again.
    pub fn mark_commit_failed(&mut self, utterance_id: &str)
        requires
            old(self).wf(),
        ensures
            final(self).wf(),
            final(self)@.window_ordinal == old(self)@.window_ordinal,
            final(self)@.utterances == match find_id(old(self)@.utterances, utterance_id@) {
                None => old(self)@.utterances,
                Some(k) => old(self)@.utterances.update(
                    k,
                    TrackedView { offered: None, ..old(self)@.utterances[k] },
                ),
            },
    {
        let ghost u0 = tracked_view(self.utterances@);
        proof {
            lemma_find_id(u0, utterance_id@);
        }
        if let Some(k) = find_id_exec(&self.utterances, utterance_id) {
            assert(u0[k as int] == self.utterances@[k as int]@);
            let mut t2 = self.utterances[k].clone_tracked();
            t2.candidate_offered_revision = None;
            let ghost t2v = t2@;
            self.utterances.set(k, t2);
            proof {
                let v = tracked_view(self.utterances@);
                assert(v =~= u0.update(k as int, t2v));
                assert forall|i: int, j: int| 0 <= i < j < v.len() implies v[i].id != v[j].id by {
                    assert(u0[i].id == v[i].id && u0[j].id == v[j].id);
                }
                assert forall|i: int| 0 <= i < v.len() implies hyp_in_bounds(
                    #[trigger] v[i].latest,
                ) && v[i].last_seen_window <= self.window_ordinal by {
                    assert(v[i].latest == u0[i].latest);
                    assert(v[i].last_seen_window == u0[i].last_seen_window);
                }
            }
        }
    }

    /// Withdraws every hypothesis not yet committed, after a gap in the
    /// source or a worker restart; committed ones stay for later matching.
    pub fn discard_uncommitted(&mut self) -> (updates: Vec<TranscriptUpdate>)
        requires
            old(self).wf(),
        ensures
            final(self).wf(),
            final(self)@.window_ordinal == old(self)@.window_ordinal,
            (final(self)@.utterances, updates_view(updates@)) == sweep(
                old(self)@.utterances,
                Sweep::Uncommitted,
            ),
    {
        let mut updates: Vec<TranscriptUpdate> = Vec::new();
        let ghost u0 = tracked_view(self.utterances@);
        let kept = sweep_exec(&self.utterances, Sweep::Uncommitted, &mut updates);
        proof {
            lemma_sweep_wf(u0, Sweep::Uncommitted, self.window_ordinal);
            assert(updates_view(updates@) =~= sweep(u0, Sweep::Uncommitted).1);
        }
        self.utterances = kept;
        updates
    }

    /// Whether some tracked hypothesis is still provisional or waits for a
    /// commit attempt; a source batch cannot be complete while it is.
    pub fn has_pending_revision(&self) -> (res: bool)
        ensures
            res == exists|k: int| 0 <= k < self@.utterances.len() && pending(
                #[trigger] self@.utterances[k],
            ),
    {
        let ghost u = tracked_view(self.utterances@);
        let mut i: usize = 0;
        while i < self.utterances.len()
            invariant
                i <= self.utterances.len(),
                u == tracked_view(self.utterances@),
                forall|k: int| 0 <= k < i ==> !pending(#[trigger] u[k]),
            decreases self.utterances.len() - i,
        {
            let t = &self.utterances[i];
            assert(u[i as int] == t@);
            let p = match &t.committed_hypothesis {
                None => true,
                Some(c) => !hypothesis_equal(c, &t.latest),
            };
            if p {
                assert(pending(self@.utterances[i as int]));
                return true;
            }
            i += 1;
        }
        false
    }

    /// Whether `utterance_id` is still tracked.
    pub fn is_tracking(&self, utterance_id: &str) -> (res: bool)
        ensures
            res == find_id(self@.utterances, utterance_id@) is Some,
    {
        find_id_exec(&self.utterances, utterance_id).is_some()
    }
}

proof fn lemma_find_own_id(us: Seq<TrackedView>, ordinal: u64, j: int)
    requires
        tracked_wf(us, ordinal),
        0 <= j < us.len(),
    ensures
        find_id(us, us[j].id) == Some(j),
{
    lemma_find_id(us, us[j].id);
    if let Some(k) = find_id(us, us[j].id) {
        if k < j {
            assert(us[k].id != us[j].id);
        } else if k > j {
            assert(us[j].id != us[k].id);
        }
    }
}

/// A hypothesis continues a tracked utterance only if the two share source
/// time, start within the matching tolerance and agree on the language:
/// equal text alone never joins them.
pub proof fn law_matching_needs_shared_time(us: Seq<TrackedView>, h: HypothesisView)
    ensures
        best_match(us, h) matches Some(j) ==> {
            &&& 0 <= j < us.len()
            &&& overlap_ms(us[j].latest, h) > 0
            &&& -MATCH_TOLERANCE_MS <= us[j].latest.start_ms - h.start_ms <= MATCH_TOLERANCE_MS
            &&& us[j].latest.language == h.language
        },
{
    lemma_best_match(us, h);
}

/// A sweep loses nothing silently: every utterance it takes out is reported
/// by a discard with its revision, every other one is kept, and none that
/// it keeps is one it should have taken out.
pub proof fn law_sweep_accounts_for_every_utterance(us: Seq<TrackedView>, m: Sweep)
    ensures
        sweep(us, m).0.len() + sweep(us, m).1.len() == us.len(),
        forall|k: int|
            0 <= k < us.len() ==> (if leaves(#[trigger] us[k], m) {
                sweep(us, m).1.contains(discard_of(us[k]))
            } else {
                sweep(us, m).0.contains(us[k])
            }),
        forall|j: int| 0 <= j < sweep(us, m).0.len() ==> !leaves(#[trigger] sweep(us, m).0[j], m),
    decreases us.len(),
{
    if us.len() > 0 {
        let p = us.drop_last();
        law_sweep_accounts_for_every_utterance(p, m);
        let (k0, d0) = sweep(p, m);
        let (k1, d1) = sweep(us, m);
        assert forall|k: int| 0 <= k < us.len() implies (if leaves(#[trigger] us[k], m) {
            d1.contains(discard_of(us[k]))
        } else {
            k1.contains(us[k])
        }) by {
            if k < p.len() {
                assert(us[k] == p[k]);
                if leaves(us[k], m) {
                    let w = choose|w: int| 0 <= w < d0.len() && d0[w] == discard_of(p[k]);
                    if leaves(us.last(), m) {
                        assert(d1[w] == d0[w]);
                    } else {
                        assert(d1 == d0);
                    }
                } else {
                    let w = choose|w: int| 0 <= w < k0.len() && k0[w] == p[k];
                    if leaves(us.last(), m) {
                        assert(k1 == k0);
                    } else {
                        assert(k1[w] == k0[w]);
                    }
                }
            } else {
                if leaves(us.last(), m) {
                    assert(d1[d1.len() - 1] == discard_of(us[k]));
                } else {
                    assert(k1[k1.len() - 1] == us[k]);
                }
            }
        }
        assert forall|j: int| 0 <= j < k1.len() implies !leaves(#[trigger] k1[j], m) by {
            if j < k0.len() {
                assert(k1[j] == k0[j]);
            }
        }
    }
}

/// After `discard_uncommitted` only committed utterances are left.
pub proof fn law_no_provisional_crosses_a_gap(us: Seq<TrackedView>)
    ensures
        forall|j: int|
            0 <= j < sweep(us, Sweep::Uncommitted).0.len() ==> (#[trigger] sweep(
                us,
                Sweep::Uncommitted,
            ).0[j]).committed_text is Some,
{
    law_sweep_accounts_for_every_utterance(us, Sweep::Uncommitted);
}

/// A hypothesis seen before, unchanged, and already persisted as it stands
/// is not reported again: no provisional update and no commit candidate.
pub proof fn law_committed_repeat_is_silent(
    us: Seq<TrackedView>,
    h: HypothesisView,
    ordinal: nat,
    w: DecodeWindowView,
    cur: u64,
    j: int,
)
    requires
        tracked_wf(us, cur),
        best_match(us, h) == Some(j),
        us[j].last_seen_window != 0,
        same_hypothesis(us[j].latest, h),
        us[j].committed matches Some(c) && same_hypothesis(c, h),
    ensures
        observe_one(us, h, ordinal, w, cur).1 == Seq::<UpdateView>::empty(),
{
    lemma_best_match(us, h);
    lemma_find_own_id(us, cur, j);
    assert(observe_one(us, h, ordinal, w, cur).1 =~= Seq::<UpdateView>::empty());
}

/// Seeing an utterance again exactly as it was last seen shows nothing new:
/// no provisional update is sent for it, and its revision and hypothesis
/// stay as they were.
pub proof fn law_an_unchanged_hypothesis_is_not_shown_again(
    us: Seq<TrackedView>,
    h: HypothesisView,
    ordinal: nat,
    w: DecodeWindowView,
    cur: u64,
    j: int,
)
    requires
        tracked_wf(us, cur),
        best_match(us, h) == Some(j),
        us[j].last_seen_window != 0,
        same_hypothesis(us[j].latest, h),
    ensures
        forall|k: int|
            0 <= k < observe_one(us, h, ordinal, w, cur).1.len() ==> !(#[trigger] observe_one(
                us,
                h,
                ordinal,
                w,
                cur,
            ).1[k] is Provisional),
        observe_one(us, h, ordinal, w, cur).0.len() == us.len(),
        observe_one(us, h, ordinal, w, cur).0[j].display_revision == us[j].display_revision,
        same_hypothesis(observe_one(us, h, ordinal, w, cur).0[j].latest, us[j].latest),
{
    lemma_best_match(us, h);
    lemma_find_own_id(us, cur, j);
}

/// A revision is offered for commit at most once: a hypothesis that leaves
/// an utterance unchanged after its current revision was offered brings no
/// second commit candidate, and the utterance stays marked as offered.
pub proof fn law_revision_offered_once(
    us: Seq<TrackedView>,
    h: HypothesisView,
    ordinal: nat,
    w: DecodeWindowView,
    cur: u64,
    j: int,
)
    requires
        tracked_wf(us, cur),
        best_match(us, h) == Some(j),
        same_hypothesis(us[j].latest, h),
        us[j].offered == Some(us[j].display_revision),
    ensures
        forall|k: int|
            0 <= k < observe_one(us, h, ordinal, w, cur).1.len() ==> !(#[trigger] observe_one(
                us,
                h,
                ordinal,
                w,
                cur,
            ).1[k] is CommitCandidate),
        observe_one(us, h, ordinal, w, cur).0[j].offered == Some(us[j].display_revision),
{
    lemma_best_match(us, h);
    lemma_find_own_id(us, cur, j);
}

/// A recorded commit advances the utterance's persisted revision by exactly
/// one and leaves it where it was; recorded with the text of its current
/// hypothesis, the utterance is no longer pending.
pub proof fn law_commit_advances_by_one(
    us: Seq<TrackedView>,
    ordinal: u64,
    id: Seq<char>,
    persisted: i64,
    text: Seq<char>,
)
    requires
        tracked_wf(us, ordinal),
    ensures
        commit_spec(us, id, persisted, text) matches Ok(u) ==> {
            let k = find_id(us, id)->0;
            &&& u.len() == us.len()
            &&& find_id(u, id) == Some(k)
            &&& u[k].persisted_revision == us[k].persisted_revision + 1
            &&& u[k].committed_text == Some(text)
            &&& (text == us[k].latest.text ==> !pending(u[k]))
            &&& forall|j: int| 0 <= j < us.len() && j != k ==> u[j] == us[j]
        },
{
    lemma_find_id(us, id);
    if let Ok(u) = commit_spec(us, id, persisted, text) {
        let k = find_id(us, id)->0;
        assert(tracked_wf(u, ordinal)) by {
            assert forall|i: int, j: int| 0 <= i < j < u.len() implies u[i].id != u[j].id by {
                assert(u[i].id == us[i].id && u[j].id == us[j].id);
            }
            assert forall|i: int| 0 <= i < u.len() implies hyp_in_bounds(#[trigger] u[i].latest)
                && u[i].last_seen_window <= ordinal by {
                assert(u[i].latest == us[i].latest);
            }
        }
        lemma_find_own_id(u, ordinal, k);
    }
}

proof fn lemma_observe_one_no_discard(
    us: Seq<TrackedView>,
    h: HypothesisView,
    ordinal: nat,
    w: DecodeWindowView,
    cur: u64,
)
    ensures
        forall|k: int|
            0 <= k < observe_one(us, h, ordinal, w, cur).1.len() ==> !(#[trigger] observe_one(
                us,
                h,
                ordinal,
                w,
                cur,
            ).1[k] is Discard),
{
}

proof fn lemma_observe_all_no_discard(
    us: Seq<TrackedView>,
    hs: Seq<HypothesisView>,
    w: DecodeWindowView,
    cur: u64,
)
    ensures
        forall|k: int|
            0 <= k < observe_all(us, hs, w, cur).1.len() ==> !(#[trigger] observe_all(
                us,
                hs,
                w,
                cur,
            ).1[k] is Discard),
    decreases hs.len(),
{
    if hs.len() > 0 {
        lemma_observe_all_no_discard(us, hs.drop_last(), w, cur);
        let (u1, a1) = observe_all(us, hs.drop_last(), w, cur);
        lemma_observe_one_no_discard(u1, hs.last(), (hs.len() - 1) as nat, w, cur);
        let a2 = observe_one(u1, hs.last(), (hs.len() - 1) as nat, w, cur).1;
        assert forall|k: int| 0 <= k < a1.len() + a2.len() implies !((a1 + a2)[k] is Discard) by {
            if k < a1.len() {
                assert((a1 + a2)[k] == a1[k]);
            } else {
                assert((a1 + a2)[k] == a2[k - a1.len()]);
            }
        }
    }
}

proof fn lemma_sweep_discards(us: Seq<TrackedView>, m: Sweep)
    ensures
        forall|k: int|
            0 <= k < sweep(us, m).1.len() ==> exists|j: int|
                0 <= j < us.len() && leaves(us[j], m) && #[trigger] sweep(us, m).1[k] == discard_of(
                    us[j],
                ),
    decreases us.len(),
{
    if us.len() > 0 {
        let p = us.drop_last();
        lemma_sweep_discards(p, m);
        let d0 = sweep(p, m).1;
        let d1 = sweep(us, m).1;
        assert forall|k: int| 0 <= k < d1.len() implies exists|j: int|
            0 <= j < us.len() && leaves(us[j], m) && #[trigger] d1[k] == discard_of(us[j]) by {
            if k < d0.len() {
                assert(d1[k] == d0[k]);
                let j = choose|j: int| 0 <= j < p.len() && leaves(p[j], m) && d0[k] == discard_of(p[j]);
                assert(p[j] == us[j]);
            } else {
                assert(d1[k] == discard_of(us[us.len() - 1]));
            }
        }
    }
}

/// Taking in a window withdraws only what was never committed: every
/// discard it reports names an uncommitted utterance, with that
/// utterance's revision, that the last two windows did not see.
pub proof fn law_observe_discards_only_uncommitted(
    v: TrackerView,
    w: DecodeWindowView,
    hs: Seq<HypothesisView>,
)
    ensures
        ({
            let cur = sat_inc(v.window_ordinal);
            let u1 = observe_all(v.utterances, sort_hyps(usable_list(hs, w.start_ms, w.end_ms)), w, cur).0;
            let ups = observe_spec(v, w, hs).1;
            forall|k: int|
                0 <= k < ups.len() && (#[trigger] ups[k]) is Discard ==> exists|j: int|
                    0 <= j < u1.len() && u1[j].committed_text is None && u1[j].last_seen_window + 1
                        < cur && ups[k] == discard_of(u1[j])
        }),
{
    let cur = sat_inc(v.window_ordinal);
    let sorted = sort_hyps(usable_list(hs, w.start_ms, w.end_ms));
    let (u1, a1) = observe_all(v.utterances, sorted, w, cur);
    let m = Sweep::Stale { cur, w_end: w.end_ms };
    let d = sweep(u1, m).1;
    lemma_observe_all_no_discard(v.utterances, sorted, w, cur);
    lemma_sweep_discards(u1, m);
    let ups = observe_spec(v, w, hs).1;
    assert(ups == a1 + d);
    assert forall|k: int| 0 <= k < ups.len() && (#[trigger] ups[k]) is Discard implies exists|j: int|
        0 <= j < u1.len() && u1[j].committed_text is None && u1[j].last_seen_window + 1 < cur
            && ups[k] == discard_of(u1[j]) by {
        if k < a1.len() {
            assert(ups[k] == a1[k]);
        } else {
            assert(ups[k] == d[k - a1.len()]);
            let j = choose|j: int| 0 <= j < u1.len() && leaves(u1[j], m) && d[k - a1.len()] == discard_of(u1[j]);
        }
    }
}

} // verus!
