//! Live capture of a meeting: checking a start request, naming and reading
//! back the capture slices, cutting the sample stream into durable chunks,
//! the session's tally of faults and free space, the per-track coverage and
//! revision bookkeeping (worker replies, commit candidates, commit plans,
//! settling and catch-up), which slices still need text, and the rules for
//! reporting how a capture ended.
//!
//! Audio devices, threads, files, workers and the ledger stay with the
//! caller; the decisions are made here.
use vstd::prelude::*;
use crate::text::{opt_chars, strings_view};
use crate::paths::{join, join_spec, PathStyle};
use crate::text::{
    alphanumeric, chars_of, copy_string, decimal, push_char, push_text, push_u64, signed_decimal,
    string_of, trim, trim_spec,
};

verus! {

/// Length of one legacy capture chunk.
pub const CHUNK_MS: u64 = 8_000;

/// Refuse to start a capture with less free space than this.
pub const MIN_FREE_BYTES_TO_START: u64 = 2_147_483_648;

/// Warn, once, below this while recording.
pub const LOW_DISK_WARN_BYTES: u64 = 1_073_741_824;

/// Stop the session below this, while every chunk can still be closed.
pub const MIN_FREE_BYTES_TO_CONTINUE: u64 = 268_435_456;

pub const CAPTURE_PREFERENCES_FILE: &'static str = "live-capture-preferences.json";

pub const CHANNEL_MIC: &'static str = "mic";

pub const CHANNEL_SYSTEM: &'static str = "system";

/// The disk thresholds are ordered: stopping sits above zero and below the
/// warning, starting demands more headroom than the warning, and more than
/// an hour of two-channel WAV (about 690 MiB).
pub proof fn law_disk_thresholds_are_ordered()
    ensures
        MIN_FREE_BYTES_TO_CONTINUE > 0,
        LOW_DISK_WARN_BYTES > MIN_FREE_BYTES_TO_CONTINUE,
        MIN_FREE_BYTES_TO_START > LOW_DISK_WARN_BYTES,
        MIN_FREE_BYTES_TO_START > 690 * 1024 * 1024,
{
}

// ---------------------------------------------------------------------------
// Devices
// ---------------------------------------------------------------------------

/// Which side of the conversation a capture device records.
#[derive(Clone, Copy, Debug, PartialEq, Eq, Structural)]
pub enum CaptureDeviceKind {
    Mic,
    SystemLoopback,
}

pub open spec fn kind_key(k: CaptureDeviceKind) -> Seq<char> {
    match k {
        CaptureDeviceKind::Mic => "mic"@,
        CaptureDeviceKind::SystemLoopback => "system"@,
    }
}

pub open spec fn kind_label(k: CaptureDeviceKind) -> Seq<char> {
    match k {
        CaptureDeviceKind::Mic => "ไมโครโฟน"@,
        CaptureDeviceKind::SystemLoopback => "เสียงระบบ"@,
    }
}

pub open spec fn kind_missing_message(k: CaptureDeviceKind) -> Seq<char> {
    match k {
        CaptureDeviceKind::Mic => "ไม่พบไมโครโฟนที่พร้อมใช้งาน"@,
        CaptureDeviceKind::SystemLoopback => "ไม่พบอุปกรณ์เสียงออกที่พร้อมใช้สำหรับ loopback"@,
    }
}

impl CaptureDeviceKind {
    /// The channel key the kind records into.
    pub fn key(self) -> (res: &'static str)
        ensures
            res@ == kind_key(self),
    {
        match self {
            CaptureDeviceKind::Mic => "mic",
            CaptureDeviceKind::SystemLoopback => "system",
        }
    }

    /// The kind's name as the user reads it.
    pub fn label(self) -> (res: &'static str)
        ensures
            res@ == kind_label(self),
    {
        match self {
            CaptureDeviceKind::Mic => "ไมโครโฟน",
            CaptureDeviceKind::SystemLoopback => "เสียงระบบ",
        }
    }

    /// What the user is told when no device of the kind is available.
    pub fn missing_message(self) -> (res: &'static str)
        ensures
            res@ == kind_missing_message(self),
    {
        match self {
            CaptureDeviceKind::Mic => "ไม่พบไมโครโฟนที่พร้อมใช้งาน",
            CaptureDeviceKind::SystemLoopback => "ไม่พบอุปกรณ์เสียงออกที่พร้อมใช้สำหรับ loopback",
        }
    }
}

/// Where the chosen capture devices are remembered.
pub fn capture_preferences_path(style: PathStyle, data_root: &str) -> (res: String)
    ensures
        res@ == join_spec(style, data_root@, CAPTURE_PREFERENCES_FILE@),
{
    join(style, data_root, CAPTURE_PREFERENCES_FILE)
}

/// A blank device id means the system default.
pub open spec fn normalized_device_id(value: Option<Seq<char>>) -> Option<Seq<char>> {
    match value {
        Some(v) => if trim_spec(v).len() == 0 {
            None
        } else {
            Some(trim_spec(v))
        },
        None => None,
    }
}

pub fn normalize_device_id(value: Option<String>) -> (res: Option<String>)
    ensures
        match normalized_device_id(
            match value {
                Some(v) => Some(v@),
                None => None,
            },
        ) {
            Some(v) => res matches Some(r) && r@ == v,
            None => res is None,
        },
{
    match value {
        Some(v) => {
            let t = trim(&chars_of(v.as_str()));
            if t.len() == 0 {
                None
            } else {
                Some(string_of(&t))
            }
        },
        None => None,
    }
}

// ---------------------------------------------------------------------------
// Samples
// ---------------------------------------------------------------------------

/// A signed 16-bit sample is already in range.
pub fn sample_i16_to_i16(sample: i16) -> (res: i16)
    ensures
        res == sample,
{
    sample
}

/// An unsigned 16-bit sample re-centred on zero.
pub fn sample_u16_to_i16(sample: u16) -> (res: i16)
    ensures
        res == sample - 32_768,
{
    (sample as i32 - 32_768) as i16
}

// ---------------------------------------------------------------------------
// Reporting
// ---------------------------------------------------------------------------

/// The speaker a project's channel key stands for.
pub open spec fn speaker_id_spec(project_id: Seq<char>, key: Seq<char>) -> Seq<char> {
    project_id + "::speaker::"@ + key
}

pub fn speaker_id_for(project_id: &str, key: &str) -> (res: String)
    ensures
        res@ == speaker_id_spec(project_id@, key@),
{
    let mut out = copy_string(project_id);
    push_text(&mut out, "::speaker::");
    push_text(&mut out, key);
    out
}

/// How a finished capture must be reported: `failure_reason` marks the job
/// failed, `message` is what the user is told.
#[derive(Debug)]
pub struct CaptureOutcome {
    pub failure_reason: Option<String>,
    pub message: String,
}

/// Integer division rounded toward zero, as Rust's `/` computes it.
pub open spec fn div_toward_zero(a: int, b: int) -> int {
    if a >= 0 {
        a / b
    } else {
        -((-a) / b)
    }
}

/// The reason a capture that lost audio fails with.
pub open spec fn lost_reason(lost: nat, faults: nat) -> Seq<char> {
    decimal(lost) + " audio chunk(s) or media interval(s) were lost; "@ + decimal(faults)
        + " audio stream fault(s)"@
}

/// What the user is told about a capture that lost audio.
pub open spec fn lost_message(lost: nat, seconds: int) -> Seq<char> {
    "บันทึกจบแต่ไม่ครบ — เสียงหาย "@ + decimal(lost) + " ช่วง ความยาวที่บันทึกได้ "@
        + signed_decimal(seconds) + " วินาที"@
}

/// What the user is told about a capture that kept all its audio.
pub open spec fn complete_message(seconds: int, faults: nat, pending: nat) -> Seq<char> {
    "บันทึกเสร็จ ความยาว "@ + signed_decimal(seconds) + " วินาที"@ + (if faults > 0 {
        " (พบสตรีมเสียงผิดพลาด "@ + decimal(faults) + " ครั้ง)"@
    } else {
        seq![]
    }) + (if pending > 0 {
        " — ยังถอดความไม่ได้ "@ + decimal(pending) + " ช่วง"@
    } else {
        seq![]
    })
}

/// The truthfulness rule: a capture that lost source audio fails its job
/// and says how much was lost; otherwise it completes, and stream faults
/// and chunks still untranscribed are stated rather than implied away.
pub fn capture_outcome(
    duration_ms: i64,
    lost_chunks: usize,
    stream_faults: usize,
    still_pending: usize,
) -> (res: CaptureOutcome)
    ensures
        lost_chunks > 0 ==> (res.failure_reason matches Some(r) && r@ == lost_reason(
            lost_chunks as nat,
            stream_faults as nat,
        )),
        lost_chunks > 0 ==> res.message@ == lost_message(
            lost_chunks as nat,
            div_toward_zero(duration_ms as int, 1000),
        ),
        lost_chunks == 0 ==> res.failure_reason is None,
        lost_chunks == 0 ==> res.message@ == complete_message(
            div_toward_zero(duration_ms as int, 1000),
            stream_faults as nat,
            still_pending as nat,
        ),
{
    let seconds: i64 = duration_ms / 1000;
    assert(seconds == div_toward_zero(duration_ms as int, 1000));
    if lost_chunks > 0 {
        let mut reason = String::new();
        push_u64(&mut reason, lost_chunks as u64);
        push_text(&mut reason, " audio chunk(s) or media interval(s) were lost; ");
        push_u64(&mut reason, stream_faults as u64);
        push_text(&mut reason, " audio stream fault(s)");
        let mut message = copy_string("บันทึกจบแต่ไม่ครบ — เสียงหาย ");
        push_u64(&mut message, lost_chunks as u64);
        push_text(&mut message, " ช่วง ความยาวที่บันทึกได้ ");
        crate::text::push_i64(&mut message, seconds);
        push_text(&mut message, " วินาที");
        return CaptureOutcome { failure_reason: Some(reason), message };
    }
    let mut message = copy_string("บันทึกเสร็จ ความยาว ");
    crate::text::push_i64(&mut message, seconds);
    push_text(&mut message, " วินาที");
    let ghost base = message@;
    if stream_faults > 0 {
        push_text(&mut message, " (พบสตรีมเสียงผิดพลาด ");
        push_u64(&mut message, stream_faults as u64);
        push_text(&mut message, " ครั้ง)");
    }
    let ghost with_faults = message@;
    if still_pending > 0 {
        push_text(&mut message, " — ยังถอดความไม่ได้ ");
        push_u64(&mut message, still_pending as u64);
        push_text(&mut message, " ช่วง");
    }
    proof {
        let s = div_toward_zero(duration_ms as int, 1000);
        let f = if stream_faults > 0 {
            " (พบสตรีมเสียงผิดพลาด "@ + decimal(stream_faults as nat) + " ครั้ง)"@
        } else {
            Seq::<char>::empty()
        };
        let p = if still_pending > 0 {
            " — ยังถอดความไม่ได้ "@ + decimal(still_pending as nat) + " ช่วง"@
        } else {
            Seq::<char>::empty()
        };
        assert(with_faults =~= base + f);
        assert(message@ =~= with_faults + p);
        assert(complete_message(s, stream_faults as nat, still_pending as nat) =~= base + f + p);
    }
    CaptureOutcome { failure_reason: None, message }
}

/// What filling a recording's transcript gaps achieved; `skipped_reason` is
/// set when the pass declined to run.
#[derive(Debug)]
pub struct GapFillOutcome {
    pub chunks_missing_transcript: usize,
    pub chunks_transcribed: usize,
    pub still_missing: usize,
    pub skipped_reason: Option<String>,
}

impl Default for GapFillOutcome {
    /// A pass that found nothing missing and was not skipped.
    fn default() -> (res: GapFillOutcome)
        ensures
            res.chunks_missing_transcript == 0,
            res.chunks_transcribed == 0,
            res.still_missing == 0,
            res.skipped_reason is None,
    {
        GapFillOutcome {
            chunks_missing_transcript: 0,
            chunks_transcribed: 0,
            still_missing: 0,
            skipped_reason: None,
        }
    }
}

// ---------------------------------------------------------------------------
// Chunk file names
// ---------------------------------------------------------------------------

/// `n` in decimal, padded with leading zeros to at least five digits.
pub open spec fn padded5(n: nat) -> Seq<char> {
    let d = decimal(n);
    if d.len() >= 5 {
        d
    } else {
        Seq::new((5 - d.len()) as nat, |i: int| '0') + d
    }
}

/// `{channel}-{seq:05}.wav`, the name a capture slice is written under.
pub open spec fn chunk_file_name_spec(channel: Seq<char>, seq: nat) -> Seq<char> {
    channel + "-"@ + padded5(seq) + ".wav"@
}

pub fn chunk_file_name(channel: &str, seq: u32) -> (res: String)
    ensures
        res@ == chunk_file_name_spec(channel@, seq as nat),
{
    let mut out = copy_string(channel);
    push_text(&mut out, "-");
    let digits = crate::text::u64_decimal(seq as u64);
    let ghost before = out@;
    let mut k: usize = digits.len();
    while k < 5
        invariant
            digits.len() <= k,
            k <= 5 || k == digits.len(),
            digits@ == decimal(seq as nat),
            out@ == before + Seq::new((k - digits.len()) as nat, |i: int| '0'),
        decreases 5 - k,
    {
        push_char(&mut out, '0');
        k += 1;
        assert(out@ =~= before + Seq::new((k - digits.len()) as nat, |i: int| '0'));
    }
    crate::text::push_all(&mut out, &digits);
    push_text(&mut out, ".wav");
    proof {
        if digits.len() >= 5 {
            assert(Seq::new(0nat, |i: int| '0') + digits@ =~= digits@);
        }
        assert(out@ =~= chunk_file_name_spec(channel@, seq as nat));
    }
    out
}

/// A slice name read back: the channel and ordinal of
/// `{channel}-{ordinal}.wav`.
pub open spec fn parse_chunk_name(name: Seq<char>) -> Option<(Seq<char>, nat)> {
    if !crate::text::ends_with(name, ".wav"@) {
        None
    } else {
        match crate::text::rsplit_once_spec(name.take(name.len() - 4), '-') {
            Some((channel, ordinal)) => match crate::text::parse_unsigned(
                ordinal,
                u32::MAX as nat,
            ) {
                Some(n) => Some((channel, n)),
                None => None,
            },
            None => None,
        }
    }
}

/// A slice's name reads back as the channel and number it was written
/// with.
pub proof fn law_slice_names_read_back(channel: Seq<char>, seq: nat)
    requires
        seq <= u32::MAX,
    ensures
        parse_chunk_name(chunk_file_name_spec(channel, seq)) == Some((channel, seq)),
        chunk_file_name_spec(channel, seq).len() == channel.len() + 1 + padded5(seq).len() + 4,
{
    let digits = padded5(seq);
    let name = chunk_file_name_spec(channel, seq);
    lemma_padded5(seq);
    reveal_strlit(".wav");
    reveal_strlit("-");
    assert(crate::text::ends_with(name, ".wav"@)) by {
        assert(name.skip(name.len() - 4) =~= ".wav"@);
    }
    let stem = name.take(name.len() - 4);
    assert(stem =~= channel + seq!['-'] + digits);
    assert(forall|k: int| channel.len() < k < stem.len() ==> stem[k] != '-') by {
        assert forall|k: int| channel.len() < k < stem.len() implies stem[k] != '-' by {
            assert(stem[k] == digits[k - channel.len() - 1]);
        }
    }
    crate::text::lemma_last_index_unique(stem, '-', channel.len() as int);
    assert(stem.take(channel.len() as int) =~= channel);
    assert(stem.skip(channel.len() as int + 1) =~= digits);
}

/// A mic or system slice written under its number maps back to the
/// channel that wrote it.
pub proof fn law_capture_slices_map_to_their_channel(seq: nat)
    requires
        seq <= u32::MAX,
    ensures
        channel_for_file_name_spec(chunk_file_name_spec(CHANNEL_MIC@, seq)) == Some(CHANNEL_MIC@),
        channel_for_file_name_spec(chunk_file_name_spec(CHANNEL_SYSTEM@, seq)) == Some(
            CHANNEL_SYSTEM@,
        ),
{
    law_slice_names_read_back(CHANNEL_MIC@, seq);
    law_slice_names_read_back(CHANNEL_SYSTEM@, seq);
}

/// Every character of a padded slice number is a digit.
pub proof fn lemma_padded5_digits(n: nat)
    requires
        n <= u32::MAX,
    ensures
        crate::text::all_digits(padded5(n)),
{
    lemma_padded5(n);
}

proof fn lemma_padded5(n: nat)
    requires
        n <= u32::MAX,
    ensures
        padded5(n).len() > 0,
        crate::text::all_digits(padded5(n)),
        padded5(n)[0] != '+',
        crate::text::parse_unsigned(padded5(n), u32::MAX as nat) == Some(n),
{
    crate::text::lemma_decimal_digits(n);
    let d = decimal(n);
    if d.len() < 5 {
        let z = Seq::new((5 - d.len()) as nat, |i: int| '0');
        crate::text::lemma_leading_zeros(z, d);
        assert(padded5(n) == z + d);
        assert forall|k: int| 0 <= k < padded5(n).len() implies crate::text::is_digit(
            #[trigger] padded5(n)[k],
        ) by {
            if k >= z.len() {
                assert(padded5(n)[k] == d[k - z.len()]);
            }
        }
    }
    assert(crate::text::is_digit(padded5(n)[0]));
}

/// The capture channel a slice name belongs to; a name that is not a mic
/// or system slice gives `None` rather than a guess.
pub open spec fn channel_for_file_name_spec(name: Seq<char>) -> Option<Seq<char>> {
    match parse_chunk_name(name) {
        Some((channel, _)) => if channel == CHANNEL_MIC@ {
            Some(CHANNEL_MIC@)
        } else if channel == CHANNEL_SYSTEM@ {
            Some(CHANNEL_SYSTEM@)
        } else {
            None
        },
        None => None,
    }
}

pub fn channel_for_file_name(name: &str) -> (res: Option<&'static str>)
    ensures
        match channel_for_file_name_spec(name@) {
            Some(c) => res matches Some(r) && r@ == c,
            None => res is None,
        },
{
    let n = chars_of(name);
    let wav = chars_of(".wav");
    if !crate::text::has_suffix(&n, &wav) {
        return None;
    }
    assert(wav@.len() == 4) by {
        reveal_strlit(".wav");
    }
    let stem = crate::text::slice_chars(&n, 0, n.len() - 4);
    assert(stem@ =~= n@.take(n@.len() - 4));
    let (channel, ordinal) = match crate::text::rsplit_once(&stem, '-') {
        Some(pair) => pair,
        None => return None,
    };
    if crate::text::parse_u64_upto(&ordinal, u32::MAX as u64).is_none() {
        return None;
    }
    if crate::text::text_is(&channel, CHANNEL_MIC) {
        Some(CHANNEL_MIC)
    } else if crate::text::text_is(&channel, CHANNEL_SYSTEM) {
        Some(CHANNEL_SYSTEM)
    } else {
        None
    }
}

// ---------------------------------------------------------------------------
// Free space
// ---------------------------------------------------------------------------

pub const GIB: u64 = 1_073_741_824;

/// Below this a double holds every whole number exactly.
pub const F64_EXACT_LIMIT: u64 = 9_007_199_254_740_992;

/// The spacing of doubles around `b`: 1 below 2^53, doubling with each
/// further binary digit.
pub open spec fn f64_spacing(b: nat) -> nat
    decreases b,
{
    if b < F64_EXACT_LIMIT {
        1
    } else {
        2 * f64_spacing(b / 2)
    }
}

/// `b` rounded to the nearest double, ties to the even significand, as a
/// conversion of an integer to `f64` rounds.
pub open spec fn f64_round(b: nat) -> nat {
    let unit = f64_spacing(b);
    let q = b / unit;
    let r = b % unit;
    if r * 2 > unit || (r * 2 == unit && q % 2 == 1) {
        (q + 1) * unit
    } else {
        q * unit
    }
}

/// Tenths of a GiB in `bytes`, rounded to nearest with ties to even, as
/// one-decimal formatting rounds.
pub open spec fn gib_tenths(bytes: nat) -> nat {
    let q = (bytes * 10) / (GIB as nat);
    let r = (bytes * 10) % (GIB as nat);
    if r > GIB / 2 || (r == GIB / 2 && q % 2 == 1) {
        q + 1
    } else {
        q
    }
}

/// `bytes` as GiB with one decimal, such as `2.0 GB`: the count is first
/// taken as the double nearest to it, then divided exactly by 2^30.
pub open spec fn human_gib_spec(bytes: nat) -> Seq<char> {
    let t = gib_tenths(f64_round(bytes));
    decimal(t / 10) + "."@ + seq![crate::text::digit_char(t % 10)] + " GB"@
}

proof fn lemma_spacing_step(b: nat, unit: nat)
    requires
        unit > 0,
        b / unit >= F64_EXACT_LIMIT,
    ensures
        (b / unit) / 2 == b / (unit * 2),
        f64_spacing(b / unit) == 2 * f64_spacing((b / unit) / 2),
{
    vstd::arithmetic::div_mod::lemma_div_denominator(b as int, unit as int, 2);
}

proof fn lemma_unit_bound(bytes: nat, unit: nat, t: nat)
    requires
        unit >= 1,
        t == bytes / unit,
        t >= F64_EXACT_LIMIT,
        bytes <= u64::MAX,
    ensures
        unit < 2048,
{
    vstd::arithmetic::div_mod::lemma_fundamental_div_mod(bytes as int, unit as int);
    assert(unit * t <= bytes) by {
        assert(bytes % unit >= 0) by {
            vstd::arithmetic::div_mod::lemma_mod_pos_bound(bytes as int, unit as int);
        }
    }
    assert(unit < 2048) by (nonlinear_arith)
        requires
            unit * t <= bytes,
            t >= F64_EXACT_LIMIT,
            bytes <= u64::MAX,
    ;
}

/// A byte count as GiB with one decimal, for the disk-space messages.
pub fn human_gib(bytes: u64) -> (res: String)
    ensures
        res@ == human_gib_spec(bytes as nat),
{
    let mut unit: u64 = 1;
    let mut t: u64 = bytes;
    while t >= F64_EXACT_LIMIT
        invariant
            1 <= unit <= 4096,
            t == bytes as nat / unit as nat,
            f64_spacing(bytes as nat) == unit * f64_spacing(t as nat),
        decreases t,
    {
        proof {
            lemma_spacing_step(bytes as nat, unit as nat);
            lemma_unit_bound(bytes as nat, unit as nat, t as nat);
            let x = f64_spacing((t / 2) as nat);
            assert(unit * (2 * x) == (unit * 2) * x) by (nonlinear_arith);
        }
        t = t / 2;
        unit = unit * 2;
    }
    let q: u64 = bytes / unit;
    let rem: u64 = bytes % unit;
    let up = rem * 2 > unit || (rem * 2 == unit && q % 2 == 1);
    assert(f64_spacing(t as nat) == 1);
    assert(f64_spacing(bytes as nat) == unit) by (nonlinear_arith)
        requires
            f64_spacing(bytes as nat) == unit * f64_spacing(t as nat),
            f64_spacing(t as nat) == 1,
    ;
    assert((q as int + 1) * (unit as int) <= 0x1_0000_0000_0000_0000 * 4096) by (nonlinear_arith)
        requires
            q <= u64::MAX,
            unit <= 4096,
    ;
    assert((q as int) * (unit as int) <= (q as int + 1) * (unit as int)) by (nonlinear_arith)
        requires
            unit >= 1,
    ;
    let rounded: u128 = if up {
        (q as u128 + 1) * (unit as u128)
    } else {
        (q as u128) * (unit as u128)
    };
    assert(rounded == f64_round(bytes as nat));
    let scaled: u128 = rounded * 10;
    let gib: u128 = GIB as u128;
    let tq: u128 = scaled / gib;
    let tr: u128 = scaled % gib;
    let tenths: u128 = if tr > gib / 2 || (tr == gib / 2 && tq % 2 == 1) {
        tq + 1
    } else {
        tq
    };
    assert(tenths == gib_tenths(rounded as nat));
    assert(tenths / 10 <= u64::MAX) by (nonlinear_arith)
        requires
            rounded <= 0x1_0000_0000_0000_0000 * 4096,
            scaled == rounded * 10,
            tq == scaled / gib,
            gib == 1_073_741_824,
            tenths <= tq + 1,
    ;
    let whole: u64 = (tenths / 10) as u64;
    let digit: u64 = (tenths % 10) as u64;
    let mut out = String::new();
    push_u64(&mut out, whole);
    push_text(&mut out, ".");
    let d = crate::text::u64_decimal(digit);
    assert(d@ == seq![crate::text::digit_char(digit as nat)]);
    crate::text::push_all(&mut out, &d);
    push_text(&mut out, " GB");
    out
}

// ---------------------------------------------------------------------------
// Windows and detailed transcripts
// ---------------------------------------------------------------------------

/// The fragment ids of a window whose clipped range meets `[start, end)`.
pub open spec fn coverage_spec(frags: Seq<crate::live_transcript::WindowFragment>, start: i64, end: i64) -> Seq<
    Seq<char>,
>
    decreases frags.len(),
{
    if frags.len() == 0 {
        seq![]
    } else {
        let f = frags.last();
        if f.clip_start_ms < end && start < f.clip_end_ms {
            coverage_spec(frags.drop_last(), start, end).push(f.id@)
        } else {
            coverage_spec(frags.drop_last(), start, end)
        }
    }
}

/// The audio a decoded range came from: the window's fragments it touches.
pub fn window_coverage_for_range(
    window: &crate::live_transcript::DecodeWindow,
    start_ms: i64,
    end_ms: i64,
) -> (res: Vec<String>)
    ensures
        strings_view(res@) == coverage_spec(window.fragments@, start_ms, end_ms),
{
    let frags = &window.fragments;
    let mut out: Vec<String> = Vec::new();
    let mut i: usize = 0;
    while i < frags.len()
        invariant
            i <= frags.len(),
            strings_view(out@) == coverage_spec(frags@.take(i as int), start_ms, end_ms),
        decreases frags.len() - i,
    {
        assert(frags@.take(i + 1).drop_last() =~= frags@.take(i as int));
        assert(frags@.take(i + 1).last() == frags@[i as int]);
        let f = &frags[i];
        if f.clip_start_ms < end_ms && start_ms < f.clip_end_ms {
            let ghost before = out@;
            out.push(f.id.clone());
            assert(strings_view(out@) =~= strings_view(before).push(f.id@));
        }
        i += 1;
    }
    assert(frags@.take(frags.len() as int) =~= frags@);
    out
}

/// A transcript segment a detailed candidate may replace.
#[derive(Debug)]
pub struct DetailedSourceSegment {
    pub id: String,
    pub speaker_id: Option<String>,
    pub start_ms: i64,
    pub end_ms: i64,
    pub text: String,
    pub updated_at: String,
    pub expected_revision: Option<i64>,
}

/// The segment shares time with `[start, end)`.
pub open spec fn seg_overlaps(seg: DetailedSourceSegment, start: i64, end: i64) -> bool {
    (if end <= seg.end_ms { end } else { seg.end_ms }) - (if start >= seg.start_ms {
        start
    } else {
        seg.start_ms
    }) > 0
}

pub open spec fn seg_speaker_is(seg: DetailedSourceSegment, speaker: Seq<char>) -> bool {
    match seg.speaker_id {
        Some(s) => s@ == speaker,
        None => false,
    }
}

/// Positions of the segments overlapping `[start, end)`, in order.
pub open spec fn overlapping_idx(segs: Seq<DetailedSourceSegment>, start: i64, end: i64) -> Seq<int>
    decreases segs.len(),
{
    if segs.len() == 0 {
        seq![]
    } else if seg_overlaps(segs.last(), start, end) {
        overlapping_idx(segs.drop_last(), start, end).push(segs.len() - 1)
    } else {
        overlapping_idx(segs.drop_last(), start, end)
    }
}

/// Positions of the overlapping segments attributed to `speaker`.
pub open spec fn speaker_idx(
    segs: Seq<DetailedSourceSegment>,
    start: i64,
    end: i64,
    speaker: Seq<char>,
) -> Seq<int>
    decreases segs.len(),
{
    if segs.len() == 0 {
        seq![]
    } else if seg_overlaps(segs.last(), start, end) && seg_speaker_is(segs.last(), speaker) {
        speaker_idx(segs.drop_last(), start, end, speaker).push(segs.len() - 1)
    } else {
        speaker_idx(segs.drop_last(), start, end, speaker)
    }
}

/// The one segment a candidate over `[start, end)` aligns with: the sole
/// overlapping segment of the expected speaker, or, when none carries that
/// speaker, a sole overlapping segment with no speaker at all; without an
/// expected speaker, the sole overlapping segment. Anything ambiguous
/// aligns with nothing.
pub open spec fn unique_match_spec(
    segs: Seq<DetailedSourceSegment>,
    start: i64,
    end: i64,
    speaker: Option<Seq<char>>,
) -> Option<int> {
    let ov = overlapping_idx(segs, start, end);
    match speaker {
        Some(sp) => {
            let ex = speaker_idx(segs, start, end, sp);
            if ex.len() == 1 {
                Some(ex[0])
            } else if ex.len() == 0 && ov.len() == 1 && segs[ov[0]].speaker_id is None {
                Some(ov[0])
            } else {
                None
            }
        },
        None => if ov.len() == 1 {
            Some(ov[0])
        } else {
            None
        },
    }
}

/// The overlap of every segment with `[start, end)` is computed in `i64`.
pub open spec fn overlaps_fit(segs: Seq<DetailedSourceSegment>, start: i64, end: i64) -> bool {
    forall|i: int|
        0 <= i < segs.len() ==> {
            let lo = if start >= (#[trigger] segs[i]).start_ms {
                start
            } else {
                segs[i].start_ms
            };
            let hi = if end <= segs[i].end_ms {
                end
            } else {
                segs[i].end_ms
            };
            i64::MIN <= hi - lo <= i64::MAX
        }
}

proof fn lemma_idx_in_range(segs: Seq<DetailedSourceSegment>, start: i64, end: i64, sp: Seq<char>)
    ensures
        forall|k: int|
            0 <= k < overlapping_idx(segs, start, end).len() ==> 0 <= #[trigger] overlapping_idx(
                segs,
                start,
                end,
            )[k] < segs.len(),
        forall|k: int|
            0 <= k < speaker_idx(segs, start, end, sp).len() ==> 0 <= #[trigger] speaker_idx(
                segs,
                start,
                end,
                sp,
            )[k] < segs.len(),
    decreases segs.len(),
{
    if segs.len() > 0 {
        lemma_idx_in_range(segs.drop_last(), start, end, sp);
        let p = overlapping_idx(segs.drop_last(), start, end);
        let q = speaker_idx(segs.drop_last(), start, end, sp);
        assert forall|k: int|
            0 <= k < overlapping_idx(segs, start, end).len() implies 0
                <= #[trigger] overlapping_idx(segs, start, end)[k] < segs.len() by {
            if k < p.len() {
                assert(overlapping_idx(segs, start, end)[k] == p[k]);
            }
        }
        assert forall|k: int|
            0 <= k < speaker_idx(segs, start, end, sp).len() implies 0 <= #[trigger] speaker_idx(
                segs,
                start,
                end,
                sp,
            )[k] < segs.len() by {
            if k < q.len() {
                assert(speaker_idx(segs, start, end, sp)[k] == q[k]);
            }
        }
    }
}

fn speaker_matches(seg: &DetailedSourceSegment, speaker: &str) -> (res: bool)
    ensures
        res == seg_speaker_is(*seg, speaker@),
{
    match &seg.speaker_id {
        Some(s) => crate::text::str_eq(s.as_str(), speaker),
        None => false,
    }
}

/// Finds the one source segment a detailed candidate over `[start, end)`
/// replaces, if the evidence is unambiguous.
pub fn unique_detailed_segment_match<'a>(
    segments: &'a [DetailedSourceSegment],
    start_ms: i64,
    end_ms: i64,
    expected_speaker: Option<&str>,
) -> (res: Option<&'a DetailedSourceSegment>)
    requires
        overlaps_fit(segments@, start_ms, end_ms),
    ensures
        match unique_match_spec(
            segments@,
            start_ms,
            end_ms,
            match expected_speaker {
                Some(s) => Some(s@),
                None => None,
            },
        ) {
            Some(i) => res matches Some(r) && *r == segments@[i],
            None => res is None,
        },
{
    let ghost sp = match expected_speaker {
        Some(s) => s@,
        None => Seq::<char>::empty(),
    };
    let mut overlapping: Vec<usize> = Vec::new();
    let mut exact: Vec<usize> = Vec::new();
    let mut i: usize = 0;
    while i < segments.len()
        invariant
            i <= segments.len(),
            overlaps_fit(segments@, start_ms, end_ms),
            overlapping@.map_values(|k: usize| k as int) == overlapping_idx(
                segments@.take(i as int),
                start_ms,
                end_ms,
            ),
            expected_speaker matches Some(s) ==> s@ == sp,
            expected_speaker is Some ==> exact@.map_values(|k: usize| k as int) == speaker_idx(
                segments@.take(i as int),
                start_ms,
                end_ms,
                sp,
            ),
        decreases segments.len() - i,
    {
        let ghost t = segments@.take(i + 1);
        assert(t.drop_last() =~= segments@.take(i as int));
        assert(t.last() == segments@[i as int]);
        let seg = &segments[i];
        assert(segments@[i as int] == *seg);
        let lo = if start_ms >= seg.start_ms {
            start_ms
        } else {
            seg.start_ms
        };
        let hi = if end_ms <= seg.end_ms {
            end_ms
        } else {
            seg.end_ms
        };
        if hi - lo > 0 {
            let ghost before = overlapping@;
            overlapping.push(i);
            assert(overlapping@.map_values(|k: usize| k as int) =~= before.map_values(
                |k: usize| k as int,
            ).push(i as int));
            let is_exact = match expected_speaker {
                Some(speaker) => speaker_matches(seg, speaker),
                None => false,
            };
            if is_exact {
                let ghost before_e = exact@;
                exact.push(i);
                assert(exact@.map_values(|k: usize| k as int) =~= before_e.map_values(
                    |k: usize| k as int,
                ).push(i as int));
            }
        }
        i += 1;
    }
    assert(segments@.take(segments.len() as int) =~= segments@);
    proof {
        lemma_idx_in_range(segments@, start_ms, end_ms, sp);
    }
    let ghost ov = overlapping_idx(segments@, start_ms, end_ms);
    match expected_speaker {
        Some(_) => {
            if exact.len() == 1 {
                assert(exact@.map_values(|k: usize| k as int)[0] == exact@[0] as int);
                return Some(&segments[exact[0]]);
            }
            if exact.len() == 0 && overlapping.len() == 1 {
                assert(overlapping@.map_values(|k: usize| k as int)[0] == overlapping@[0] as int);
                let only = &segments[overlapping[0]];
                if only.speaker_id.is_none() {
                    return Some(only);
                }
            }
            None
        },
        None => {
            if overlapping.len() == 1 {
                assert(overlapping@.map_values(|k: usize| k as int)[0] == overlapping@[0] as int);
                Some(&segments[overlapping[0]])
            } else {
                None
            }
        },
    }
}

/// A candidate appended to the text joined so far: trimmed, skipped when
/// empty, and set off by a space only where two word characters meet and
/// one of them is ASCII, so English keeps its word boundaries and Thai is
/// not split.
pub open spec fn join_step(joined: Seq<char>, candidate: Seq<char>) -> Seq<char> {
    let c = trim_spec(candidate);
    if c.len() == 0 {
        joined
    } else {
        let word_boundary = joined.len() > 0 && alphanumeric(joined.last()) && alphanumeric(c[0]);
        let ascii_boundary = (joined.len() > 0 && (joined.last() as u32) < 128) || (c[0] as u32)
            < 128;
        if word_boundary && ascii_boundary {
            joined + seq![' '] + c
        } else {
            joined + c
        }
    }
}

pub open spec fn join_candidates_spec(candidates: Seq<Seq<char>>) -> Seq<char>
    decreases candidates.len(),
{
    if candidates.len() == 0 {
        seq![]
    } else {
        join_step(join_candidates_spec(candidates.drop_last()), candidates.last())
    }
}

/// Joins detailed-transcript candidate texts into one.
pub fn join_detailed_candidate_texts(candidates: Vec<String>) -> (res: String)
    ensures
        res@ == join_candidates_spec(strings_view(candidates@)),
{
    let ghost cs = strings_view(candidates@);
    let mut joined: Vec<char> = Vec::new();
    let mut i: usize = 0;
    while i < candidates.len()
        invariant
            i <= candidates.len(),
            cs == strings_view(candidates@),
            joined@ == join_candidates_spec(cs.take(i as int)),
        decreases candidates.len() - i,
    {
        assert(cs.take(i + 1).drop_last() =~= cs.take(i as int));
        assert(cs.take(i + 1).last() == candidates@[i as int]@);
        let c = trim(&chars_of(candidates[i].as_str()));
        if c.len() > 0 {
            let first = c[0];
            let word_boundary = joined.len() > 0 && crate::text::is_alphanumeric(
                joined[joined.len() - 1],
            ) && crate::text::is_alphanumeric(first);
            let ascii_boundary = (joined.len() > 0 && (joined[joined.len() - 1] as u32) < 128) || (
            first as u32) < 128;
            let ghost before = joined@;
            if word_boundary && ascii_boundary {
                joined.push(' ');
            }
            let ghost mid = joined@;
            let mut k: usize = 0;
            while k < c.len()
                invariant
                    k <= c.len(),
                    joined@ == mid + c@.take(k as int),
                decreases c.len() - k,
            {
                joined.push(c[k]);
                k += 1;
                assert(joined@ =~= mid + c@.take(k as int));
            }
            assert(c@.take(c.len() as int) =~= c@);
            proof {
                if before.len() > 0 {
                    assert(before.last() == before[before.len() - 1]);
                }
                if word_boundary && ascii_boundary {
                    assert(mid =~= before + seq![' ']);
                } else {
                    assert(mid =~= before);
                }
            }
        }
        i += 1;
    }
    assert(cs.take(candidates.len() as int) =~= cs);
    string_of(&joined)
}

/// Joining one more candidate: a candidate that is blank once trimmed adds
/// nothing; onto nothing joined yet, its trimmed text is the whole result;
/// otherwise its trimmed text is appended, set off by exactly one space when
/// the last character so far and the candidate's first are both
/// alphanumeric and at least one of the two, on either side of the
/// boundary, is ASCII, and glued on otherwise.
pub proof fn law_joining_spaces_words_when_either_side_is_ascii(
    candidates: Seq<Seq<char>>,
    next: Seq<char>,
)
    ensures
        ({
            let j = join_candidates_spec(candidates);
            let t = trim_spec(next);
            let joined = join_candidates_spec(candidates.push(next));
            &&& t.len() == 0 ==> joined == j
            &&& (j.len() == 0 && t.len() > 0) ==> joined == t
            &&& (j.len() > 0 && t.len() > 0 && alphanumeric(j.last()) && alphanumeric(t[0]) && ((j.last() as u32)
                < 128 || (t[0] as u32) < 128)) ==> joined == j + seq![' '] + t
            &&& (j.len() > 0 && t.len() > 0 && !(alphanumeric(j.last()) && alphanumeric(t[0]) && ((j.last() as u32)
                < 128 || (t[0] as u32) < 128))) ==> joined == j + t
        }),
{
    assert(candidates.push(next).drop_last() =~= candidates);
    let j = join_candidates_spec(candidates);
    if j.len() == 0 {
        assert(j + trim_spec(next) =~= trim_spec(next));
    }
}

/// The first candidate that is not blank starts the joined text as it is,
/// trimmed: nothing is put before it.
pub proof fn law_the_first_candidate_is_taken_trimmed(first: Seq<char>)
    ensures
        join_candidates_spec(seq![first]) == trim_spec(first),
{
    let one = seq![first];
    assert(one.drop_last() =~= Seq::<Seq<char>>::empty());
    assert(join_candidates_spec(one.drop_last()) == Seq::<char>::empty());
    assert(one.last() == first);
    let t = trim_spec(first);
    if t.len() == 0 {
        assert(t =~= Seq::<char>::empty());
    } else {
        assert(Seq::<char>::empty() + t =~= t);
    }
}

/// Two non-blank candidates whose meeting characters are both alphanumeric,
/// one of them ASCII (whichever side it is on), are joined with one space
/// between them; when neither is ASCII, as between two Thai words, they are
/// joined with none.
pub proof fn law_two_words_meet_with_a_space_only_across_ascii(a: Seq<char>, b: Seq<char>)
    requires
        trim_spec(a).len() > 0,
        trim_spec(b).len() > 0,
        alphanumeric(trim_spec(a).last()),
        alphanumeric(trim_spec(b)[0]),
    ensures
        ((trim_spec(a).last() as u32) < 128 || (trim_spec(b)[0] as u32) < 128) ==> join_candidates_spec(
            seq![a, b],
        ) == trim_spec(a) + seq![' '] + trim_spec(b),
        ((trim_spec(a).last() as u32) >= 128 && (trim_spec(b)[0] as u32) >= 128) ==> join_candidates_spec(
            seq![a, b],
        ) == trim_spec(a) + trim_spec(b),
{
    law_the_first_candidate_is_taken_trimmed(a);
    assert(seq![a, b] =~= seq![a].push(b));
    law_joining_spaces_words_when_either_side_is_ascii(seq![a], b);
}

// ---------------------------------------------------------------------------
// Device ids
// ---------------------------------------------------------------------------

/// The SHA-256 digest `sha2` computes for `bytes`.
pub uninterp spec fn sha256(bytes: Seq<u8>) -> Seq<u8>;

/// SHA-256 of `bytes` (`sha2::Sha256::digest`): the digest is named by the
/// input and is 32 bytes long.
#[verifier::external_body]
pub(crate) fn sha256_digest(bytes: &Vec<u8>) -> (out: Vec<u8>)
    ensures
        out@ == sha256(bytes@),
        out@.len() == 32,
{
    <sha2::Sha256 as sha2::Digest>::digest(bytes).to_vec()
}

/// `n` as `count` little-endian bytes.
pub open spec fn le_bytes(n: nat, count: nat) -> Seq<u8>
    decreases count,
{
    if count == 0 {
        seq![]
    } else {
        seq![(n % 256) as u8] + le_bytes(n / 256, (count - 1) as nat)
    }
}

pub open spec fn hex_digit(d: nat) -> char {
    if d < 10 {
        (48 + d) as char
    } else {
        (87 + d) as char
    }
}

/// Bytes as lower-case hexadecimal, two digits each.
pub open spec fn lower_hex(b: Seq<u8>) -> Seq<char>
    decreases b.len(),
{
    if b.len() == 0 {
        seq![]
    } else {
        lower_hex(b.drop_last()) + seq![hex_digit((b.last() / 16) as nat), hex_digit((b.last() % 16) as nat)]
    }
}

/// What a device id hashes: the kind's key, a zero byte, the device name's
/// UTF-8, a zero byte, and the device's ordinal among devices of that name
/// as a native little-endian `usize`.
pub open spec fn device_id_input(k: CaptureDeviceKind, name: Seq<char>, ordinal: nat) -> Seq<u8> {
    vstd::utf8::encode_utf8(kind_key(k)) + seq![0u8] + vstd::utf8::encode_utf8(name) + seq![0u8]
        + le_bytes(ordinal, (usize::BITS / 8) as nat)
}

/// `{key}-{sha256 in hex}`: stable across launches for the same device.
pub open spec fn device_id_spec(k: CaptureDeviceKind, name: Seq<char>, ordinal: nat) -> Seq<char> {
    kind_key(k) + "-"@ + lower_hex(sha256(device_id_input(k, name, ordinal)))
}

pub(crate) fn push_bytes(out: &mut Vec<u8>, bytes: &[u8])
    ensures
        final(out)@ == old(out)@ + bytes@,
{
    let ghost start = out@;
    let mut i: usize = 0;
    while i < bytes.len()
        invariant
            i <= bytes.len(),
            out@ == start + bytes@.take(i as int),
        decreases bytes.len() - i,
    {
        out.push(bytes[i]);
        i += 1;
        assert(out@ =~= start + bytes@.take(i as int));
    }
    assert(bytes@.take(bytes.len() as int) =~= bytes@);
}

fn hex_char(d: u8) -> (c: char)
    requires
        d < 16,
    ensures
        c == hex_digit(d as nat),
{
    if d < 10 {
        (48 + d) as char
    } else {
        (87 + d) as char
    }
}

/// The id a device is listed under.
pub fn capture_device_id(kind: CaptureDeviceKind, name: &str, ordinal: usize) -> (res: String)
    ensures
        res@ == device_id_spec(kind, name@, ordinal as nat),
{
    let mut input: Vec<u8> = Vec::new();
    push_bytes(&mut input, kind.key().as_bytes());
    input.push(0);
    push_bytes(&mut input, name.as_bytes());
    input.push(0);
    let ghost head = input@;
    let count: u32 = usize::BITS / 8;
    let mut v: usize = ordinal;
    let mut k: u32 = 0;
    while k < count
        invariant
            k <= count,
            count == usize::BITS / 8,
            input@ + le_bytes(v as nat, (count - k) as nat) == head + le_bytes(
                ordinal as nat,
                count as nat,
            ),
        decreases count - k,
    {
        let ghost before = input@;
        let ghost old_v = v;
        input.push((v % 256) as u8);
        v = v / 256;
        k += 1;
        assert(le_bytes(old_v as nat, (count - k + 1) as nat) =~= seq![(old_v % 256) as u8]
            + le_bytes(v as nat, (count - k) as nat));
        assert(input@ + le_bytes(v as nat, (count - k) as nat) =~= before + le_bytes(
            old_v as nat,
            (count - k + 1) as nat,
        ));
    }
    assert(le_bytes(v as nat, 0) =~= Seq::<u8>::empty());
    assert(input@ =~= device_id_input(kind, name@, ordinal as nat));
    let digest = sha256_digest(&input);
    let mut out = copy_string(kind.key());
    push_text(&mut out, "-");
    let hex = hex_of(&digest);
    crate::text::push_all(&mut out, &hex);
    out
}

pub(crate) fn hex_of(digest: &Vec<u8>) -> (hex: Vec<char>)
    ensures
        hex@ == lower_hex(digest@),
{
    let mut hex: Vec<char> = Vec::new();
    let mut i: usize = 0;
    while i < digest.len()
        invariant
            i <= digest.len(),
            hex@ == lower_hex(digest@.take(i as int)),
        decreases digest.len() - i,
    {
        assert(digest@.take(i + 1).drop_last() =~= digest@.take(i as int));
        let b = digest[i];
        hex.push(hex_char(b / 16));
        hex.push(hex_char(b % 16));
        i += 1;
        assert(hex@ =~= lower_hex(digest@.take(i as int)));
    }
    assert(digest@.take(digest.len() as int) =~= digest@);
    hex
}

/// The size and checksum a written slice is recorded with: its length in
/// bytes and the SHA-256 of its bytes in lower-case hexadecimal.
pub fn slice_checksum(bytes: &Vec<u8>) -> (res: (i64, String))
    requires
        bytes@.len() <= i64::MAX,
    ensures
        res.0 == bytes@.len(),
        res.1@ == lower_hex(sha256(bytes@)),
{
    let digest = sha256_digest(bytes);
    let hex = hex_of(&digest);
    (bytes.len() as i64, string_of(&hex))
}

/// How many times `x` occurs in `s`.
pub open spec fn count_eq(s: Seq<Seq<char>>, x: Seq<char>) -> nat
    decreases s.len(),
{
    if s.len() == 0 {
        0
    } else {
        count_eq(s.drop_last(), x) + if s.last() == x {
            1nat
        } else {
            0nat
        }
    }
}

/// The ids of enumerated devices: each named device numbered among the
/// earlier devices with the same name.
pub open spec fn device_ids_spec(k: CaptureDeviceKind, names: Seq<Seq<char>>) -> Seq<Seq<char>> {
    Seq::new(names.len(), |i: int| device_id_spec(k, names[i], count_eq(names.take(i), names[i])))
}

/// The ids of the devices of one kind, listed in enumeration order.
pub fn device_ids(kind: CaptureDeviceKind, names: &Vec<String>) -> (res: Vec<String>)
    ensures
        strings_view(res@) == device_ids_spec(kind, strings_view(names@)),
{
    let ghost ns = strings_view(names@);
    let mut out: Vec<String> = Vec::new();
    let mut i: usize = 0;
    while i < names.len()
        invariant
            i <= names.len(),
            ns == strings_view(names@),
            strings_view(out@) == device_ids_spec(kind, ns).take(i as int),
        decreases names.len() - i,
    {
        let mut ordinal: usize = 0;
        let mut j: usize = 0;
        while j < i
            invariant
                j <= i < names.len(),
                ns == strings_view(names@),
                ordinal == count_eq(ns.take(j as int), ns[i as int]),
                ordinal <= j,
            decreases i - j,
        {
            assert(ns.take(j + 1).drop_last() =~= ns.take(j as int));
            assert(ns[j as int] == names@[j as int]@ && ns[i as int] == names@[i as int]@);
            if names[j] == names[i] {
                ordinal += 1;
            }
            j += 1;
        }
        let id = capture_device_id(kind, names[i].as_str(), ordinal);
        let ghost before = out@;
        out.push(id);
        assert(ns[i as int] == names@[i as int]@);
        assert(strings_view(out@) =~= strings_view(before).push(id@));
        assert(strings_view(out@) =~= device_ids_spec(kind, ns).take(i + 1));
        i += 1;
    }
    assert(device_ids_spec(kind, ns).take(names.len() as int) =~= device_ids_spec(kind, ns));
    out
}

/// The sentence for a chosen device that is no longer there.
pub open spec fn device_unavailable(k: CaptureDeviceKind) -> Seq<char> {
    "อุปกรณ์"@ + kind_label(k) + "ที่เลือกไม่พร้อมใช้งาน — รีเฟรชรายการแล้วเลือกใหม่"@
}

/// Whether a requested device can be used: no request means the system
/// default; a request must name a device of the enumeration (whose failure
/// is reported as it came).
pub open spec fn validate_spec(
    k: CaptureDeviceKind,
    requested: Option<Seq<char>>,
    enumerated: Result<Seq<Seq<char>>, Seq<char>>,
) -> Result<(), Seq<char>> {
    match requested {
        None => Ok(()),
        Some(id) => match enumerated {
            Err(e) => Err(e),
            Ok(names) => if device_ids_spec(k, names).contains(id) {
                Ok(())
            } else {
                Err(device_unavailable(k))
            },
        },
    }
}

/// Checks a requested capture device against the devices enumerated for
/// its kind.
pub fn validate_requested_device(
    kind: CaptureDeviceKind,
    requested_id: Option<&str>,
    enumerated: &Result<Vec<String>, String>,
) -> (res: Result<(), String>)
    ensures
        match validate_spec(
            kind,
            match requested_id {
                Some(r) => Some(r@),
                None => None,
            },
            match enumerated {
                Ok(v) => Ok(strings_view(v@)),
                Err(e) => Err(e@),
            },
        ) {
            Ok(()) => res is Ok,
            Err(e) => res matches Err(r) && r@ == e,
        },
{
    let requested = match requested_id {
        Some(r) => r,
        None => return Ok(()),
    };
    let names = match enumerated {
        Ok(names) => names,
        Err(e) => return Err(e.clone()),
    };
    let ids = device_ids(kind, names);
    let mut i: usize = 0;
    while i < ids.len()
        invariant
            i <= ids.len(),
            strings_view(ids@) == device_ids_spec(kind, strings_view(names@)),
            requested_id == Some(requested),
            *enumerated == Ok::<Vec<String>, String>(*names),
            forall|k: int| 0 <= k < i ==> strings_view(ids@)[k] != requested@,
        decreases ids.len() - i,
    {
        if crate::text::str_eq(ids[i].as_str(), requested) {
            assert(strings_view(ids@)[i as int] == requested@);
            assert(device_ids_spec(kind, strings_view(names@)).contains(requested@));
            return Ok(());
        }
        i += 1;
    }
    let mut message = copy_string("อุปกรณ์");
    push_text(&mut message, kind.label());
    push_text(&mut message, "ที่เลือกไม่พร้อมใช้งาน — รีเฟรชรายการแล้วเลือกใหม่");
    Err(message)
}

// ---------------------------------------------------------------------------
// Cutting the sample stream into chunks
// ---------------------------------------------------------------------------

/// Latest absolute sample position a capture tracks, so that its time in
/// milliseconds fits an `i64`.
pub const MAX_CAPTURE_SAMPLES: u64 = 9_223_372_036_854_775;

/// Where one channel's capture stands: samples received but not yet cut,
/// the timeline position of the first of them, the next absolute sample
/// expected from the device, and the last slice number written.
#[derive(Debug)]
pub struct CaptureCursor {
    pub accumulator: Vec<i16>,
    pub timeline_samples: u64,
    pub expected_sample: u64,
    pub local_seq: u32,
}

pub struct CursorView {
    pub acc: Seq<i16>,
    pub timeline: nat,
    pub expected: nat,
    pub seq: nat,
}

impl View for CaptureCursor {
    type V = CursorView;

    open spec fn view(&self) -> CursorView {
        CursorView {
            acc: self.accumulator@,
            timeline: self.timeline_samples as nat,
            expected: self.expected_sample as nat,
            seq: self.local_seq as nat,
        }
    }
}

/// What the capture thread does next: write a slice, or report audio that
/// never arrived.
#[derive(Debug)]
pub enum CaptureAction {
    /// Write `samples` as slice `seq`, covering `[start_ms, end_ms)`.
    Cut { samples: Vec<i16>, start_ms: i64, end_ms: i64, seq: u32 },
    /// Report `[start_ms, end_ms)` of the source as lost, and why.
    Gap { start_ms: i64, end_ms: i64, reason: &'static str },
}

pub enum CaptureActionView {
    Cut { samples: Seq<i16>, start_ms: int, end_ms: int, seq: nat },
    Gap { start_ms: int, end_ms: int, reason: Seq<char> },
}

impl View for CaptureAction {
    type V = CaptureActionView;

    open spec fn view(&self) -> CaptureActionView {
        match self {
            CaptureAction::Cut { samples, start_ms, end_ms, seq } => CaptureActionView::Cut {
                samples: samples@,
                start_ms: *start_ms as int,
                end_ms: *end_ms as int,
                seq: *seq as nat,
            },
            CaptureAction::Gap { start_ms, end_ms, reason } => CaptureActionView::Gap {
                start_ms: *start_ms as int,
                end_ms: *end_ms as int,
                reason: reason@,
            },
        }
    }
}

pub open spec fn actions_view(v: Seq<CaptureAction>) -> Seq<CaptureActionView> {
    v.map_values(|a: CaptureAction| a@)
}

/// A sample position in milliseconds at `rate` samples per second.
pub open spec fn ms_of(samples: nat, rate: nat) -> int {
    ((samples * 1000) / rate) as int
}

impl CaptureCursor {
    /// The samples not yet cut are exactly those between the timeline and
    /// the expected position, which stays within the tracked range.
    pub open spec fn wf(&self) -> bool {
        &&& self.timeline_samples + self.accumulator@.len() == self.expected_sample
        &&& self.expected_sample <= MAX_CAPTURE_SAMPLES
    }

    /// A channel that has received nothing.
    pub fn new() -> (res: CaptureCursor)
        ensures
            res.wf(),
            res@.acc.len() == 0,
            res@.timeline == 0,
            res@.expected == 0,
            res@.seq == 0,
    {
        CaptureCursor {
            accumulator: Vec::new(),
            timeline_samples: 0,
            expected_sample: 0,
            local_seq: 0,
        }
    }
}

/// The first `take` pending samples cut as the next slice.
pub open spec fn cut_spec(c: CursorView, take: nat, rate: nat) -> (CursorView, CaptureActionView) {
    let t2 = c.timeline + take;
    (
        CursorView { acc: c.acc.skip(take as int), timeline: t2, seq: c.seq + 1, ..c },
        CaptureActionView::Cut {
            samples: c.acc.take(take as int),
            start_ms: ms_of(c.timeline, rate),
            end_ms: ms_of(t2, rate),
            seq: c.seq + 1,
        },
    )
}

/// Full slices of `n` samples cut while enough are pending.
pub open spec fn cut_full(c: CursorView, n: nat, rate: nat) -> (CursorView, Seq<CaptureActionView>)
    decreases c.acc.len(),
{
    if n > 0 && c.acc.len() >= n {
        let (c1, a) = cut_spec(c, n, rate);
        let (c2, rest) = cut_full(c1, n, rate);
        (c2, seq![a] + rest)
    } else {
        (c, seq![])
    }
}

/// One batch of samples starting at absolute position `first`. Samples
/// already received are skipped. When the batch starts past the expected
/// position, what is pending is cut as a short slice and the missing
/// interval reported as a gap; the timeline then resumes at the batch.
/// Full slices are cut from what is pending afterwards.
pub open spec fn process_spec(
    c: CursorView,
    first: nat,
    samples: Seq<i16>,
    rate: nat,
    n: nat,
) -> (CursorView, Seq<CaptureActionView>) {
    let overlap: nat = if c.expected > first {
        (c.expected - first) as nat
    } else {
        0
    };
    if overlap >= samples.len() {
        (c, seq![])
    } else {
        let start = first + overlap;
        let (c1, pre) = if start > c.expected {
            let (ca, flushed) = if c.acc.len() > 0 {
                let (x, a) = cut_spec(c, c.acc.len(), rate);
                (x, seq![a])
            } else {
                (c, seq![])
            };
            let gs = ms_of(c.expected, rate);
            let ge = ms_of(start, rate);
            (
                CursorView { timeline: start, ..ca },
                flushed + if ge > gs {
                    seq![
                        CaptureActionView::Gap {
                            start_ms: gs,
                            end_ms: ge,
                            reason: "sample_queue_overflow"@,
                        },
                    ]
                } else {
                    seq![]
                },
            )
        } else {
            (c, seq![])
        };
        let added = samples.skip(overlap as int);
        let c2 = CursorView { acc: c1.acc + added, expected: start + added.len(), ..c1 };
        let (c3, cuts) = cut_full(c2, n, rate);
        (c3, pre + cuts)
    }
}

proof fn lemma_cut_full(c: CursorView, n: nat, rate: nat)
    requires
        n > 0,
    ensures
        cut_full(c, n, rate).0.seq >= c.seq,
        c.acc.len() >= n ==> cut_full(c, n, rate).0.seq >= c.seq + 1,
        cut_full(c, n, rate).0.timeline + cut_full(c, n, rate).0.acc.len() == c.timeline
            + c.acc.len(),
        cut_full(c, n, rate).0.expected == c.expected,
        cut_full(c, n, rate).0.acc.len() < n,
    decreases c.acc.len(),
{
    if c.acc.len() >= n {
        let (c1, a) = cut_spec(c, n, rate);
        lemma_cut_full(c1, n, rate);
    }
}

/// Cutting what is pending before a gap uses up a slice number.
proof fn lemma_flush_needs_a_number(c: CursorView, first: nat, samples: Seq<i16>, rate: nat, n: nat)
    requires
        n > 0,
    ensures
        ({
            let overlap: nat = if c.expected > first {
                (c.expected - first) as nat
            } else {
                0
            };
            (overlap < samples.len() && first + overlap > c.expected && c.acc.len() > 0) ==> process_spec(
                c,
                first,
                samples,
                rate,
                n,
            ).0.seq >= c.seq + 1
        }),
{
    let overlap: nat = if c.expected > first {
        (c.expected - first) as nat
    } else {
        0
    };
    if overlap < samples.len() && first + overlap > c.expected && c.acc.len() > 0 {
        let start = first + overlap;
        let (x, a) = cut_spec(c, c.acc.len(), rate);
        let c1 = CursorView { timeline: start, ..x };
        let added = samples.skip(overlap as int);
        let c2 = CursorView { acc: c1.acc + added, expected: start + added.len(), ..c1 };
        lemma_cut_full(c2, n, rate);
    }
}

/// The samples of the slices among `acts`, in order.
pub open spec fn cut_samples(acts: Seq<CaptureActionView>) -> Seq<i16>
    decreases acts.len(),
{
    if acts.len() == 0 {
        seq![]
    } else {
        cut_samples(acts.drop_last()) + match acts.last() {
            CaptureActionView::Cut { samples, .. } => samples,
            CaptureActionView::Gap { .. } => seq![],
        }
    }
}

/// The numbers of the slices among `acts`, in order.
pub open spec fn cut_numbers(acts: Seq<CaptureActionView>) -> Seq<nat>
    decreases acts.len(),
{
    if acts.len() == 0 {
        seq![]
    } else {
        cut_numbers(acts.drop_last()) + match acts.last() {
            CaptureActionView::Cut { seq, .. } => seq![seq],
            CaptureActionView::Gap { .. } => seq![],
        }
    }
}

/// `from + 1`, `from + 2`, ..., `from + count`.
pub open spec fn numbers_after(from: nat, count: nat) -> Seq<nat> {
    Seq::new(count, |i: int| (from + 1 + i) as nat)
}

proof fn lemma_cut_single(a: CaptureActionView)
    ensures
        cut_samples(seq![a]) == match a {
            CaptureActionView::Cut { samples, .. } => samples,
            CaptureActionView::Gap { .. } => Seq::<i16>::empty(),
        },
        cut_numbers(seq![a]) == match a {
            CaptureActionView::Cut { seq, .. } => seq![seq],
            CaptureActionView::Gap { .. } => Seq::<nat>::empty(),
        },
{
    assert(seq![a].drop_last() =~= Seq::<CaptureActionView>::empty());
    assert(seq![a].last() == a);
    assert(cut_samples(Seq::<CaptureActionView>::empty()) =~= Seq::<i16>::empty());
    assert(cut_numbers(Seq::<CaptureActionView>::empty()) =~= Seq::<nat>::empty());
    assert(Seq::<i16>::empty() + match a {
        CaptureActionView::Cut { samples, .. } => samples,
        CaptureActionView::Gap { .. } => Seq::<i16>::empty(),
    } =~= match a {
        CaptureActionView::Cut { samples, .. } => samples,
        CaptureActionView::Gap { .. } => Seq::<i16>::empty(),
    });
    assert(Seq::<nat>::empty() + match a {
        CaptureActionView::Cut { seq, .. } => seq![seq],
        CaptureActionView::Gap { .. } => Seq::<nat>::empty(),
    } =~= match a {
        CaptureActionView::Cut { seq, .. } => seq![seq],
        CaptureActionView::Gap { .. } => Seq::<nat>::empty(),
    });
}

proof fn lemma_cut_lists_append(x: Seq<CaptureActionView>, y: Seq<CaptureActionView>)
    ensures
        cut_samples(x + y) == cut_samples(x) + cut_samples(y),
        cut_numbers(x + y) == cut_numbers(x) + cut_numbers(y),
    decreases y.len(),
{
    if y.len() == 0 {
        assert(x + y =~= x);
        assert(cut_samples(x) + seq![] =~= cut_samples(x));
        assert(cut_numbers(x) + seq![] =~= cut_numbers(x));
    } else {
        assert((x + y).drop_last() =~= x + y.drop_last());
        lemma_cut_lists_append(x, y.drop_last());
        assert(cut_samples(x) + cut_samples(y.drop_last()) + match y.last() {
            CaptureActionView::Cut { samples, .. } => samples,
            CaptureActionView::Gap { .. } => seq![],
        } =~= cut_samples(x) + cut_samples(y));
        assert(cut_numbers(x) + cut_numbers(y.drop_last()) + match y.last() {
            CaptureActionView::Cut { seq, .. } => seq![seq],
            CaptureActionView::Gap { .. } => seq![],
        } =~= cut_numbers(x) + cut_numbers(y));
    }
}

proof fn lemma_cut_full_keeps_samples(c: CursorView, n: nat, rate: nat)
    requires
        n > 0,
    ensures
        cut_samples(cut_full(c, n, rate).1) + cut_full(c, n, rate).0.acc == c.acc,
        cut_numbers(cut_full(c, n, rate).1) == numbers_after(
            c.seq,
            (cut_full(c, n, rate).0.seq - c.seq) as nat,
        ),
        cut_full(c, n, rate).0.seq >= c.seq,
    decreases c.acc.len(),
{
    if c.acc.len() >= n {
        let (c1, a) = cut_spec(c, n, rate);
        lemma_cut_full_keeps_samples(c1, n, rate);
        let (c2, rest) = cut_full(c1, n, rate);
        lemma_cut_lists_append(seq![a], rest);
        lemma_cut_single(a);
        assert(cut_samples(seq![a]) =~= c.acc.take(n as int));
        assert(cut_numbers(seq![a]) =~= seq![c.seq + 1]);
        assert(c.acc.take(n as int) + (cut_samples(rest) + c2.acc) =~= c.acc);
        assert(cut_samples(seq![a]) + cut_samples(rest) + c2.acc =~= c.acc);
        assert(seq![(c.seq + 1) as nat] + numbers_after(c1.seq, (c2.seq - c1.seq) as nat)
            =~= numbers_after(c.seq, (c2.seq - c.seq) as nat));
    } else {
        assert(c.acc =~= seq![] + c.acc);
        assert(numbers_after(c.seq, 0) =~= Seq::<nat>::empty());
    }
}

/// No sample is lost or taken twice: the slices cut from a batch, then what
/// stays pending, are exactly what was pending before and the batch's new
/// samples. Slices are numbered one after another from the last number.
pub proof fn law_batches_keep_every_sample(
    c: CursorView,
    first: nat,
    samples: Seq<i16>,
    rate: nat,
    n: nat,
)
    requires
        n > 0,
    ensures
        ({
            let (c2, acts) = process_spec(c, first, samples, rate, n);
            let overlap: nat = if c.expected > first {
                (c.expected - first) as nat
            } else {
                0
            };
            &&& cut_samples(acts) + c2.acc == c.acc + if overlap < samples.len() {
                samples.skip(overlap as int)
            } else {
                seq![]
            }
            &&& c2.seq >= c.seq
            &&& cut_numbers(acts) == numbers_after(c.seq, (c2.seq - c.seq) as nat)
        }),
{
    let overlap: nat = if c.expected > first {
        (c.expected - first) as nat
    } else {
        0
    };
    if overlap >= samples.len() {
        assert(cut_samples(Seq::<CaptureActionView>::empty()) + c.acc =~= c.acc + seq![]);
        assert(numbers_after(c.seq, 0) =~= Seq::<nat>::empty());
    } else {
        let start = first + overlap;
        let added = samples.skip(overlap as int);
        if start > c.expected {
            let gs = ms_of(c.expected, rate);
            let ge = ms_of(start, rate);
            let gap_part: Seq<CaptureActionView> = if ge > gs {
                seq![
                    CaptureActionView::Gap {
                        start_ms: gs,
                        end_ms: ge,
                        reason: "sample_queue_overflow"@,
                    },
                ]
            } else {
                seq![]
            };
            assert(cut_samples(gap_part) =~= Seq::<i16>::empty() && cut_numbers(gap_part)
                =~= Seq::<nat>::empty()) by {
                if ge > gs {
                    lemma_cut_single(gap_part[0]);
                    assert(gap_part =~= seq![gap_part[0]]);
                }
            }
            if c.acc.len() > 0 {
                let (x, a) = cut_spec(c, c.acc.len(), rate);
                let c1 = CursorView { timeline: start, ..x };
                let c2 = CursorView { acc: c1.acc + added, expected: start + added.len(), ..c1 };
                lemma_cut_full_keeps_samples(c2, n, rate);
                let (c3, cuts) = cut_full(c2, n, rate);
                let pre = seq![a] + gap_part;
                lemma_cut_lists_append(seq![a], gap_part);
                lemma_cut_lists_append(pre, cuts);
                lemma_cut_single(a);
                assert(cut_samples(seq![a]) =~= c.acc.take(c.acc.len() as int));
                assert(cut_numbers(seq![a]) =~= seq![c.seq + 1]);
                assert(c1.acc =~= Seq::<i16>::empty());
                assert(c2.acc =~= added);
                assert(c.acc.take(c.acc.len() as int) =~= c.acc);
                assert(cut_samples(pre) + cut_samples(cuts) + c3.acc =~= c.acc + added);
                assert(seq![(c.seq + 1) as nat] + numbers_after(c2.seq, (c3.seq - c2.seq) as nat)
                    =~= numbers_after(c.seq, (c3.seq - c.seq) as nat));
                assert(cut_numbers(pre) + cut_numbers(cuts) =~= seq![(c.seq + 1) as nat]
                    + numbers_after(c2.seq, (c3.seq - c2.seq) as nat));
            } else {
                let c1 = CursorView { timeline: start, ..c };
                let c2 = CursorView { acc: c1.acc + added, expected: start + added.len(), ..c1 };
                lemma_cut_full_keeps_samples(c2, n, rate);
                let (c3, cuts) = cut_full(c2, n, rate);
                lemma_cut_lists_append(gap_part, cuts);
                assert(c2.acc =~= c.acc + added);
                assert(cut_samples(gap_part) + cut_samples(cuts) + c3.acc =~= c.acc + added);
                assert(cut_numbers(gap_part) + cut_numbers(cuts) =~= cut_numbers(cuts));
            }
        } else {
            let c2 = CursorView { acc: c.acc + added, expected: start + added.len(), ..c };
            lemma_cut_full_keeps_samples(c2, n, rate);
            let (c3, cuts) = cut_full(c2, n, rate);
            lemma_cut_lists_append(Seq::<CaptureActionView>::empty(), cuts);
            assert(Seq::<CaptureActionView>::empty() + cuts =~= cuts);
        }
    }
}

/// A batch that lies wholly before the expected sample was received
/// already: it sends nothing and leaves the cursor as it was.
pub proof fn law_a_batch_already_received_changes_nothing(
    c: CursorView,
    first: nat,
    samples: Seq<i16>,
    rate: nat,
    n: nat,
)
    requires
        first + samples.len() <= c.expected,
    ensures
        process_spec(c, first, samples, rate, n) == (c, Seq::<CaptureActionView>::empty()),
{
}

/// Handing the same batch over twice is the same as handing it once: the
/// second time it sends nothing and changes nothing.
pub proof fn law_a_repeated_batch_changes_nothing(
    c: CursorView,
    first: nat,
    samples: Seq<i16>,
    rate: nat,
    n: nat,
)
    ensures
        ({
            let c2 = process_spec(c, first, samples, rate, n).0;
            process_spec(c2, first, samples, rate, n) == (c2, Seq::<CaptureActionView>::empty())
        }),
{
    let overlap: nat = if c.expected > first {
        (c.expected - first) as nat
    } else {
        0
    };
    if overlap < samples.len() {
        let start = first + overlap;
        let (c1, pre) = if start > c.expected {
            let (ca, flushed) = if c.acc.len() > 0 {
                let (x, a) = cut_spec(c, c.acc.len(), rate);
                (x, seq![a])
            } else {
                (c, seq![])
            };
            (CursorView { timeline: start, ..ca }, flushed)
        } else {
            (c, seq![])
        };
        let added = samples.skip(overlap as int);
        let c2 = CursorView { acc: c1.acc + added, expected: start + added.len(), ..c1 };
        assert(c2.expected == first + samples.len());
        if n > 0 {
            lemma_cut_full(c2, n, rate);
        }
        assert(process_spec(c, first, samples, rate, n).0.expected == first + samples.len());
    }
    if samples.len() > 0 {
        law_a_batch_already_received_changes_nothing(
            process_spec(c, first, samples, rate, n).0,
            first,
            samples,
            rate,
            n,
        );
    }
}

fn ms_at(samples: u64, rate: u32) -> (ms: i64)
    requires
        samples <= MAX_CAPTURE_SAMPLES,
        rate > 0,
    ensures
        ms == ms_of(samples as nat, rate as nat),
{
    let scaled = samples * 1000;
    (scaled / rate as u64) as i64
}

/// Cuts the first `take` pending samples as the next slice.
fn cut(cursor: &mut CaptureCursor, take: usize, rate: u32) -> (action: CaptureAction)
    requires
        old(cursor).wf(),
        0 < take <= old(cursor).accumulator.len(),
        old(cursor).local_seq < u32::MAX,
        rate > 0,
    ensures
        final(cursor).wf(),
        (final(cursor)@, action@) == cut_spec(old(cursor)@, take as nat, rate as nat),
{
    let acc = cursor.accumulator.as_slice();
    let samples = vstd::slice::slice_to_vec(vstd::slice::slice_subrange(acc, 0, take));
    let rest = vstd::slice::slice_to_vec(vstd::slice::slice_subrange(acc, take, acc.len()));
    let start_ms = ms_at(cursor.timeline_samples, rate);
    let t2 = cursor.timeline_samples + take as u64;
    let end_ms = ms_at(t2, rate);
    cursor.accumulator = rest;
    cursor.timeline_samples = t2;
    cursor.local_seq = cursor.local_seq + 1;
    assert(samples@ =~= old(cursor)@.acc.take(take as int));
    assert(cursor@.acc =~= old(cursor)@.acc.skip(take as int));
    CaptureAction::Cut { samples, start_ms, end_ms, seq: cursor.local_seq }
}

/// Takes one batch of captured samples into the channel's cursor and says
/// which slices to write and which gaps to report, in order.
pub fn process_capture_sample_batch(
    cursor: &mut CaptureCursor,
    first_sample: u64,
    samples: &[i16],
    sample_rate: u32,
    samples_per_chunk: usize,
) -> (actions: Vec<CaptureAction>)
    requires
        old(cursor).wf(),
        sample_rate > 0,
        samples_per_chunk > 0,
        first_sample + samples@.len() <= MAX_CAPTURE_SAMPLES,
        process_spec(
            old(cursor)@,
            first_sample as nat,
            samples@,
            sample_rate as nat,
            samples_per_chunk as nat,
        ).0.seq <= u32::MAX,
    ensures
        final(cursor).wf(),
        (final(cursor)@, actions_view(actions@)) == process_spec(
            old(cursor)@,
            first_sample as nat,
            samples@,
            sample_rate as nat,
            samples_per_chunk as nat,
        ),
{
    let ghost c0 = cursor@;
    let ghost rate = sample_rate as nat;
    let ghost n = samples_per_chunk as nat;
    let ghost target = process_spec(c0, first_sample as nat, samples@, rate, n);
    let overlap: u64 = if cursor.expected_sample > first_sample {
        cursor.expected_sample - first_sample
    } else {
        0
    };
    let mut actions: Vec<CaptureAction> = Vec::new();
    if overlap >= samples.len() as u64 {
        assert(actions_view(actions@) =~= seq![]);
        return actions;
    }
    let skip = overlap as usize;
    let start = first_sample + overlap;
    let ghost c1;
    if start > cursor.expected_sample {
        proof {
            lemma_flush_needs_a_number(c0, first_sample as nat, samples@, rate, n);
        }
        if cursor.accumulator.len() > 0 {
            let pending = cursor.accumulator.len();
            let a = cut(cursor, pending, sample_rate);
            actions.push(a);
        }
        let gap_start = ms_at(cursor.expected_sample, sample_rate);
        let gap_end = ms_at(start, sample_rate);
        cursor.timeline_samples = start;
        if gap_end > gap_start {
            actions.push(
                CaptureAction::Gap {
                    start_ms: gap_start,
                    end_ms: gap_end,
                    reason: "sample_queue_overflow",
                },
            );
        }
        proof {
            c1 = cursor@;
        }
    } else {
        proof {
            c1 = cursor@;
        }
    }
    let ghost pre = actions_view(actions@);
    let mut k: usize = skip;
    while k < samples.len()
        invariant
            skip <= k <= samples.len(),
            cursor.accumulator@ == c1.acc + samples@.subrange(skip as int, k as int),
            cursor.timeline_samples == c1.timeline,
            cursor.local_seq == c1.seq,
            cursor.expected_sample == c1.expected,
            actions_view(actions@) == pre,
        decreases samples.len() - k,
    {
        cursor.accumulator.push(samples[k]);
        k += 1;
        assert(cursor.accumulator@ =~= c1.acc + samples@.subrange(skip as int, k as int));
    }
    assert(samples@.subrange(skip as int, samples.len() as int) =~= samples@.skip(skip as int));
    cursor.expected_sample = start + (samples.len() - skip) as u64;
    let ghost c2 = cursor@;
    proof {
        lemma_cut_full(c2, n, rate);
    }
    while cursor.accumulator.len() >= samples_per_chunk
        invariant
            cursor.wf(),
            samples_per_chunk > 0,
            sample_rate > 0,
            n == samples_per_chunk as nat,
            rate == sample_rate as nat,
            cut_full(cursor@, n, rate).0 == cut_full(c2, n, rate).0,
            actions_view(actions@) + cut_full(cursor@, n, rate).1 == pre + cut_full(c2, n, rate).1,
            cut_full(c2, n, rate).0.seq <= u32::MAX,
        decreases cursor.accumulator.len(),
    {
        proof {
            lemma_cut_full(cursor@, n, rate);
            let (x, a) = cut_spec(cursor@, n, rate);
            lemma_cut_full(x, n, rate);
        }
        let ghost before = actions_view(actions@);
        let ghost cur = cursor@;
        let a = cut(cursor, samples_per_chunk, sample_rate);
        actions.push(a);
        assert(actions_view(actions@) =~= before.push(a@));
        assert(before + cut_full(cur, n, rate).1 =~= actions_view(actions@) + cut_full(
            cursor@,
            n,
            rate,
        ).1);
    }
    assert(actions_view(actions@) + seq![] =~= actions_view(actions@));
    actions
}

/// Samples in `ms` milliseconds at `rate` samples per second.
pub fn samples_for_ms(rate: u32, ms: u64) -> (res: u64)
    requires
        rate * ms <= u64::MAX,
    ensures
        res == (rate * ms) / 1000,
{
    rate as u64 * ms / 1000
}

/// Shortest tail worth a slice of its own when capture stops.
pub const MIN_FINAL_CHUNK_MS: u64 = 400;

/// When capture stops: samples the device produced up to
/// `captured_end` but never delivered are reported as a gap (after cutting
/// what was pending); the remaining tail becomes a last slice when it holds
/// at least `min_final` samples, and is reported as too short otherwise.
pub open spec fn finish_spec(c: CursorView, captured_end: nat, rate: nat, min_final: nat) -> Seq<
    CaptureActionView,
> {
    let (c1, lost) = if captured_end > c.expected {
        let (ca, flushed) = if c.acc.len() > 0 {
            let (x, a) = cut_spec(c, c.acc.len(), rate);
            (x, seq![a])
        } else {
            (c, seq![])
        };
        let gs = ms_of(c.expected, rate);
        let ge = ms_of(captured_end, rate);
        (
            CursorView { timeline: captured_end, expected: captured_end, ..ca },
            flushed + if ge > gs {
                seq![
                    CaptureActionView::Gap {
                        start_ms: gs,
                        end_ms: ge,
                        reason: "sample_queue_overflow"@,
                    },
                ]
            } else {
                seq![]
            },
        )
    } else {
        (c, seq![])
    };
    if c1.acc.len() > 0 && c1.acc.len() >= min_final {
        lost.push(cut_spec(c1, c1.acc.len(), rate).1)
    } else if c1.acc.len() > 0 {
        let gs = ms_of(
            if c1.expected >= c1.acc.len() {
                (c1.expected - c1.acc.len()) as nat
            } else {
                0
            },
            rate,
        );
        let ge = ms_of(c1.expected, rate);
        if ge > gs {
            lost.push(
                CaptureActionView::Gap { start_ms: gs, end_ms: ge, reason: "final_tail_too_short"@ },
            )
        } else {
            lost
        }
    } else {
        lost
    }
}

/// What to write and report once a channel stops capturing.
pub fn finish_capture(
    cursor: CaptureCursor,
    captured_end_sample: u64,
    sample_rate: u32,
    min_final_samples: usize,
) -> (actions: Vec<CaptureAction>)
    requires
        cursor.wf(),
        sample_rate > 0,
        captured_end_sample <= MAX_CAPTURE_SAMPLES,
        cursor.accumulator@.len() > 0 && (captured_end_sample > cursor.expected_sample
            || cursor.accumulator@.len() >= min_final_samples) ==> cursor.local_seq < u32::MAX,
    ensures
        actions_view(actions@) == finish_spec(
            cursor@,
            captured_end_sample as nat,
            sample_rate as nat,
            min_final_samples as nat,
        ),
{
    let mut cursor = cursor;
    let ghost c0 = cursor@;
    let mut actions: Vec<CaptureAction> = Vec::new();
    if captured_end_sample > cursor.expected_sample {
        if cursor.accumulator.len() > 0 {
            let pending = cursor.accumulator.len();
            let a = cut(&mut cursor, pending, sample_rate);
            actions.push(a);
        }
        let gap_start = ms_at(cursor.expected_sample, sample_rate);
        let gap_end = ms_at(captured_end_sample, sample_rate);
        if gap_end > gap_start {
            actions.push(
                CaptureAction::Gap {
                    start_ms: gap_start,
                    end_ms: gap_end,
                    reason: "sample_queue_overflow",
                },
            );
        }
        cursor.timeline_samples = captured_end_sample;
        cursor.expected_sample = captured_end_sample;
    }
    let ghost lost = actions_view(actions@);
    let len = cursor.accumulator.len();
    if len > 0 && len >= min_final_samples {
        let a = cut(&mut cursor, len, sample_rate);
        actions.push(a);
        assert(actions_view(actions@) =~= lost.push(a@));
    } else if len > 0 {
        let gap_start_sample = if cursor.expected_sample >= len as u64 {
            cursor.expected_sample - len as u64
        } else {
            0
        };
        let gap_start = ms_at(gap_start_sample, sample_rate);
        let gap_end = ms_at(cursor.expected_sample, sample_rate);
        if gap_end > gap_start {
            let a = CaptureAction::Gap {
                start_ms: gap_start,
                end_ms: gap_end,
                reason: "final_tail_too_short",
            };
            actions.push(a);
            assert(actions_view(actions@) =~= lost.push(a@));
        }
    }
    actions
}

// ---------------------------------------------------------------------------
// Revisioned tracks
// ---------------------------------------------------------------------------

use crate::live_transcript::{
    batch_result_view, commit_spec, push_spec, updates_view, AudioFragmentRef, DecodeWindow,
    DecodeWindowView, HypothesisView, RevisionTracker, RollingWindowScheduler, ScheduleError,
    TrackedView, TranscriptHypothesis, TranscriptUpdate, UpdateView, WindowBatch, MAX_TIMELINE_MS,
};
use crate::text::{chars_lt, str_eq, str_lt};

/// The meeting and source a track belongs to.
#[derive(Debug)]
pub struct MeetingScope {
    pub project_id: String,
    pub recording_id: String,
    pub meeting_session_id: String,
    pub source_session_id: String,
    pub track_id: String,
    pub source_generation: i64,
}

/// Whether a stretch of a source holds audio or is a recorded gap.
#[derive(Clone, Copy, Debug, PartialEq, Eq, Structural)]
pub enum SourceCoverageKind {
    Audio,
    Gap,
}

/// One stretch of a source's timeline, as the ledger records it.
#[derive(Debug)]
pub struct SourceCoverageInput {
    pub id: String,
    pub source_session_id: String,
    pub track_id: String,
    pub source_generation: i64,
    pub sequence_no: i64,
    pub start_ms: i64,
    pub end_ms: i64,
    pub kind: SourceCoverageKind,
    pub audio_chunk_id: Option<String>,
    pub file_path: Option<String>,
    pub byte_size: Option<i64>,
    pub checksum: Option<String>,
    pub gap_reason: Option<String>,
}

pub struct CoverageView {
    pub id: Seq<char>,
    pub source_session_id: Seq<char>,
    pub track_id: Seq<char>,
    pub source_generation: i64,
    pub sequence_no: i64,
    pub start_ms: i64,
    pub end_ms: i64,
    pub kind: SourceCoverageKind,
    pub audio_chunk_id: Option<Seq<char>>,
    pub file_path: Option<Seq<char>>,
    pub byte_size: Option<i64>,
    pub checksum: Option<Seq<char>>,
    pub gap_reason: Option<Seq<char>>,
}

impl View for SourceCoverageInput {
    type V = CoverageView;

    open spec fn view(&self) -> CoverageView {
        CoverageView {
            id: self.id@,
            source_session_id: self.source_session_id@,
            track_id: self.track_id@,
            source_generation: self.source_generation,
            sequence_no: self.sequence_no,
            start_ms: self.start_ms,
            end_ms: self.end_ms,
            kind: self.kind,
            audio_chunk_id: opt_chars(self.audio_chunk_id),
            file_path: opt_chars(self.file_path),
            byte_size: self.byte_size,
            checksum: opt_chars(self.checksum),
            gap_reason: opt_chars(self.gap_reason),
        }
    }
}

pub open spec fn coverages_view(v: Seq<SourceCoverageInput>) -> Seq<CoverageView> {
    v.map_values(|c: SourceCoverageInput| c@)
}

/// A durable slice written by capture.
#[derive(Debug)]
pub struct RawChunk {
    pub channel: &'static str,
    pub chunk_id: String,
    pub file_path: String,
    pub start_ms: i64,
    pub end_ms: i64,
    pub byte_size: i64,
    pub checksum: String,
}

/// `coverage::{source session}::{sequence}`.
pub open spec fn coverage_id(session: Seq<char>, seq: i64) -> Seq<char> {
    "coverage::"@ + session + "::"@ + signed_decimal(seq as int)
}

/// The coverage row for a gap of the track's source.
pub open spec fn gap_coverage(
    scope: MeetingScope,
    seq: i64,
    start: i64,
    end: i64,
    reason: Seq<char>,
) -> CoverageView {
    CoverageView {
        id: coverage_id(scope.source_session_id@, seq),
        source_session_id: scope.source_session_id@,
        track_id: scope.track_id@,
        source_generation: scope.source_generation,
        sequence_no: seq,
        start_ms: start,
        end_ms: end,
        kind: SourceCoverageKind::Gap,
        audio_chunk_id: None,
        file_path: None,
        byte_size: None,
        checksum: None,
        gap_reason: Some(reason),
    }
}

/// The coverage row for a captured slice.
pub open spec fn audio_coverage(scope: MeetingScope, seq: i64, chunk: RawChunk) -> CoverageView {
    CoverageView {
        id: coverage_id(scope.source_session_id@, seq),
        source_session_id: scope.source_session_id@,
        track_id: scope.track_id@,
        source_generation: scope.source_generation,
        sequence_no: seq,
        start_ms: chunk.start_ms,
        end_ms: chunk.end_ms,
        kind: SourceCoverageKind::Audio,
        audio_chunk_id: Some(chunk.chunk_id@),
        file_path: Some(chunk.file_path@),
        byte_size: Some(chunk.byte_size),
        checksum: Some(chunk.checksum@),
        gap_reason: None,
    }
}

/// One source's revisioned transcription state: the coverage rows and
/// slices not yet committed, the next coverage number, where the source
/// timeline has reached, the window scheduler and the revision tracker.
pub struct RevisionedTrack {
    pub scope: MeetingScope,
    pub next_sequence_no: i64,
    pub last_source_end_ms: i64,
    pub scheduler: RollingWindowScheduler,
    pub tracker: RevisionTracker,
    pub pending_sources: Vec<SourceCoverageInput>,
    pub pending_chunks: Vec<RawChunk>,
    /// A commit that failed, to be retried unchanged.
    pub retry_batch: Option<RevisionBatch>,
}

fn clone_scope_text(s: &String) -> (out: String)
    ensures
        out == *s,
{
    s.clone()
}

fn coverage_id_exec(session: &str, seq: i64) -> (out: String)
    ensures
        out@ == coverage_id(session@, seq),
{
    let mut id = copy_string("coverage::");
    push_text(&mut id, session);
    push_text(&mut id, "::");
    crate::text::push_i64(&mut id, seq);
    id
}

impl RevisionedTrack {
    /// The scheduler is well formed and every pending coverage row has a
    /// number below the next one.
    pub open spec fn wf(&self) -> bool {
        &&& self.scheduler.wf()
        &&& self.tracker.wf()
        &&& forall|i: int|
            0 <= i < self.pending_sources@.len() ==> (#[trigger] self.pending_sources@[i]).sequence_no
                < self.next_sequence_no
    }

    /// A track with nothing pending.
    pub fn new(scope: MeetingScope) -> (res: RevisionedTrack)
        ensures
            res.wf(),
            res.scope == scope,
            res.next_sequence_no == 0,
            res.last_source_end_ms == 0,
            res.pending_sources@.len() == 0,
            res.pending_chunks@.len() == 0,
            res.scheduler@.fragments.len() == 0,
            res.scheduler@.next_sequence_no is None,
            res.scheduler@.last_end_ms is None,
            res.scheduler@.window_ordinal == 0,
            res.tracker@.utterances.len() == 0,
            res.tracker@.window_ordinal == 0,
            res.retry_batch is None,
    {
        RevisionedTrack {
            scope,
            next_sequence_no: 0,
            last_source_end_ms: 0,
            scheduler: RollingWindowScheduler::new(),
            tracker: RevisionTracker::new(),
            pending_sources: Vec::new(),
            pending_chunks: Vec::new(),
            retry_batch: None,
        }
    }

    fn push_gap(&mut self, start_ms: i64, end_ms: i64, reason: &str)
        requires
            old(self).wf(),
            old(self).next_sequence_no < i64::MAX,
        ensures
            final(self).wf(),
            coverages_view(final(self).pending_sources@) == coverages_view(
                old(self).pending_sources@,
            ).push(gap_coverage(old(self).scope, old(self).next_sequence_no, start_ms, end_ms, reason@)),
            final(self).next_sequence_no == old(self).next_sequence_no + 1,
            final(self).scope == old(self).scope,
            final(self).scheduler == old(self).scheduler,
            final(self).tracker == old(self).tracker,
            final(self).last_source_end_ms == old(self).last_source_end_ms,
            final(self).pending_chunks == old(self).pending_chunks,
            final(self).retry_batch == old(self).retry_batch,
    {
        let seq = self.next_sequence_no;
        self.next_sequence_no = seq + 1;
        let row = SourceCoverageInput {
            id: coverage_id_exec(self.scope.source_session_id.as_str(), seq),
            source_session_id: clone_scope_text(&self.scope.source_session_id),
            track_id: clone_scope_text(&self.scope.track_id),
            source_generation: self.scope.source_generation,
            sequence_no: seq,
            start_ms,
            end_ms,
            kind: SourceCoverageKind::Gap,
            audio_chunk_id: None,
            file_path: None,
            byte_size: None,
            checksum: None,
            gap_reason: Some(copy_string(reason)),
        };
        let ghost before = self.pending_sources@;
        self.pending_sources.push(row);
        assert(coverages_view(self.pending_sources@) =~= coverages_view(before).push(row@));
    }

    /// Records a captured slice and hands it to the scheduler. A stretch of
    /// the timeline before it that nothing covered is recorded as a gap
    /// first. The slice's coverage is recorded whether or not the scheduler
    /// accepts it.
    pub fn add_chunk(&mut self, chunk: RawChunk) -> (res: Result<WindowBatch, ScheduleError>)
        requires
            old(self).wf(),
            old(self).next_sequence_no < i64::MAX,
            chunk.start_ms > old(self).last_source_end_ms ==> old(self).next_sequence_no < i64::MAX
                - 1,
            chunk.end_ms <= MAX_TIMELINE_MS,
        ensures
            final(self).wf(),
            ({
                let gap = chunk.start_ms > old(self).last_source_end_ms;
                let s0 = old(self).next_sequence_no;
                let seq = if gap {
                    (s0 + 1) as i64
                } else {
                    s0
                };
                &&& coverages_view(final(self).pending_sources@) == coverages_view(
                    old(self).pending_sources@,
                ) + (if gap {
                    seq![
                        gap_coverage(
                            old(self).scope,
                            s0,
                            old(self).last_source_end_ms,
                            chunk.start_ms,
                            "capture_interval_unavailable"@,
                        ),
                    ]
                } else {
                    seq![]
                }) + seq![audio_coverage(old(self).scope, seq, chunk)]
                &&& final(self).next_sequence_no == seq + 1
                &&& final(self).last_source_end_ms == chunk.end_ms
                &&& final(self).pending_chunks@ == old(self).pending_chunks@.push(chunk)
                &&& final(self).scope == old(self).scope
                &&& final(self).tracker == old(self).tracker
                &&& final(self).retry_batch == old(self).retry_batch
                &&& exists|f: AudioFragmentRef|
                    {
                        &&& f.id@ == coverage_id(old(self).scope.source_session_id@, seq)
                        &&& f.path@ == chunk.file_path@
                        &&& f.sequence_no == seq
                        &&& f.start_ms == chunk.start_ms
                        &&& f.end_ms == chunk.end_ms
                        &&& final(self).scheduler@ == push_spec(
                            old(self).scheduler@,
                            old(self).scope.track_id@,
                            f,
                        ).0
                        &&& batch_result_view(res) == push_spec(
                            old(self).scheduler@,
                            old(self).scope.track_id@,
                            f,
                        ).1
                    }
            }),
    {
        let ghost before = coverages_view(self.pending_sources@);
        let ghost ch = chunk;
        if chunk.start_ms > self.last_source_end_ms {
            let start = self.last_source_end_ms;
            self.push_gap(start, chunk.start_ms, "capture_interval_unavailable");
        }
        let ghost with_gap = coverages_view(self.pending_sources@);
        let seq = self.next_sequence_no;
        self.next_sequence_no = seq + 1;
        let row_id = coverage_id_exec(self.scope.source_session_id.as_str(), seq);
        let row = SourceCoverageInput {
            id: row_id.clone(),
            source_session_id: clone_scope_text(&self.scope.source_session_id),
            track_id: clone_scope_text(&self.scope.track_id),
            source_generation: self.scope.source_generation,
            sequence_no: seq,
            start_ms: chunk.start_ms,
            end_ms: chunk.end_ms,
            kind: SourceCoverageKind::Audio,
            audio_chunk_id: Some(chunk.chunk_id.clone()),
            file_path: Some(chunk.file_path.clone()),
            byte_size: Some(chunk.byte_size),
            checksum: Some(chunk.checksum.clone()),
            gap_reason: None,
        };
        self.pending_sources.push(row);
        assert(coverages_view(self.pending_sources@) =~= with_gap.push(row@));
        self.last_source_end_ms = chunk.end_ms;
        let fragment = AudioFragmentRef {
            id: row_id,
            path: chunk.file_path.clone(),
            sequence_no: seq,
            start_ms: chunk.start_ms,
            end_ms: chunk.end_ms,
        };
        self.pending_chunks.push(chunk);
        let ghost fv = fragment;
        let ghost sched0 = self.scheduler@;
        let res = self.scheduler.push(self.scope.track_id.as_str(), fragment);
        proof {
            assert(self.scheduler@ == push_spec(sched0, self.scope.track_id@, fv).0);
            assert(batch_result_view(res) == push_spec(sched0, self.scope.track_id@, fv).1);
            assert(fv.id@ == coverage_id(old(self).scope.source_session_id@, seq));
            if ch.start_ms > old(self).last_source_end_ms {
                assert(with_gap == before.push(
                    gap_coverage(
                        old(self).scope,
                        old(self).next_sequence_no,
                        old(self).last_source_end_ms,
                        ch.start_ms,
                        "capture_interval_unavailable"@,
                    ),
                ));
            } else {
                assert(with_gap =~= before);
            }
            assert(coverages_view(self.pending_sources@) =~= before + (if ch.start_ms > old(
                self,
            ).last_source_end_ms {
                seq![
                    gap_coverage(
                        old(self).scope,
                        old(self).next_sequence_no,
                        old(self).last_source_end_ms,
                        ch.start_ms,
                        "capture_interval_unavailable"@,
                    ),
                ]
            } else {
                seq![]
            }) + seq![audio_coverage(old(self).scope, seq, ch)]);
            assert(forall|i: int|
                0 <= i < self.pending_sources@.len() ==> (#[trigger] self.pending_sources@[i]).sequence_no
                    < self.next_sequence_no) by {
                assert forall|i: int| 0 <= i < self.pending_sources@.len() implies (
                #[trigger] self.pending_sources@[i]).sequence_no < self.next_sequence_no by {
                    assert(coverages_view(self.pending_sources@)[i] == self.pending_sources@[i]@);
                    if i < old(self).pending_sources@.len() {
                        assert(coverages_view(old(self).pending_sources@)[i]
                            == old(self).pending_sources@[i]@);
                    }
                }
            }
        }
        res
    }

    /// Records a gap of the source and restarts the scheduler after it. A
    /// gap that runs backwards, is empty, or starts before the timeline has
    /// reached changes nothing.
    pub fn add_gap(&mut self, start_ms: i64, end_ms: i64, reason: &str) -> (res: Result<
        (),
        ScheduleError,
    >)
        requires
            old(self).wf(),
            old(self).next_sequence_no < i64::MAX,
        ensures
            final(self).wf(),
            (start_ms < old(self).last_source_end_ms || end_ms <= start_ms) ==> {
                &&& res == Err::<(), ScheduleError>(ScheduleError::InvalidRange)
                &&& *final(self) == *old(self)
                &&& coverages_view(final(self).pending_sources@) == coverages_view(
                    old(self).pending_sources@,
                )
                &&& final(self).next_sequence_no == old(self).next_sequence_no
                &&& final(self).last_source_end_ms == old(self).last_source_end_ms
                &&& final(self).scheduler@ == old(self).scheduler@
            },
            !(start_ms < old(self).last_source_end_ms || end_ms <= start_ms) ==> {
                &&& res is Ok
                &&& coverages_view(final(self).pending_sources@) == coverages_view(
                    old(self).pending_sources@,
                ).push(
                    gap_coverage(old(self).scope, old(self).next_sequence_no, start_ms, end_ms, reason@),
                )
                &&& final(self).next_sequence_no == old(self).next_sequence_no + 1
                &&& final(self).last_source_end_ms == end_ms
                &&& final(self).scheduler@.next_sequence_no is None
                &&& final(self).scheduler@.last_end_ms is None
                &&& final(self).scheduler@.next_window_start_ms is None
                &&& final(self).scheduler@.fragments.len() == 0
                &&& final(self).scheduler@.window_ordinal == old(self).scheduler@.window_ordinal
            },
            final(self).scope == old(self).scope,
            final(self).tracker == old(self).tracker,
            final(self).pending_chunks == old(self).pending_chunks,
            final(self).retry_batch == old(self).retry_batch,
    {
        if start_ms < self.last_source_end_ms || end_ms <= start_ms {
            return Err(ScheduleError::InvalidRange);
        }
        self.push_gap(start_ms, end_ms, reason);
        self.last_source_end_ms = end_ms;
        self.scheduler.reset();
        Ok(())
    }

    /// Hands a pending slice to the scheduler again, under the coverage row
    /// it was recorded with; a slice with no such row is refused.
    pub fn replay_pending_chunk(&mut self, chunk: &RawChunk) -> (res: Result<
        WindowBatch,
        ScheduleError,
    >)
        requires
            old(self).wf(),
            chunk.end_ms <= MAX_TIMELINE_MS,
        ensures
            final(self).wf(),
            final(self).pending_sources == old(self).pending_sources,
            final(self).pending_chunks == old(self).pending_chunks,
            final(self).next_sequence_no == old(self).next_sequence_no,
            final(self).last_source_end_ms == old(self).last_source_end_ms,
            final(self).scope == old(self).scope,
            final(self).tracker == old(self).tracker,
            final(self).retry_batch == old(self).retry_batch,
            (forall|i: int|
                0 <= i < old(self).pending_sources@.len() ==> opt_chars(
                    (#[trigger] old(self).pending_sources@[i]).audio_chunk_id,
                ) != Some(chunk.chunk_id@)) ==> {
                &&& res == Err::<WindowBatch, ScheduleError>(ScheduleError::InvalidRange)
                &&& *final(self) == *old(self)
            },
            (exists|i: int|
                0 <= i < old(self).pending_sources@.len() && opt_chars(
                    (#[trigger] old(self).pending_sources@[i]).audio_chunk_id,
                ) == Some(chunk.chunk_id@)) ==> exists|i: int, f: AudioFragmentRef|
                {
                    &&& 0 <= i < old(self).pending_sources@.len()
                    &&& opt_chars(old(self).pending_sources@[i].audio_chunk_id) == Some(
                        chunk.chunk_id@,
                    )
                    &&& forall|j: int|
                        0 <= j < i ==> opt_chars(
                            (#[trigger] old(self).pending_sources@[j]).audio_chunk_id,
                        ) != Some(chunk.chunk_id@)
                    &&& f.id@ == old(self).pending_sources@[i].id@
                    &&& f.path@ == chunk.file_path@
                    &&& f.sequence_no == old(self).pending_sources@[i].sequence_no
                    &&& f.start_ms == chunk.start_ms
                    &&& f.end_ms == chunk.end_ms
                    &&& final(self).scheduler@ == push_spec(
                        old(self).scheduler@,
                        old(self).scope.track_id@,
                        f,
                    ).0
                    &&& batch_result_view(res) == push_spec(
                        old(self).scheduler@,
                        old(self).scope.track_id@,
                        f,
                    ).1
                },
    {
        let mut i: usize = 0;
        while i < self.pending_sources.len()
            invariant
                i <= self.pending_sources@.len(),
                *self == *old(self),
                self.wf(),
                chunk.end_ms <= MAX_TIMELINE_MS,
                forall|j: int|
                    0 <= j < i ==> opt_chars(
                        (#[trigger] self.pending_sources@[j]).audio_chunk_id,
                    ) != Some(chunk.chunk_id@),
            decreases self.pending_sources.len() - i,
        {
            let hit = match &self.pending_sources[i].audio_chunk_id {
                Some(id) => crate::text::str_eq(id.as_str(), chunk.chunk_id.as_str()),
                None => false,
            };
            if hit {
                let source = &self.pending_sources[i];
                let fragment = AudioFragmentRef {
                    id: source.id.clone(),
                    path: chunk.file_path.clone(),
                    sequence_no: source.sequence_no,
                    start_ms: chunk.start_ms,
                    end_ms: chunk.end_ms,
                };
                assert(self.pending_sources@[i as int].sequence_no < self.next_sequence_no);
                let ghost fv = fragment;
                let res = self.scheduler.push(self.scope.track_id.as_str(), fragment);
                assert(fv.id@ == old(self).pending_sources@[i as int].id@);
                return res;
            }
            i += 1;
        }
        Err(ScheduleError::InvalidRange)
    }
}

// ---------------------------------------------------------------------------
// Committing revisions
// ---------------------------------------------------------------------------

/// A commit candidate of a decoded window, with the coverage rows of the
/// audio it came from.
#[derive(Debug)]
pub struct RevisionCandidate {
    pub utterance_id: String,
    pub revision: u64,
    pub expected_persisted_revision: i64,
    pub hypothesis: TranscriptHypothesis,
    pub coverage_ids: Vec<String>,
}

pub struct CandidateView {
    pub id: Seq<char>,
    pub revision: u64,
    pub expected: i64,
    pub hypothesis: HypothesisView,
    pub coverage: Seq<Seq<char>>,
}

impl View for RevisionCandidate {
    type V = CandidateView;

    open spec fn view(&self) -> CandidateView {
        CandidateView {
            id: self.utterance_id@,
            revision: self.revision,
            expected: self.expected_persisted_revision,
            hypothesis: self.hypothesis@,
            coverage: strings_view(self.coverage_ids@),
        }
    }
}

pub open spec fn candidates_view(v: Seq<RevisionCandidate>) -> Seq<CandidateView> {
    v.map_values(|c: RevisionCandidate| c@)
}

/// Where the candidate for utterance `id` stands.
pub open spec fn find_candidate(cs: Seq<CandidateView>, id: Seq<char>) -> Option<int>
    decreases cs.len(),
{
    if cs.len() == 0 {
        None
    } else {
        match find_candidate(cs.drop_last(), id) {
            Some(j) => Some(j),
            None => if cs.last().id == id {
                Some(cs.len() - 1)
            } else {
                None
            },
        }
    }
}

proof fn lemma_find_candidate(cs: Seq<CandidateView>, id: Seq<char>)
    ensures
        find_candidate(cs, id) matches Some(j) ==> 0 <= j < cs.len() && cs[j].id == id,
        find_candidate(cs, id) is None ==> forall|k: int| 0 <= k < cs.len() ==> cs[k].id != id,
        find_candidate(cs, id) matches Some(j) ==> forall|k: int| 0 <= k < j ==> cs[k].id != id,
    decreases cs.len(),
{
    if cs.len() > 0 {
        let t = cs.drop_last();
        lemma_find_candidate(t, id);
        assert forall|k: int| 0 <= k < t.len() implies t[k] == cs[k] by {}
    }
}

/// A later candidate for an utterance replaces the earlier one in place.
pub open spec fn upsert_candidate(cs: Seq<CandidateView>, c: CandidateView) -> Seq<CandidateView> {
    match find_candidate(cs, c.id) {
        Some(k) => cs.update(k, c),
        None => cs.push(c),
    }
}

/// The commit candidates among a window's updates that some coverage row
/// backs, gathered into `cs`, one per utterance.
pub open spec fn gather_spec(
    cs: Seq<CandidateView>,
    w: DecodeWindowView,
    ups: Seq<UpdateView>,
) -> Seq<CandidateView>
    decreases ups.len(),
{
    if ups.len() == 0 {
        cs
    } else {
        let prev = gather_spec(cs, w, ups.drop_last());
        match ups.last() {
            UpdateView::CommitCandidate { id, revision, expected, hypothesis } => {
                let cov = coverage_spec(w.fragments, hypothesis.start_ms, hypothesis.end_ms);
                if cov.len() > 0 {
                    upsert_candidate(
                        prev,
                        CandidateView { id, revision, expected, hypothesis, coverage: cov },
                    )
                } else {
                    prev
                }
            },
            _ => prev,
        }
    }
}

fn find_candidate_exec(cs: &Vec<RevisionCandidate>, id: &str) -> (res: Option<usize>)
    ensures
        match res {
            Some(r) => find_candidate(candidates_view(cs@), id@) == Some(r as int),
            None => find_candidate(candidates_view(cs@), id@) is None,
        },
{
    let ghost cv = candidates_view(cs@);
    proof {
        lemma_find_candidate(cv, id@);
    }
    let mut i: usize = 0;
    while i < cs.len()
        invariant
            i <= cs.len(),
            cv == candidates_view(cs@),
            forall|k: int| 0 <= k < i ==> cv[k].id != id@,
            find_candidate(cv, id@) matches Some(j) ==> 0 <= j < cv.len() && cv[j].id == id@
                && forall|k: int| 0 <= k < j ==> cv[k].id != id@,
            find_candidate(cv, id@) is None ==> forall|k: int| 0 <= k < cv.len() ==> cv[k].id != id@,
        decreases cs.len() - i,
    {
        assert(cv[i as int] == cs@[i as int]@);
        if str_eq(cs[i].utterance_id.as_str(), id) {
            return Some(i);
        }
        i += 1;
    }
    None
}

/// Gathers the commit candidates of one window's updates into
/// `candidates`: each needs a coverage row of the window under its time,
/// and a later one for the same utterance replaces the earlier.
pub fn gather_revision_candidates(
    candidates: &mut Vec<RevisionCandidate>,
    window: &DecodeWindow,
    updates: &Vec<TranscriptUpdate>,
)
    ensures
        candidates_view(final(candidates)@) == gather_spec(
            candidates_view(old(candidates)@),
            window@,
            updates_view(updates@),
        ),
{
    let ghost c0 = candidates_view(candidates@);
    let ghost uv = updates_view(updates@);
    let mut i: usize = 0;
    while i < updates.len()
        invariant
            i <= updates.len(),
            uv == updates_view(updates@),
            candidates_view(candidates@) == gather_spec(c0, window@, uv.take(i as int)),
        decreases updates.len() - i,
    {
        assert(uv.take(i + 1).drop_last() =~= uv.take(i as int));
        assert(uv.take(i + 1).last() == updates@[i as int]@);
        match &updates[i] {
            TranscriptUpdate::CommitCandidate {
                utterance_id,
                revision,
                expected_persisted_revision,
                hypothesis,
            } => {
                let cov = window_coverage_for_range(window, hypothesis.start_ms, hypothesis.end_ms);
                if cov.len() > 0 {
                    let c = RevisionCandidate {
                        utterance_id: utterance_id.clone(),
                        revision: *revision,
                        expected_persisted_revision: *expected_persisted_revision,
                        hypothesis: hypothesis.clone_hypothesis(),
                        coverage_ids: cov,
                    };
                    let ghost cv = c@;
                    let ghost before = candidates_view(candidates@);
                    match find_candidate_exec(candidates, utterance_id.as_str()) {
                        Some(k) => {
                            proof {
                                lemma_find_candidate(before, utterance_id@);
                            }
                            assert(before.len() == candidates@.len());
                            candidates.set(k, c);
                            assert(candidates_view(candidates@) =~= before.update(k as int, cv));
                        },
                        None => {
                            candidates.push(c);
                            assert(candidates_view(candidates@) =~= before.push(cv));
                        },
                    }
                }
            },
            _ => {},
        }
        i += 1;
    }
    assert(uv.take(updates.len() as int) =~= uv);
}

/// Gathering never holds two candidates for one utterance.
pub open spec fn unique_candidates(cs: Seq<CandidateView>) -> bool {
    forall|i: int, j: int| 0 <= i < j < cs.len() ==> cs[i].id != cs[j].id
}

proof fn lemma_upsert_unique(cs: Seq<CandidateView>, c: CandidateView)
    requires
        unique_candidates(cs),
    ensures
        unique_candidates(upsert_candidate(cs, c)),
{
    lemma_find_candidate(cs, c.id);
}

/// Candidates gathered window after window stay one per utterance.
pub proof fn law_gathered_candidates_are_unique(
    cs: Seq<CandidateView>,
    w: DecodeWindowView,
    ups: Seq<UpdateView>,
)
    requires
        unique_candidates(cs),
    ensures
        unique_candidates(gather_spec(cs, w, ups)),
    decreases ups.len(),
{
    if ups.len() > 0 {
        law_gathered_candidates_are_unique(cs, w, ups.drop_last());
        let prev = gather_spec(cs, w, ups.drop_last());
        if let UpdateView::CommitCandidate { id, revision, expected, hypothesis } = ups.last() {
            let cov = coverage_spec(w.fragments, hypothesis.start_ms, hypothesis.end_ms);
            lemma_upsert_unique(
                prev,
                CandidateView { id, revision, expected, hypothesis, coverage: cov },
            );
        }
    }
}

/// Most coverage rows one commit may carry.
pub const MAX_BATCH_SOURCES: usize = 64;

/// The pending coverage rows up to and including number `through`.
pub open spec fn sources_through(s: Seq<CoverageView>, through: i64) -> Seq<CoverageView>
    decreases s.len(),
{
    if s.len() == 0 {
        seq![]
    } else if s.last().sequence_no <= through {
        sources_through(s.drop_last(), through).push(s.last())
    } else {
        sources_through(s.drop_last(), through)
    }
}

/// The candidates whose expected persisted revision can be advanced.
pub open spec fn persistable(cs: Seq<CandidateView>) -> Seq<CandidateView>
    decreases cs.len(),
{
    if cs.len() == 0 {
        seq![]
    } else if cs.last().expected >= 0 {
        persistable(cs.drop_last()).push(cs.last())
    } else {
        persistable(cs.drop_last())
    }
}

/// Candidates are committed in source-time order, then by utterance id.
pub open spec fn candidate_le(a: CandidateView, b: CandidateView) -> bool {
    a.hypothesis.start_ms < b.hypothesis.start_ms || (a.hypothesis.start_ms
        == b.hypothesis.start_ms && !chars_lt(b.id, a.id))
}

/// Inserts `x` after every candidate that does not sort after it.
pub open spec fn insert_candidate(s: Seq<CandidateView>, x: CandidateView) -> Seq<CandidateView>
    decreases s.len(),
{
    if s.len() == 0 {
        seq![x]
    } else if candidate_le(s.last(), x) {
        s.push(x)
    } else {
        insert_candidate(s.drop_last(), x).push(s.last())
    }
}

/// Stable sort by `(start_ms, utterance_id)`.
pub open spec fn sort_candidates(s: Seq<CandidateView>) -> Seq<CandidateView>
    decreases s.len(),
{
    if s.len() == 0 {
        seq![]
    } else {
        insert_candidate(sort_candidates(s.drop_last()), s.last())
    }
}

/// The coverage rows and the revisions of one commit, with the ids it is
/// written under: one for the operation and one per revision, kept so that
/// a failed commit is retried as the same request.
#[derive(Debug)]
pub struct RevisionBatch {
    pub operation_id: String,
    pub sources: Vec<SourceCoverageInput>,
    pub candidates: Vec<RevisionCandidate>,
    pub revision_ids: Vec<String>,
}

/// A fresh random id (`uuid::Uuid::new_v4`, as text). It is random, so
/// nothing is promised of it but the hyphenated form's length.
#[verifier::external_body]
pub(crate) fn new_uuid() -> (id: String)
    ensures
        id@.len() == 36,
{
    uuid::Uuid::new_v4().to_string()
}

fn clone_coverage(c: &SourceCoverageInput) -> (out: SourceCoverageInput)
    ensures
        out@ == c@,
{
    SourceCoverageInput {
        id: c.id.clone(),
        source_session_id: c.source_session_id.clone(),
        track_id: c.track_id.clone(),
        source_generation: c.source_generation,
        sequence_no: c.sequence_no,
        start_ms: c.start_ms,
        end_ms: c.end_ms,
        kind: c.kind,
        audio_chunk_id: crate::text::copy_opt_string(&c.audio_chunk_id),
        file_path: crate::text::copy_opt_string(&c.file_path),
        byte_size: c.byte_size,
        checksum: crate::text::copy_opt_string(&c.checksum),
        gap_reason: crate::text::copy_opt_string(&c.gap_reason),
    }
}

fn candidate_le_exec(a: &RevisionCandidate, b: &RevisionCandidate) -> (res: bool)
    ensures
        res == candidate_le(a@, b@),
{
    a.hypothesis.start_ms < b.hypothesis.start_ms || (a.hypothesis.start_ms
        == b.hypothesis.start_ms && !str_lt(b.utterance_id.as_str(), a.utterance_id.as_str()))
}

proof fn lemma_insert_candidate_at(s: Seq<CandidateView>, x: CandidateView, i: int)
    requires
        0 <= i <= s.len(),
        i == 0 || candidate_le(s[i - 1], x),
        forall|k: int| i <= k < s.len() ==> !candidate_le(#[trigger] s[k], x),
    ensures
        insert_candidate(s, x) == s.insert(i, x),
    decreases s.len(),
{
    if s.len() == 0 {
        assert(s.insert(i, x) =~= seq![x]);
    } else if i == s.len() {
        assert(s.insert(i, x) =~= s.push(x));
    } else {
        let p = s.drop_last();
        assert(!candidate_le(s[s.len() - 1], x));
        assert forall|k: int| i <= k < p.len() implies !candidate_le(#[trigger] p[k], x) by {
            assert(p[k] == s[k]);
        }
        if i > 0 {
            assert(p[i - 1] == s[i - 1]);
        }
        lemma_insert_candidate_at(p, x, i);
        assert(p.insert(i, x).push(s.last()) =~= s.insert(i, x));
    }
}

fn insert_candidate_exec(v: &mut Vec<RevisionCandidate>, x: RevisionCandidate)
    ensures
        candidates_view(final(v)@) == insert_candidate(candidates_view(old(v)@), x@),
{
    let ghost s = candidates_view(v@);
    let mut i: usize = v.len();
    while i > 0 && !candidate_le_exec(&v[i - 1], &x)
        invariant
            i <= v.len(),
            s == candidates_view(v@),
            forall|k: int| i <= k < s.len() ==> !candidate_le(#[trigger] s[k], x@),
        decreases i,
    {
        assert(s[i - 1] == v@[i - 1]@);
        i -= 1;
    }
    if i > 0 {
        assert(s[i - 1] == v@[i - 1]@);
    }
    proof {
        lemma_insert_candidate_at(s, x@, i as int);
    }
    let ghost xv = x@;
    v.insert(i, x);
    assert(candidates_view(v@) =~= s.insert(i as int, xv));
}

/// `res` is what planning a commit gives for these pending rows and
/// candidates: nothing with no rows due, an error with more rows than one
/// commit may carry, and otherwise the rows due and the candidates that
/// can be advanced, in order, each with an id.
pub open spec fn is_plan(
    res: Result<Option<RevisionBatch>, String>,
    pending: Seq<CoverageView>,
    candidates: Seq<CandidateView>,
    through: i64,
) -> bool {
    let srcs = sources_through(pending, through);
    if srcs.len() == 0 {
        res is Ok && res->Ok_0 is None
    } else if srcs.len() > MAX_BATCH_SOURCES {
        res is Err && res->Err_0@ == "revisioned source batch exceeded the 64-source bound"@
    } else {
        &&& res is Ok
        &&& res->Ok_0 is Some
        &&& coverages_view(res->Ok_0->0.sources@) == srcs
        &&& candidates_view(res->Ok_0->0.candidates@) == sort_candidates(persistable(candidates))
        &&& res->Ok_0->0.revision_ids@.len() == res->Ok_0->0.candidates@.len()
        &&& res->Ok_0->0.operation_id@.len() == 36
        &&& forall|k: int|
            0 <= k < res->Ok_0->0.revision_ids@.len() ==> (#[trigger] res->Ok_0->0.revision_ids@[k])@.len()
                == 36
    }
}

/// What the next commit of a track carries: the pending coverage rows up to
/// number `through_sequence`, and the candidates whose revision can be
/// advanced, in source-time order. No rows means nothing to commit; more
/// rows than one commit may carry is an error.
pub fn plan_revision_batch(
    pending_sources: &Vec<SourceCoverageInput>,
    candidates: Vec<RevisionCandidate>,
    through_sequence: i64,
) -> (res: Result<Option<RevisionBatch>, String>)
    ensures
        is_plan(res, coverages_view(pending_sources@), candidates_view(candidates@), through_sequence),
{
    let ghost pv = coverages_view(pending_sources@);
    let mut sources: Vec<SourceCoverageInput> = Vec::new();
    let mut i: usize = 0;
    while i < pending_sources.len()
        invariant
            i <= pending_sources.len(),
            pv == coverages_view(pending_sources@),
            coverages_view(sources@) == sources_through(pv.take(i as int), through_sequence),
        decreases pending_sources.len() - i,
    {
        assert(pv.take(i + 1).drop_last() =~= pv.take(i as int));
        assert(pv.take(i + 1).last() == pending_sources@[i as int]@);
        if pending_sources[i].sequence_no <= through_sequence {
            let ghost before = coverages_view(sources@);
            let row = clone_coverage(&pending_sources[i]);
            sources.push(row);
            assert(coverages_view(sources@) =~= before.push(pending_sources@[i as int]@));
        }
        i += 1;
    }
    assert(pv.take(pending_sources.len() as int) =~= pv);
    if sources.len() == 0 {
        return Ok(None);
    }
    if sources.len() > MAX_BATCH_SOURCES {
        return Err(copy_string("revisioned source batch exceeded the 64-source bound"));
    }
    let ghost cv = candidates_view(candidates@);
    let total = candidates.len();
    let mut kept: Vec<RevisionCandidate> = Vec::new();
    let mut rest = candidates;
    let mut n: usize = 0;
    while rest.len() > 0
        invariant
            n + rest@.len() == total,
            total == cv.len(),
            candidates_view(rest@) == cv.skip(n as int),
            candidates_view(kept@) == sort_candidates(persistable(cv.take(n as int))),
        decreases rest.len(),
    {
        let ghost r0 = candidates_view(rest@);
        let c = rest.remove(0);
        assert(c@ == r0[0]);
        assert(r0[0] == cv[n as int]);
        assert(candidates_view(rest@) =~= r0.drop_first());
        assert(cv.skip(n + 1) =~= r0.drop_first());
        assert(cv.take(n + 1).drop_last() =~= cv.take(n as int));
        assert(cv.take(n + 1).last() == c@);
        let ghost p0 = persistable(cv.take(n as int));
        let ghost cw = c@;
        if c.expected_persisted_revision >= 0 {
            insert_candidate_exec(&mut kept, c);
            assert(persistable(cv.take(n + 1)) == p0.push(cw));
            assert(p0.push(cw).drop_last() =~= p0);
        } else {
            assert(persistable(cv.take(n + 1)) == p0);
        }
        n += 1;
    }
    assert(cv.take(n as int) =~= cv);
    let operation_id = new_uuid();
    let mut revision_ids: Vec<String> = Vec::new();
    let mut r: usize = 0;
    while r < kept.len()
        invariant
            r <= kept.len(),
            revision_ids@.len() == r,
            forall|k: int| 0 <= k < r ==> (#[trigger] revision_ids@[k])@.len() == 36,
        decreases kept.len() - r,
    {
        revision_ids.push(new_uuid());
        r += 1;
    }
    Ok(Some(RevisionBatch { operation_id, sources, candidates: kept, revision_ids }))
}

/// The revision a transcript event supersedes: the one before it, when it
/// has one.
pub fn superseded_revision(revision: Option<u64>) -> (res: Option<u64>)
    ensures
        res == match revision {
            Some(r) => if r > 1 {
                Some((r - 1) as u64)
            } else {
                None
            },
            None => None,
        },
{
    match revision {
        Some(r) => if r > 1 {
            Some(r - 1)
        } else {
            None
        },
        None => None,
    }
}

/// How a track's transcript events are attributed: the label shown and the
/// speaker cluster, by capture channel.
pub fn track_attribution(track_id: &str) -> (res: (&'static str, &'static str))
    ensures
        track_id@ == CHANNEL_MIC@ ==> res.0@ == "ไมโครโฟน"@ && res.1@ == "mic"@,
        track_id@ != CHANNEL_MIC@ ==> res.0@ == "เสียงระบบ"@ && res.1@ == "system"@,
{
    if str_eq(track_id, CHANNEL_MIC) {
        ("ไมโครโฟน", "mic")
    } else {
        ("เสียงระบบ", "system")
    }
}

/// The numbers a committed candidate is written with: its revision follows
/// the expected persisted one, which it supersedes when there is one.
pub struct RevisionNumbers {
    pub revision: i64,
    pub supersedes_revision: Option<i64>,
    pub expected_revision: Option<i64>,
}

pub fn revision_numbers(expected_persisted_revision: i64) -> (res: RevisionNumbers)
    requires
        expected_persisted_revision < i64::MAX,
    ensures
        res.revision == expected_persisted_revision + 1,
        res.supersedes_revision == if res.revision > 1 {
            Some(expected_persisted_revision)
        } else {
            None
        },
        res.expected_revision == Some(expected_persisted_revision),
{
    let revision = expected_persisted_revision + 1;
    RevisionNumbers {
        revision,
        supersedes_revision: if revision > 1 {
            Some(revision - 1)
        } else {
            None
        },
        expected_revision: Some(expected_persisted_revision),
    }
}

/// The tracked utterances after each candidate of a commit is recorded at
/// the revision after its expected one; a refused record changes nothing.
pub open spec fn mark_all(us: Seq<TrackedView>, cs: Seq<CandidateView>) -> Seq<TrackedView>
    decreases cs.len(),
{
    if cs.len() == 0 {
        us
    } else {
        let u = mark_all(us, cs.drop_last());
        let c = cs.last();
        match commit_spec(u, c.id, (c.expected + 1) as i64, c.hypothesis.text) {
            Ok(u2) => u2,
            Err(_) => u,
        }
    }
}

/// Some row of the commit has this id.
pub open spec fn covered_by(batch: Seq<CoverageView>, id: Seq<char>) -> bool {
    exists|j: int| 0 <= j < batch.len() && (#[trigger] batch[j]).id == id
}

/// Some row of the commit holds this slice.
pub open spec fn audio_in(batch: Seq<CoverageView>, chunk_id: Seq<char>) -> bool {
    exists|j: int| 0 <= j < batch.len() && (#[trigger] batch[j]).audio_chunk_id == Some(chunk_id)
}

/// The pending rows a commit did not carry.
pub open spec fn keep_sources(ps: Seq<CoverageView>, batch: Seq<CoverageView>) -> Seq<CoverageView>
    decreases ps.len(),
{
    if ps.len() == 0 {
        seq![]
    } else if covered_by(batch, ps.last().id) {
        keep_sources(ps.drop_last(), batch)
    } else {
        keep_sources(ps.drop_last(), batch).push(ps.last())
    }
}

/// The pending slices a commit did not carry.
pub open spec fn keep_chunks(cs: Seq<RawChunk>, batch: Seq<CoverageView>) -> Seq<RawChunk>
    decreases cs.len(),
{
    if cs.len() == 0 {
        seq![]
    } else if audio_in(batch, cs.last().chunk_id@) {
        keep_chunks(cs.drop_last(), batch)
    } else {
        keep_chunks(cs.drop_last(), batch).push(cs.last())
    }
}

fn covered_exec(batch: &Vec<SourceCoverageInput>, id: &str) -> (res: bool)
    ensures
        res == covered_by(coverages_view(batch@), id@),
{
    let ghost bv = coverages_view(batch@);
    let mut j: usize = 0;
    while j < batch.len()
        invariant
            j <= batch.len(),
            bv == coverages_view(batch@),
            forall|k: int| 0 <= k < j ==> (#[trigger] bv[k]).id != id@,
        decreases batch.len() - j,
    {
        assert(bv[j as int] == batch@[j as int]@);
        if str_eq(batch[j].id.as_str(), id) {
            return true;
        }
        j += 1;
    }
    false
}

fn audio_in_exec(batch: &Vec<SourceCoverageInput>, chunk_id: &str) -> (res: bool)
    ensures
        res == audio_in(coverages_view(batch@), chunk_id@),
{
    let ghost bv = coverages_view(batch@);
    let mut j: usize = 0;
    while j < batch.len()
        invariant
            j <= batch.len(),
            bv == coverages_view(batch@),
            forall|k: int| 0 <= k < j ==> (#[trigger] bv[k]).audio_chunk_id != Some(chunk_id@),
        decreases batch.len() - j,
    {
        assert(bv[j as int] == batch@[j as int]@);
        let hit = match &batch[j].audio_chunk_id {
            Some(a) => str_eq(a.as_str(), chunk_id),
            None => false,
        };
        if hit {
            return true;
        }
        j += 1;
    }
    false
}

fn clone_chunk(c: &RawChunk) -> (out: RawChunk)
    ensures
        out == *c,
{
    RawChunk {
        channel: c.channel,
        chunk_id: c.chunk_id.clone(),
        file_path: c.file_path.clone(),
        start_ms: c.start_ms,
        end_ms: c.end_ms,
        byte_size: c.byte_size,
        checksum: c.checksum.clone(),
    }
}

impl RevisionedTrack {
    /// After a commit went through: each of its candidates is recorded in
    /// the tracker at the revision after its expected one, and the rows and
    /// slices it carried are no longer pending.
    pub fn settle_committed_batch(&mut self, batch: &RevisionBatch)
        requires
            old(self).wf(),
            forall|k: int|
                0 <= k < batch.candidates@.len()
                    ==> (#[trigger] batch.candidates@[k]).expected_persisted_revision < i64::MAX,
        ensures
            final(self).wf(),
            final(self).tracker@.utterances == mark_all(
                old(self).tracker@.utterances,
                candidates_view(batch.candidates@),
            ),
            final(self).tracker@.window_ordinal == old(self).tracker@.window_ordinal,
            coverages_view(final(self).pending_sources@) == keep_sources(
                coverages_view(old(self).pending_sources@),
                coverages_view(batch.sources@),
            ),
            final(self).pending_chunks@ == keep_chunks(
                old(self).pending_chunks@,
                coverages_view(batch.sources@),
            ),
            final(self).scope == old(self).scope,
            final(self).scheduler == old(self).scheduler,
            final(self).next_sequence_no == old(self).next_sequence_no,
            final(self).last_source_end_ms == old(self).last_source_end_ms,
            final(self).retry_batch is None,
    {
        let ghost cv = candidates_view(batch.candidates@);
        let ghost u0 = self.tracker@.utterances;
        let mut i: usize = 0;
        while i < batch.candidates.len()
            invariant
                i <= batch.candidates.len(),
                cv == candidates_view(batch.candidates@),
                forall|k: int|
                    0 <= k < batch.candidates@.len()
                        ==> (#[trigger] batch.candidates@[k]).expected_persisted_revision
                        < i64::MAX,
                self.tracker.wf(),
                self.tracker@.utterances == mark_all(u0, cv.take(i as int)),
                self.tracker@.window_ordinal == old(self).tracker@.window_ordinal,
                self.scope == old(self).scope,
                self.scheduler == old(self).scheduler,
                self.next_sequence_no == old(self).next_sequence_no,
                self.last_source_end_ms == old(self).last_source_end_ms,
                self.pending_sources == old(self).pending_sources,
                self.pending_chunks == old(self).pending_chunks,
            decreases batch.candidates.len() - i,
        {
            assert(cv.take(i + 1).drop_last() =~= cv.take(i as int));
            assert(cv.take(i + 1).last() == batch.candidates@[i as int]@);
            let c = &batch.candidates[i];
            let _ = self.tracker.mark_committed(
                c.utterance_id.as_str(),
                c.expected_persisted_revision + 1,
                c.hypothesis.text.as_str(),
            );
            i += 1;
        }
        assert(cv.take(batch.candidates.len() as int) =~= cv);
        let ghost bv = coverages_view(batch.sources@);
        let ghost pv = coverages_view(self.pending_sources@);
        let mut sources: Vec<SourceCoverageInput> = Vec::new();
        let mut j: usize = 0;
        while j < self.pending_sources.len()
            invariant
                j <= self.pending_sources.len(),
                pv == coverages_view(self.pending_sources@),
                bv == coverages_view(batch.sources@),
                coverages_view(sources@) == keep_sources(pv.take(j as int), bv),
                forall|k: int|
                    0 <= k < sources@.len() ==> (#[trigger] sources@[k]).sequence_no
                        < self.next_sequence_no,
                self.wf(),
            decreases self.pending_sources.len() - j,
        {
            assert(pv.take(j + 1).drop_last() =~= pv.take(j as int));
            assert(pv.take(j + 1).last() == self.pending_sources@[j as int]@);
            let row = &self.pending_sources[j];
            if !covered_exec(&batch.sources, row.id.as_str()) {
                let ghost before = sources@;
                sources.push(clone_coverage(row));
                assert(coverages_view(sources@) =~= coverages_view(before).push(row@));
                assert(sources@[sources@.len() - 1].sequence_no == row.sequence_no);
                assert(forall|k: int| 0 <= k < before.len() ==> sources@[k] == before[k]);
            }
            j += 1;
        }
        assert(pv.take(self.pending_sources.len() as int) =~= pv);
        self.pending_sources = sources;
        let ghost chs = self.pending_chunks@;
        let mut chunks: Vec<RawChunk> = Vec::new();
        let mut m: usize = 0;
        while m < self.pending_chunks.len()
            invariant
                m <= self.pending_chunks.len(),
                chs == self.pending_chunks@,
                bv == coverages_view(batch.sources@),
                chunks@ == keep_chunks(chs.take(m as int), bv),
            decreases self.pending_chunks.len() - m,
        {
            assert(chs.take(m + 1).drop_last() =~= chs.take(m as int));
            assert(chs.take(m + 1).last() == self.pending_chunks@[m as int]);
            let ch = &self.pending_chunks[m];
            if !audio_in_exec(&batch.sources, ch.chunk_id.as_str()) {
                chunks.push(clone_chunk(ch));
            }
            m += 1;
        }
        assert(chs.take(self.pending_chunks.len() as int) =~= chs);
        self.pending_chunks = chunks;
        self.retry_batch = None;
    }

    /// The commit to attempt next: a held one unchanged, otherwise a new
    /// plan over the pending rows up to `through_sequence`.
    pub fn take_or_plan_batch(
        &mut self,
        candidates: Vec<RevisionCandidate>,
        through_sequence: i64,
    ) -> (res: Result<Option<RevisionBatch>, String>)
        requires
            old(self).wf(),
        ensures
            final(self).wf(),
            final(self).retry_batch is None,
            old(self).retry_batch is Some ==> res is Ok && res->Ok_0 == old(self).retry_batch,
            old(self).retry_batch is None ==> is_plan(
                res,
                coverages_view(old(self).pending_sources@),
                candidates_view(candidates@),
                through_sequence,
            ),
            final(self).pending_sources == old(self).pending_sources,
            final(self).pending_chunks == old(self).pending_chunks,
            final(self).tracker == old(self).tracker,
            final(self).scheduler == old(self).scheduler,
            final(self).scope == old(self).scope,
            final(self).next_sequence_no == old(self).next_sequence_no,
            final(self).last_source_end_ms == old(self).last_source_end_ms,
    {
        match self.retry_batch.take() {
            Some(batch) => Ok(Some(batch)),
            None => plan_revision_batch(&self.pending_sources, candidates, through_sequence),
        }
    }

    /// Keeps a commit that failed, to be retried unchanged.
    pub fn hold_for_retry(&mut self, batch: RevisionBatch)
        requires
            old(self).wf(),
        ensures
            final(self).wf(),
            final(self).retry_batch == Some(batch),
            final(self).pending_sources == old(self).pending_sources,
            final(self).pending_chunks == old(self).pending_chunks,
            final(self).tracker == old(self).tracker,
            final(self).scheduler == old(self).scheduler,
            final(self).scope == old(self).scope,
            final(self).next_sequence_no == old(self).next_sequence_no,
            final(self).last_source_end_ms == old(self).last_source_end_ms,
    {
        self.retry_batch = Some(batch);
    }
}

proof fn lemma_insert_bounded(s: Seq<CandidateView>, x: CandidateView, b: i64)
    requires
        forall|k: int| 0 <= k < s.len() ==> (#[trigger] s[k]).hypothesis.start_ms <= b,
        x.hypothesis.start_ms <= b,
    ensures
        forall|k: int|
            0 <= k < insert_candidate(s, x).len() ==> (#[trigger] insert_candidate(
                s,
                x,
            )[k]).hypothesis.start_ms <= b,
        insert_candidate(s, x).len() == s.len() + 1,
    decreases s.len(),
{
    if s.len() > 0 && !candidate_le(s.last(), x) {
        let p = s.drop_last();
        assert forall|k: int| 0 <= k < p.len() implies (#[trigger] p[k]).hypothesis.start_ms
            <= b by {
            assert(p[k] == s[k]);
        }
        lemma_insert_bounded(p, x, b);
        let r = insert_candidate(p, x);
        assert forall|k: int| 0 <= k < r.len() + 1 implies (#[trigger] r.push(
            s.last(),
        )[k]).hypothesis.start_ms <= b by {
            if k < r.len() {
                assert(r.push(s.last())[k] == r[k]);
            }
        }
    }
}

pub open spec fn in_time_order(s: Seq<CandidateView>) -> bool {
    forall|i: int, j: int|
        0 <= i < j < s.len() ==> s[i].hypothesis.start_ms <= s[j].hypothesis.start_ms
}

proof fn lemma_insert_sorted(s: Seq<CandidateView>, x: CandidateView)
    requires
        in_time_order(s),
    ensures
        in_time_order(insert_candidate(s, x)),
    decreases s.len(),
{
    if s.len() > 0 {
        let p = s.drop_last();
        if candidate_le(s.last(), x) {
            let r = s.push(x);
            assert forall|i: int, j: int| 0 <= i < j < r.len() implies r[i].hypothesis.start_ms
                <= r[j].hypothesis.start_ms by {
                if j == s.len() {
                    if i < s.len() - 1 {
                        assert(s[i].hypothesis.start_ms <= s[s.len() - 1].hypothesis.start_ms);
                    }
                }
            }
        } else {
            assert(in_time_order(p)) by {
                assert forall|i: int, j: int| 0 <= i < j < p.len() implies p[i].hypothesis.start_ms
                    <= p[j].hypothesis.start_ms by {
                    assert(p[i] == s[i] && p[j] == s[j]);
                }
            }
            lemma_insert_sorted(p, x);
            let last = s.last();
            assert forall|k: int| 0 <= k < p.len() implies (#[trigger] p[k]).hypothesis.start_ms
                <= last.hypothesis.start_ms by {
                assert(p[k] == s[k]);
            }
            lemma_insert_bounded(p, x, last.hypothesis.start_ms);
            let q = insert_candidate(p, x);
            let r = q.push(last);
            assert forall|i: int, j: int| 0 <= i < j < r.len() implies r[i].hypothesis.start_ms
                <= r[j].hypothesis.start_ms by {
                if j == q.len() {
                    assert(r[i] == q[i]);
                } else {
                    assert(r[i] == q[i] && r[j] == q[j]);
                }
            }
        }
    }
}

/// The revisions of a commit are written in source-time order.
pub proof fn law_batch_in_source_time_order(cs: Seq<CandidateView>)
    ensures
        in_time_order(sort_candidates(cs)),
    decreases cs.len(),
{
    if cs.len() > 0 {
        law_batch_in_source_time_order(cs.drop_last());
        lemma_insert_sorted(sort_candidates(cs.drop_last()), cs.last());
    }
}

/// Settling a commit leaves pending exactly the rows it did not carry.
pub proof fn law_settled_rows_are_those_not_carried(
    ps: Seq<CoverageView>,
    batch: Seq<CoverageView>,
)
    ensures
        forall|k: int|
            0 <= k < keep_sources(ps, batch).len() ==> !covered_by(
                batch,
                (#[trigger] keep_sources(ps, batch)[k]).id,
            ),
        forall|k: int|
            0 <= k < ps.len() && !covered_by(batch, (#[trigger] ps[k]).id) ==> keep_sources(
                ps,
                batch,
            ).contains(ps[k]),
    decreases ps.len(),
{
    if ps.len() > 0 {
        let p = ps.drop_last();
        law_settled_rows_are_those_not_carried(p, batch);
        let k0 = keep_sources(p, batch);
        let k1 = keep_sources(ps, batch);
        assert forall|k: int| 0 <= k < k1.len() implies !covered_by(
            batch,
            (#[trigger] k1[k]).id,
        ) by {
            if k < k0.len() {
                assert(k1[k] == k0[k]);
            }
        }
        assert forall|k: int| 0 <= k < ps.len() && !covered_by(batch, (#[trigger] ps[k]).id)
            implies k1.contains(ps[k]) by {
            if k < p.len() {
                assert(p[k] == ps[k]);
                let w = choose|w: int| 0 <= w < k0.len() && k0[w] == p[k];
                assert(k1[w] == k0[w]);
            } else {
                assert(k1[k1.len() - 1] == ps[k]);
            }
        }
    }
}

// ---------------------------------------------------------------------------
// Slices still without text
// ---------------------------------------------------------------------------

pub struct ChunkView {
    pub channel: Seq<char>,
    pub chunk_id: Seq<char>,
    pub file_path: Seq<char>,
    pub start_ms: i64,
    pub end_ms: i64,
    pub byte_size: i64,
    pub checksum: Seq<char>,
}

impl View for RawChunk {
    type V = ChunkView;

    open spec fn view(&self) -> ChunkView {
        ChunkView {
            channel: self.channel@,
            chunk_id: self.chunk_id@,
            file_path: self.file_path@,
            start_ms: self.start_ms,
            end_ms: self.end_ms,
            byte_size: self.byte_size,
            checksum: self.checksum@,
        }
    }
}

pub open spec fn chunks_view(v: Seq<RawChunk>) -> Seq<ChunkView> {
    v.map_values(|c: RawChunk| c@)
}

/// A row of the slice ledger as read, with `transcribed` set when the
/// transcriber has already seen the slice.
#[derive(Debug)]
pub struct ChunkRow {
    pub id: String,
    pub file_path: String,
    pub start_ms: i64,
    pub end_ms: i64,
    pub byte_size: i64,
    pub checksum: String,
    pub transcribed: bool,
}

/// The speaker and start of a transcript segment, as read.
#[derive(Debug)]
pub struct SegmentMark {
    pub speaker_id: String,
    pub start_ms: i64,
}

/// The capture channel of a slice, from its file name.
pub open spec fn path_channel(style: PathStyle, path: Seq<char>) -> Option<Seq<char>> {
    match crate::paths::file_name_spec(style, path) {
        Some(n) => channel_for_file_name_spec(n),
        None => None,
    }
}

/// The speaker key of a capture channel.
pub open spec fn channel_speaker_key(channel: Seq<char>) -> Seq<char> {
    if channel == CHANNEL_MIC@ {
        "me"@
    } else {
        "them"@
    }
}

/// Some segment of `speaker` starts inside the slice `[start, end)`, a
/// slice of no length counting as one millisecond.
pub open spec fn has_text(segs: Seq<SegmentMark>, speaker: Seq<char>, start: i64, end: i64) -> bool {
    exists|k: int|
        0 <= k < segs.len() && (#[trigger] segs[k]).speaker_id@ == speaker && segs[k].start_ms
            >= start && segs[k].start_ms < (if end >= start + 1 {
            end as int
        } else {
            start + 1
        })
}

/// The slices still without text, in ledger order: a capture slice whose
/// file is present (`present`), not yet seen by the transcriber, and with
/// no segment of its channel's speaker starting inside it.
pub open spec fn missing_rows(
    project_id: Seq<char>,
    segs: Seq<SegmentMark>,
    rows: Seq<ChunkRow>,
    present: Seq<bool>,
    style: PathStyle,
) -> Seq<ChunkView>
    decreases rows.len(),
{
    if rows.len() == 0 {
        seq![]
    } else {
        let prev = missing_rows(project_id, segs, rows.drop_last(), present, style);
        let r = rows.last();
        match path_channel(style, r.file_path@) {
            None => prev,
            Some(ch) => if !present[rows.len() - 1] || r.transcribed || has_text(
                segs,
                speaker_id_spec(project_id, channel_speaker_key(ch)),
                r.start_ms,
                r.end_ms,
            ) {
                prev
            } else {
                prev.push(
                    ChunkView {
                        channel: ch,
                        chunk_id: r.id@,
                        file_path: r.file_path@,
                        start_ms: r.start_ms,
                        end_ms: r.end_ms,
                        byte_size: r.byte_size,
                        checksum: r.checksum@,
                    },
                )
            },
        }
    }
}

/// Slices are taken by start, the microphone's before the system's.
pub open spec fn slice_le(a: ChunkView, b: ChunkView) -> bool {
    a.start_ms < b.start_ms || (a.start_ms == b.start_ms && (a.channel == CHANNEL_MIC@
        || b.channel != CHANNEL_MIC@))
}

pub open spec fn insert_slice(s: Seq<ChunkView>, x: ChunkView) -> Seq<ChunkView>
    decreases s.len(),
{
    if s.len() == 0 {
        seq![x]
    } else if slice_le(s.last(), x) {
        s.push(x)
    } else {
        insert_slice(s.drop_last(), x).push(s.last())
    }
}

/// Stable sort by `(start_ms, channel)`.
pub open spec fn sort_slices(s: Seq<ChunkView>) -> Seq<ChunkView>
    decreases s.len(),
{
    if s.len() == 0 {
        seq![]
    } else {
        insert_slice(sort_slices(s.drop_last()), s.last())
    }
}

proof fn lemma_insert_slice_at(s: Seq<ChunkView>, x: ChunkView, i: int)
    requires
        0 <= i <= s.len(),
        i == 0 || slice_le(s[i - 1], x),
        forall|k: int| i <= k < s.len() ==> !slice_le(#[trigger] s[k], x),
    ensures
        insert_slice(s, x) == s.insert(i, x),
    decreases s.len(),
{
    if s.len() == 0 {
        assert(s.insert(i, x) =~= seq![x]);
    } else if i == s.len() {
        assert(s.insert(i, x) =~= s.push(x));
    } else {
        let p = s.drop_last();
        assert(!slice_le(s[s.len() - 1], x));
        assert forall|k: int| i <= k < p.len() implies !slice_le(#[trigger] p[k], x) by {
            assert(p[k] == s[k]);
        }
        if i > 0 {
            assert(p[i - 1] == s[i - 1]);
        }
        lemma_insert_slice_at(p, x, i);
        assert(p.insert(i, x).push(s.last()) =~= s.insert(i, x));
    }
}

fn slice_le_exec(a: &RawChunk, b: &RawChunk) -> (res: bool)
    ensures
        res == slice_le(a@, b@),
{
    a.start_ms < b.start_ms || (a.start_ms == b.start_ms && (str_eq(a.channel, CHANNEL_MIC)
        || !str_eq(b.channel, CHANNEL_MIC)))
}

fn insert_slice_exec(v: &mut Vec<RawChunk>, x: RawChunk)
    ensures
        chunks_view(final(v)@) == insert_slice(chunks_view(old(v)@), x@),
{
    let ghost s = chunks_view(v@);
    let mut i: usize = v.len();
    while i > 0 && !slice_le_exec(&v[i - 1], &x)
        invariant
            i <= v.len(),
            s == chunks_view(v@),
            forall|k: int| i <= k < s.len() ==> !slice_le(#[trigger] s[k], x@),
        decreases i,
    {
        assert(s[i - 1] == v@[i - 1]@);
        i -= 1;
    }
    if i > 0 {
        assert(s[i - 1] == v@[i - 1]@);
    }
    proof {
        lemma_insert_slice_at(s, x@, i as int);
    }
    let ghost xv = x@;
    v.insert(i, x);
    assert(chunks_view(v@) =~= s.insert(i as int, xv));
}

fn has_text_exec(segs: &Vec<SegmentMark>, speaker: &str, start: i64, end: i64) -> (res: bool)
    ensures
        res == has_text(segs@, speaker@, start, end),
{
    let mut k: usize = 0;
    while k < segs.len()
        invariant
            k <= segs.len(),
            forall|j: int|
                0 <= j < k ==> !((#[trigger] segs@[j]).speaker_id@ == speaker@ && segs@[j].start_ms
                    >= start && segs@[j].start_ms < (if end >= start + 1 {
                    end as int
                } else {
                    start + 1
                })),
        decreases segs.len() - k,
    {
        let at = segs[k].start_ms;
        if str_eq(segs[k].speaker_id.as_str(), speaker) && at >= start && (at < end || at
            <= start) {
            return true;
        }
        k += 1;
    }
    false
}

fn row_channel(style: PathStyle, path: &str) -> (res: Option<&'static str>)
    ensures
        match path_channel(style, path@) {
            Some(c) => res matches Some(r) && r@ == c,
            None => res is None,
        },
{
    match crate::paths::file_name(style, path) {
        Some(name) => {
            let n = string_of(&name);
            channel_for_file_name(n.as_str())
        },
        None => None,
    }
}

/// Selects the slices still without text, given for each ledger row
/// whether its file is present, in the order they are transcribed.
pub fn select_missing_chunks(
    project_id: &str,
    segments: &Vec<SegmentMark>,
    rows: &Vec<ChunkRow>,
    present: &Vec<bool>,
    style: PathStyle,
) -> (res: Vec<RawChunk>)
    requires
        present@.len() == rows@.len(),
    ensures
        chunks_view(res@) == sort_slices(
            missing_rows(project_id@, segments@, rows@, present@, style),
        ),
{
    let mut out: Vec<RawChunk> = Vec::new();
    let mut i: usize = 0;
    while i < rows.len()
        invariant
            i <= rows.len(),
            present@.len() == rows@.len(),
            chunks_view(out@) == sort_slices(
                missing_rows(project_id@, segments@, rows@.take(i as int), present@, style),
            ),
        decreases rows.len() - i,
    {
        let ghost t = rows@.take(i + 1);
        assert(t.drop_last() =~= rows@.take(i as int));
        assert(t.last() == rows@[i as int]);
        let ghost prev = missing_rows(project_id@, segments@, rows@.take(i as int), present@, style);
        let r = &rows[i];
        match row_channel(style, r.file_path.as_str()) {
            None => {},
            Some(channel) => {
                let key = if str_eq(channel, CHANNEL_MIC) {
                    "me"
                } else {
                    "them"
                };
                let speaker = speaker_id_for(project_id, key);
                if present[i] && !r.transcribed && !has_text_exec(
                    segments,
                    speaker.as_str(),
                    r.start_ms,
                    r.end_ms,
                ) {
                    let c = RawChunk {
                        channel,
                        chunk_id: r.id.clone(),
                        file_path: r.file_path.clone(),
                        start_ms: r.start_ms,
                        end_ms: r.end_ms,
                        byte_size: r.byte_size,
                        checksum: r.checksum.clone(),
                    };
                    let ghost cv = c@;
                    insert_slice_exec(&mut out, c);
                    assert(prev.push(cv).drop_last() =~= prev);
                }
            },
        }
        i += 1;
    }
    assert(rows@.take(rows.len() as int) =~= rows@);
    out
}

/// The slices of a recording still without text: checks which ledger
/// files are present on disk, then selects as `select_missing_chunks`
/// does. What the disk holds is not known here, so the result is stated
/// for the presence the check found, whatever it was.
pub fn chunks_missing_transcript(
    project_id: &str,
    segments: &Vec<SegmentMark>,
    rows: &Vec<ChunkRow>,
    style: PathStyle,
) -> (res: Vec<RawChunk>)
    ensures
        exists|present: Seq<bool>|
            present.len() == rows@.len() && chunks_view(res@) == sort_slices(
                #[trigger] missing_rows(project_id@, segments@, rows@, present, style),
            ),
{
    let mut present: Vec<bool> = Vec::new();
    let mut i: usize = 0;
    while i < rows.len()
        invariant
            i <= rows.len(),
            present@.len() == i,
        decreases rows.len() - i,
    {
        let here = match row_channel(style, rows[i].file_path.as_str()) {
            Some(_) => crate::media_fetch::path_is_file(rows[i].file_path.as_str()),
            None => false,
        };
        present.push(here);
        i += 1;
    }
    let res = select_missing_chunks(project_id, segments, rows, &present, style);
    assert(chunks_view(res@) == sort_slices(
        missing_rows(project_id@, segments@, rows@, present@, style),
    ));
    res
}

// ---------------------------------------------------------------------------
// Revisioned catch-up
// ---------------------------------------------------------------------------

/// Slices are replayed by `(start_ms, end_ms)`.
pub open spec fn span_le(a: ChunkView, b: ChunkView) -> bool {
    a.start_ms < b.start_ms || (a.start_ms == b.start_ms && a.end_ms <= b.end_ms)
}

pub open spec fn insert_span(s: Seq<ChunkView>, x: ChunkView) -> Seq<ChunkView>
    decreases s.len(),
{
    if s.len() == 0 {
        seq![x]
    } else if span_le(s.last(), x) {
        s.push(x)
    } else {
        insert_span(s.drop_last(), x).push(s.last())
    }
}

/// Stable sort by `(start_ms, end_ms)`.
pub open spec fn sort_spans(s: Seq<ChunkView>) -> Seq<ChunkView>
    decreases s.len(),
{
    if s.len() == 0 {
        seq![]
    } else {
        insert_span(sort_spans(s.drop_last()), s.last())
    }
}

proof fn lemma_insert_span_at(s: Seq<ChunkView>, x: ChunkView, i: int)
    requires
        0 <= i <= s.len(),
        i == 0 || span_le(s[i - 1], x),
        forall|k: int| i <= k < s.len() ==> !span_le(#[trigger] s[k], x),
    ensures
        insert_span(s, x) == s.insert(i, x),
    decreases s.len(),
{
    if s.len() == 0 {
        assert(s.insert(i, x) =~= seq![x]);
    } else if i == s.len() {
        assert(s.insert(i, x) =~= s.push(x));
    } else {
        let p = s.drop_last();
        assert(!span_le(s[s.len() - 1], x));
        assert forall|k: int| i <= k < p.len() implies !span_le(#[trigger] p[k], x) by {
            assert(p[k] == s[k]);
        }
        if i > 0 {
            assert(p[i - 1] == s[i - 1]);
        }
        lemma_insert_span_at(p, x, i);
        assert(p.insert(i, x).push(s.last()) =~= s.insert(i, x));
    }
}

fn insert_span_exec(v: &mut Vec<RawChunk>, x: RawChunk)
    ensures
        chunks_view(final(v)@) == insert_span(chunks_view(old(v)@), x@),
{
    let ghost s = chunks_view(v@);
    let mut i: usize = v.len();
    while i > 0 && !(v[i - 1].start_ms < x.start_ms || (v[i - 1].start_ms == x.start_ms
        && v[i - 1].end_ms <= x.end_ms))
        invariant
            i <= v.len(),
            s == chunks_view(v@),
            forall|k: int| i <= k < s.len() ==> !span_le(#[trigger] s[k], x@),
        decreases i,
    {
        assert(s[i - 1] == v@[i - 1]@);
        i -= 1;
    }
    if i > 0 {
        assert(s[i - 1] == v@[i - 1]@);
    }
    proof {
        lemma_insert_span_at(s, x@, i as int);
    }
    let ghost xv = x@;
    v.insert(i, x);
    assert(chunks_view(v@) =~= s.insert(i as int, xv));
}

/// Some slice in `cs` has this id.
pub open spec fn has_chunk_id(cs: Seq<ChunkView>, id: Seq<char>) -> bool {
    exists|k: int| 0 <= k < cs.len() && (#[trigger] cs[k]).chunk_id == id
}

/// The slices not in `pending`, in order.
pub open spec fn not_queued(pending: Seq<ChunkView>, more: Seq<ChunkView>) -> Seq<ChunkView>
    decreases more.len(),
{
    if more.len() == 0 {
        seq![]
    } else if has_chunk_id(pending, more.last().chunk_id) {
        not_queued(pending, more.drop_last())
    } else {
        not_queued(pending, more.drop_last()).push(more.last())
    }
}

fn has_chunk_id_exec(cs: &Vec<RawChunk>, id: &str) -> (res: bool)
    ensures
        res == has_chunk_id(chunks_view(cs@), id@),
{
    let ghost cv = chunks_view(cs@);
    let mut k: usize = 0;
    while k < cs.len()
        invariant
            k <= cs.len(),
            cv == chunks_view(cs@),
            forall|j: int| 0 <= j < k ==> (#[trigger] cv[j]).chunk_id != id@,
        decreases cs.len() - k,
    {
        assert(cv[k as int] == cs@[k as int]@);
        if str_eq(cs[k].chunk_id.as_str(), id) {
            return true;
        }
        k += 1;
    }
    false
}

/// What a track replays when it catches up: its pending slices and the
/// uncovered ones not already pending, by `(start_ms, end_ms)`.
pub fn catch_up_queue(pending: &Vec<RawChunk>, uncovered: &Vec<RawChunk>) -> (res: Vec<RawChunk>)
    ensures
        chunks_view(res@) == sort_spans(
            chunks_view(pending@) + not_queued(chunks_view(pending@), chunks_view(uncovered@)),
        ),
{
    let ghost pv = chunks_view(pending@);
    let ghost uv = chunks_view(uncovered@);
    let mut all: Vec<RawChunk> = Vec::new();
    let mut i: usize = 0;
    while i < pending.len()
        invariant
            i <= pending.len(),
            pv == chunks_view(pending@),
            chunks_view(all@) == pv.take(i as int),
        decreases pending.len() - i,
    {
        let ghost before = chunks_view(all@);
        all.push(clone_chunk(&pending[i]));
        assert(chunks_view(all@) =~= before.push(pending@[i as int]@));
        assert(pv.take(i + 1) =~= pv.take(i as int).push(pv[i as int]));
        i += 1;
    }
    assert(pv.take(pending.len() as int) =~= pv);
    let mut j: usize = 0;
    while j < uncovered.len()
        invariant
            j <= uncovered.len(),
            pv == chunks_view(pending@),
            uv == chunks_view(uncovered@),
            chunks_view(all@) == pv + not_queued(pv, uv.take(j as int)),
        decreases uncovered.len() - j,
    {
        assert(uv.take(j + 1).drop_last() =~= uv.take(j as int));
        assert(uv.take(j + 1).last() == uncovered@[j as int]@);
        if !has_chunk_id_exec(pending, uncovered[j].chunk_id.as_str()) {
            let ghost before = chunks_view(all@);
            all.push(clone_chunk(&uncovered[j]));
            assert(chunks_view(all@) =~= before.push(uncovered@[j as int]@));
        }
        j += 1;
    }
    assert(uv.take(uncovered.len() as int) =~= uv);
    let ghost av = chunks_view(all@);
    let mut out: Vec<RawChunk> = Vec::new();
    let mut k: usize = 0;
    while k < all.len()
        invariant
            k <= all.len(),
            av == chunks_view(all@),
            chunks_view(out@) == sort_spans(av.take(k as int)),
        decreases all.len() - k,
    {
        assert(av.take(k + 1).drop_last() =~= av.take(k as int));
        assert(av.take(k + 1).last() == all@[k as int]@);
        insert_span_exec(&mut out, clone_chunk(&all[k]));
        k += 1;
    }
    assert(av.take(all.len() as int) =~= av);
    out
}

/// A coverage row of the ledger as read: its source and its slice.
#[derive(Debug)]
pub struct CoverageMark {
    pub source_session_id: Option<String>,
    pub audio_chunk_id: Option<String>,
}

/// A slice of one of the sources is already covered.
pub open spec fn chunk_covered(cov: Seq<CoverageMark>, sources: Seq<Seq<char>>, id: Seq<char>) -> bool {
    exists|k: int|
        0 <= k < cov.len() && covers_slice(#[trigger] cov[k], sources, id)
}

pub open spec fn covers_slice(c: CoverageMark, sources: Seq<Seq<char>>, id: Seq<char>) -> bool {
    &&& c.source_session_id matches Some(s)
    &&& sources.contains(s@)
    &&& opt_chars(c.audio_chunk_id) == Some(id)
}

/// The ledger slices of `channel` no coverage row of the session's sources
/// holds, in ledger order; only channels the session records count.
pub open spec fn uncovered_rows(
    cov: Seq<CoverageMark>,
    sources: Seq<Seq<char>>,
    channels: Seq<Seq<char>>,
    rows: Seq<ChunkRow>,
    channel: Seq<char>,
    style: PathStyle,
) -> Seq<ChunkView>
    decreases rows.len(),
{
    if rows.len() == 0 {
        seq![]
    } else {
        let prev = uncovered_rows(cov, sources, channels, rows.drop_last(), channel, style);
        let r = rows.last();
        if !chunk_covered(cov, sources, r.id@) && path_channel(style, r.file_path@) == Some(channel)
            && channels.contains(channel) {
            prev.push(
                ChunkView {
                    channel,
                    chunk_id: r.id@,
                    file_path: r.file_path@,
                    start_ms: r.start_ms,
                    end_ms: r.end_ms,
                    byte_size: r.byte_size,
                    checksum: r.checksum@,
                },
            )
        } else {
            prev
        }
    }
}

/// The uncovered slices of each capture channel.
#[derive(Debug)]
pub struct UncoveredChunks {
    pub mic: Vec<RawChunk>,
    pub system: Vec<RawChunk>,
}

fn contains_text(v: &Vec<String>, s: &str) -> (res: bool)
    ensures
        res == strings_view(v@).contains(s@),
{
    let ghost sv = strings_view(v@);
    let mut k: usize = 0;
    while k < v.len()
        invariant
            k <= v.len(),
            sv == strings_view(v@),
            forall|j: int| 0 <= j < k ==> sv[j] != s@,
        decreases v.len() - k,
    {
        assert(sv[k as int] == v@[k as int]@);
        if str_eq(v[k].as_str(), s) {
            assert(sv[k as int] == s@);
            return true;
        }
        k += 1;
    }
    false
}

fn chunk_covered_exec(cov: &Vec<CoverageMark>, sources: &Vec<String>, id: &str) -> (res: bool)
    ensures
        res == chunk_covered(cov@, strings_view(sources@), id@),
{
    let mut k: usize = 0;
    while k < cov.len()
        invariant
            k <= cov.len(),
            forall|j: int| 0 <= j < k ==> !covers_slice(#[trigger] cov@[j], strings_view(sources@), id@),
        decreases cov.len() - k,
    {
        let hit = match (&cov[k].source_session_id, &cov[k].audio_chunk_id) {
            (Some(s), Some(a)) => contains_text(sources, s.as_str()) && str_eq(a.as_str(), id),
            _ => false,
        };
        if hit {
            return true;
        }
        k += 1;
    }
    false
}

/// The ledger slices of a session that no coverage row of its sources
/// holds, by channel, each channel's by `(start_ms, end_ms)`. `sources`
/// are the session's source ids, `channels` the channels it records.
pub fn revisioned_uncovered_chunks(
    sources: &Vec<String>,
    channels: &Vec<String>,
    coverage: &Vec<CoverageMark>,
    rows: &Vec<ChunkRow>,
    style: PathStyle,
) -> (res: UncoveredChunks)
    ensures
        chunks_view(res.mic@) == sort_spans(
            uncovered_rows(coverage@, strings_view(sources@), strings_view(channels@), rows@, CHANNEL_MIC@, style),
        ),
        chunks_view(res.system@) == sort_spans(
            uncovered_rows(
                coverage@,
                strings_view(sources@),
                strings_view(channels@),
                rows@,
                CHANNEL_SYSTEM@,
                style,
            ),
        ),
{
    let ghost sv = strings_view(sources@);
    let ghost chv = strings_view(channels@);
    let mut mic: Vec<RawChunk> = Vec::new();
    let mut system: Vec<RawChunk> = Vec::new();
    let mut i: usize = 0;
    assert(CHANNEL_MIC@ != CHANNEL_SYSTEM@) by {
        reveal_strlit("mic");
        reveal_strlit("system");
        assert(CHANNEL_MIC@.len() == 3);
        assert(CHANNEL_SYSTEM@.len() == 6);
    }
    while i < rows.len()
        invariant
            i <= rows.len(),
            sv == strings_view(sources@),
            chv == strings_view(channels@),
            CHANNEL_MIC@ != CHANNEL_SYSTEM@,
            chunks_view(mic@) == sort_spans(
                uncovered_rows(coverage@, sv, chv, rows@.take(i as int), CHANNEL_MIC@, style),
            ),
            chunks_view(system@) == sort_spans(
                uncovered_rows(coverage@, sv, chv, rows@.take(i as int), CHANNEL_SYSTEM@, style),
            ),
        decreases rows.len() - i,
    {
        let ghost t = rows@.take(i + 1);
        assert(t.drop_last() =~= rows@.take(i as int));
        assert(t.last() == rows@[i as int]);
        let ghost pm = uncovered_rows(coverage@, sv, chv, rows@.take(i as int), CHANNEL_MIC@, style);
        let ghost ps = uncovered_rows(coverage@, sv, chv, rows@.take(i as int), CHANNEL_SYSTEM@, style);
        let r = &rows[i];
        if !chunk_covered_exec(coverage, sources, r.id.as_str()) {
            match row_channel(style, r.file_path.as_str()) {
                Some(channel) => {
                    if contains_text(channels, channel) {
                        let c = RawChunk {
                            channel,
                            chunk_id: r.id.clone(),
                            file_path: r.file_path.clone(),
                            start_ms: r.start_ms,
                            end_ms: r.end_ms,
                            byte_size: r.byte_size,
                            checksum: r.checksum.clone(),
                        };
                        let ghost cv = c@;
                        if str_eq(channel, CHANNEL_MIC) {
                            insert_span_exec(&mut mic, c);
                            assert(pm.push(cv).drop_last() =~= pm);
                        } else {
                            assert(channel@ == CHANNEL_SYSTEM@) by {
                                reveal_strlit("mic");
                                reveal_strlit("system");
                            }
                            insert_span_exec(&mut system, c);
                            assert(ps.push(cv).drop_last() =~= ps);
                        }
                    }
                },
                None => {},
            }
        }
        i += 1;
    }
    assert(rows@.take(rows.len() as int) =~= rows@);
    UncoveredChunks { mic, system }
}

// ---------------------------------------------------------------------------
// Decoding replies
// ---------------------------------------------------------------------------

/// One decoded segment of a worker's reply, in milliseconds from the start
/// of the window; the confidence is carried as the bits of its double.
#[derive(Debug)]
pub struct ReplySegment {
    pub start_ms: i64,
    pub end_ms: i64,
    pub text: String,
    pub confidence_bits: Option<u64>,
}

/// What the worker answered for one decode window.
#[derive(Debug)]
pub struct WindowReply {
    pub error: Option<String>,
    pub window_id: Option<String>,
    pub window_start_ms: Option<i64>,
    pub window_end_ms: Option<i64>,
    pub final_window: Option<bool>,
    pub language: Option<String>,
    pub segments: Vec<ReplySegment>,
}

/// `a + b`, held at the ends of `i64`.
pub open spec fn sat_add_i64(a: i64, b: i64) -> i64 {
    if a + b > i64::MAX {
        i64::MAX
    } else if a + b < i64::MIN {
        i64::MIN
    } else {
        (a + b) as i64
    }
}

fn saturating_add_i64(a: i64, b: i64) -> (res: i64)
    ensures
        res == sat_add_i64(a, b),
{
    match a.checked_add(b) {
        Some(v) => v,
        None => if b > 0 {
            i64::MAX
        } else {
            i64::MIN
        },
    }
}

/// The reply answers this window: its id, bounds and finality all match.
pub open spec fn reply_matches(r: WindowReply, w: DecodeWindowView) -> bool {
    &&& opt_chars(r.window_id) == Some(w.id)
    &&& r.window_start_ms == Some(w.start_ms)
    &&& r.window_end_ms == Some(w.end_ms)
    &&& r.final_window == Some(w.is_final)
}

/// A segment placed on the source timeline, in the reply's language.
pub open spec fn placed(s: ReplySegment, w: DecodeWindowView, language: Option<Seq<char>>) -> HypothesisView {
    HypothesisView {
        start_ms: sat_add_i64(w.start_ms, s.start_ms),
        end_ms: sat_add_i64(w.start_ms, s.end_ms),
        text: s.text@,
        language,
        confidence_bits: s.confidence_bits,
    }
}

/// The hypotheses a reply gives for a window: the worker's error when it
/// reports one, a refusal when the reply is for another window, and
/// otherwise each segment placed on the source timeline.
pub fn window_hypotheses(window: &DecodeWindow, reply: &WindowReply) -> (res: Result<
    Vec<TranscriptHypothesis>,
    String,
>)
    ensures
        match reply.error {
            Some(e) => res is Err && res->Err_0@ == e@,
            None => if !reply_matches(*reply, window@) {
                res is Err && res->Err_0@
                    == "live worker returned a mismatched decode-window response"@
            } else {
                res is Ok && crate::live_transcript::hyps_view(res->Ok_0@) == reply.segments@.map_values(
                    |s: ReplySegment| placed(s, window@, opt_chars(reply.language)),
                )
            },
        },
{
    if let Some(e) = &reply.error {
        return Err(e.clone());
    }
    let id_matches = match &reply.window_id {
        Some(id) => str_eq(id.as_str(), window.id.as_str()),
        None => false,
    };
    let start_matches = match reply.window_start_ms {
        Some(v) => v == window.start_ms,
        None => false,
    };
    let end_matches = match reply.window_end_ms {
        Some(v) => v == window.end_ms,
        None => false,
    };
    let final_matches = match reply.final_window {
        Some(v) => v == window.is_final,
        None => false,
    };
    if !(id_matches && start_matches && end_matches && final_matches) {
        return Err(copy_string("live worker returned a mismatched decode-window response"));
    }
    let ghost lang = opt_chars(reply.language);
    let ghost want = reply.segments@.map_values(|s: ReplySegment| placed(s, window@, lang));
    let mut out: Vec<TranscriptHypothesis> = Vec::new();
    let mut i: usize = 0;
    while i < reply.segments.len()
        invariant
            i <= reply.segments.len(),
            lang == opt_chars(reply.language),
            want == reply.segments@.map_values(|s: ReplySegment| placed(s, window@, lang)),
            crate::live_transcript::hyps_view(out@) == want.take(i as int),
        decreases reply.segments.len() - i,
    {
        let seg = &reply.segments[i];
        let h = TranscriptHypothesis {
            start_ms: saturating_add_i64(window.start_ms, seg.start_ms),
            end_ms: saturating_add_i64(window.start_ms, seg.end_ms),
            text: seg.text.clone(),
            language: crate::text::copy_opt_string(&reply.language),
            confidence_bits: seg.confidence_bits,
        };
        let ghost before = crate::live_transcript::hyps_view(out@);
        out.push(h);
        assert(crate::live_transcript::hyps_view(out@) =~= before.push(h@));
        assert(want.take(i + 1) =~= want.take(i as int).push(want[i as int]));
        i += 1;
    }
    assert(want.take(reply.segments.len() as int) =~= want);
    Ok(out)
}

// ---------------------------------------------------------------------------
// Chunk transcripts
// ---------------------------------------------------------------------------

/// How a channel's speaker is shown: the microphone is us, the rest is the
/// other side.
pub open spec fn channel_speaker_label(channel: Seq<char>) -> Seq<char> {
    if channel == CHANNEL_MIC@ {
        "เรา"@
    } else {
        "อีกฝ่าย"@
    }
}

/// A transcribed segment of a chunk, on the recording's timeline and
/// attributed to the chunk's channel speaker.
#[derive(Debug)]
pub struct PlacedSegment {
    pub speaker_id: String,
    pub speaker_label: &'static str,
    pub start_ms: i64,
    pub end_ms: i64,
    pub text: String,
    pub confidence_bits: Option<u64>,
}

pub struct PlacedView {
    pub speaker_id: Seq<char>,
    pub speaker_label: Seq<char>,
    pub start_ms: int,
    pub end_ms: int,
    pub text: Seq<char>,
    pub confidence_bits: Option<u64>,
}

impl View for PlacedSegment {
    type V = PlacedView;

    open spec fn view(&self) -> PlacedView {
        PlacedView {
            speaker_id: self.speaker_id@,
            speaker_label: self.speaker_label@,
            start_ms: self.start_ms as int,
            end_ms: self.end_ms as int,
            text: self.text@,
            confidence_bits: self.confidence_bits,
        }
    }
}

/// A chunk's segment placed on the recording's timeline.
pub open spec fn placed_in_chunk(project_id: Seq<char>, chunk: ChunkView, s: ReplySegment) -> PlacedView {
    PlacedView {
        speaker_id: speaker_id_spec(project_id, channel_speaker_key(chunk.channel)),
        speaker_label: channel_speaker_label(chunk.channel),
        start_ms: chunk.start_ms + s.start_ms,
        end_ms: chunk.start_ms + s.end_ms,
        text: s.text@,
        confidence_bits: s.confidence_bits,
    }
}

/// Every segment of a chunk's transcript fits the timeline once moved by
/// the chunk's start.
pub open spec fn segments_fit(chunk_start: i64, segs: Seq<ReplySegment>) -> bool {
    forall|k: int|
        0 <= k < segs.len() ==> i64::MIN <= chunk_start + (#[trigger] segs[k]).start_ms <= i64::MAX
            && i64::MIN <= chunk_start + segs[k].end_ms <= i64::MAX
}

/// The segments of a chunk's transcript, in order, moved onto the
/// recording's timeline and attributed to the chunk's channel speaker.
pub fn place_chunk_segments(project_id: &str, chunk: &RawChunk, segments: &Vec<ReplySegment>) -> (res:
    Vec<PlacedSegment>)
    requires
        segments_fit(chunk.start_ms, segments@),
    ensures
        res@.map_values(|p: PlacedSegment| p@) == segments@.map_values(
            |s: ReplySegment| placed_in_chunk(project_id@, chunk@, s),
        ),
{
    let mic = str_eq(chunk.channel, CHANNEL_MIC);
    let key = if mic {
        "me"
    } else {
        "them"
    };
    let label = if mic {
        "เรา"
    } else {
        "อีกฝ่าย"
    };
    let speaker = speaker_id_for(project_id, key);
    let ghost want = segments@.map_values(|s: ReplySegment| placed_in_chunk(project_id@, chunk@, s));
    let mut out: Vec<PlacedSegment> = Vec::new();
    let mut i: usize = 0;
    while i < segments.len()
        invariant
            i <= segments.len(),
            segments_fit(chunk.start_ms, segments@),
            speaker@ == speaker_id_spec(project_id@, channel_speaker_key(chunk@.channel)),
            label@ == channel_speaker_label(chunk@.channel),
            want == segments@.map_values(|s: ReplySegment| placed_in_chunk(project_id@, chunk@, s)),
            out@.map_values(|p: PlacedSegment| p@) == want.take(i as int),
        decreases segments.len() - i,
    {
        let s = &segments[i];
        assert(i64::MIN <= chunk.start_ms + segments@[i as int].start_ms <= i64::MAX);
        let placed = PlacedSegment {
            speaker_id: speaker.clone(),
            speaker_label: label,
            start_ms: chunk.start_ms + s.start_ms,
            end_ms: chunk.start_ms + s.end_ms,
            text: s.text.clone(),
            confidence_bits: s.confidence_bits,
        };
        let ghost before = out@.map_values(|p: PlacedSegment| p@);
        let ghost pv = placed@;
        out.push(placed);
        assert(out@.map_values(|p: PlacedSegment| p@) =~= before.push(pv));
        assert(want.take(i + 1) =~= want.take(i as int).push(want[i as int]));
        i += 1;
    }
    assert(want.take(segments.len() as int) =~= want);
    out
}

// ---------------------------------------------------------------------------
// The session's tally
// ---------------------------------------------------------------------------

/// Free space is measured after this many ledgered slices.
pub const DISK_CHECK_EVERY_CHUNKS: usize = 16;

/// What a session counts while it records: stretches of audio lost, stream
/// faults, slices since the last free-space check, whether the low-space
/// warning was given, and the furthest end any channel reached.
#[derive(Debug)]
pub struct SessionTally {
    pub lost_chunks: usize,
    pub stream_faults: usize,
    pub chunks_since_disk_check: usize,
    pub low_disk_warned: bool,
    pub max_end_ms: i64,
}

/// What a free-space reading calls for.
#[derive(Clone, Copy, Debug, PartialEq, Eq, Structural)]
pub enum DiskVerdict {
    /// Too little space to go on: stop capturing while every slice can
    /// still be closed.
    Stop,
    /// Low space, reported once per session.
    Warn,
    /// Nothing to do.
    Fine,
}

/// The verdict on a free-space reading, given whether the warning was
/// already given.
pub open spec fn disk_verdict(free: u64, warned: bool) -> DiskVerdict {
    if free < MIN_FREE_BYTES_TO_CONTINUE {
        DiskVerdict::Stop
    } else if free < LOW_DISK_WARN_BYTES && !warned {
        DiskVerdict::Warn
    } else {
        DiskVerdict::Fine
    }
}

impl SessionTally {
    /// A session that has counted nothing.
    pub fn new() -> (t: SessionTally)
        ensures
            t.lost_chunks == 0,
            t.stream_faults == 0,
            t.chunks_since_disk_check == 0,
            !t.low_disk_warned,
            t.max_end_ms == 0,
    {
        SessionTally {
            lost_chunks: 0,
            stream_faults: 0,
            chunks_since_disk_check: 0,
            low_disk_warned: false,
            max_end_ms: 0,
        }
    }

    /// A stretch of audio up to `end_ms` was lost, because its slice could
    /// not be written or the source skipped it. Returns the stretch's number.
    pub fn record_lost(&mut self, end_ms: i64) -> (n: usize)
        requires
            old(self).lost_chunks < usize::MAX,
        ensures
            n == old(self).lost_chunks + 1,
            final(self).lost_chunks == n,
            final(self).max_end_ms == if end_ms > old(self).max_end_ms {
                end_ms
            } else {
                old(self).max_end_ms
            },
            final(self).stream_faults == old(self).stream_faults,
            final(self).chunks_since_disk_check == old(self).chunks_since_disk_check,
            final(self).low_disk_warned == old(self).low_disk_warned,
    {
        self.lost_chunks = self.lost_chunks + 1;
        if end_ms > self.max_end_ms {
            self.max_end_ms = end_ms;
        }
        self.lost_chunks
    }

    /// A capture stream reported a fault.
    pub fn record_stream_fault(&mut self)
        requires
            old(self).stream_faults < usize::MAX,
        ensures
            final(self).stream_faults == old(self).stream_faults + 1,
            final(self).lost_chunks == old(self).lost_chunks,
            final(self).max_end_ms == old(self).max_end_ms,
            final(self).chunks_since_disk_check == old(self).chunks_since_disk_check,
            final(self).low_disk_warned == old(self).low_disk_warned,
    {
        self.stream_faults = self.stream_faults + 1;
    }

    /// A slice ending at `end_ms` reached the ledger. Returns whether free
    /// space is due to be measured, which it is every
    /// `DISK_CHECK_EVERY_CHUNKS` slices.
    pub fn record_chunk(&mut self, end_ms: i64) -> (check_disk: bool)
        requires
            old(self).chunks_since_disk_check < usize::MAX,
        ensures
            check_disk == (old(self).chunks_since_disk_check + 1 >= DISK_CHECK_EVERY_CHUNKS),
            final(self).chunks_since_disk_check == if check_disk {
                0
            } else {
                old(self).chunks_since_disk_check + 1
            },
            final(self).max_end_ms == if end_ms > old(self).max_end_ms {
                end_ms
            } else {
                old(self).max_end_ms
            },
            final(self).lost_chunks == old(self).lost_chunks,
            final(self).stream_faults == old(self).stream_faults,
            final(self).low_disk_warned == old(self).low_disk_warned,
    {
        if end_ms > self.max_end_ms {
            self.max_end_ms = end_ms;
        }
        self.chunks_since_disk_check = self.chunks_since_disk_check + 1;
        if self.chunks_since_disk_check >= DISK_CHECK_EVERY_CHUNKS {
            self.chunks_since_disk_check = 0;
            true
        } else {
            false
        }
    }

    /// What a free-space reading calls for; the low-space warning is
    /// remembered so it is given once.
    pub fn judge_free_space(&mut self, free: u64) -> (v: DiskVerdict)
        ensures
            v == disk_verdict(free, old(self).low_disk_warned),
            final(self).low_disk_warned == (old(self).low_disk_warned || v == DiskVerdict::Warn),
            final(self).lost_chunks == old(self).lost_chunks,
            final(self).stream_faults == old(self).stream_faults,
            final(self).max_end_ms == old(self).max_end_ms,
            final(self).chunks_since_disk_check == old(self).chunks_since_disk_check,
    {
        if free < MIN_FREE_BYTES_TO_CONTINUE {
            DiskVerdict::Stop
        } else if free < LOW_DISK_WARN_BYTES && !self.low_disk_warned {
            self.low_disk_warned = true;
            DiskVerdict::Warn
        } else {
            DiskVerdict::Fine
        }
    }

    /// The recording's duration once the session closes: the longer of the
    /// stored one and the furthest end any channel reached.
    pub fn final_duration_ms(&self, stored_ms: i64) -> (ms: i64)
        ensures
            ms == if self.max_end_ms > stored_ms {
                self.max_end_ms
            } else {
                stored_ms
            },
    {
        if self.max_end_ms > stored_ms {
            self.max_end_ms
        } else {
            stored_ms
        }
    }
}

/// The low-space warning is given at most once: after it, no reading warns
/// again, and a reading that warns leaves the warning given.
pub proof fn law_low_disk_warning_is_given_once(free: u64, later: u64)
    ensures
        disk_verdict(free, true) != DiskVerdict::Warn,
        disk_verdict(free, false) == DiskVerdict::Warn ==> disk_verdict(later, true)
            != DiskVerdict::Warn,
        disk_verdict(free, false) == DiskVerdict::Stop <==> free < MIN_FREE_BYTES_TO_CONTINUE,
{
}

// ---------------------------------------------------------------------------
// Starting a session
// ---------------------------------------------------------------------------

/// The profile a configured name selects; none selects `chunked`.
pub open spec fn profile_spec(value: Option<Seq<char>>) -> Result<
    crate::live_transcript::LiveTranscriptProfile,
    Seq<char>,
> {
    match value {
        None => Ok(crate::live_transcript::LiveTranscriptProfile::Chunked),
        Some(v) => if v == "chunked"@ {
            Ok(crate::live_transcript::LiveTranscriptProfile::Chunked)
        } else if v == "revisioned"@ {
            Ok(crate::live_transcript::LiveTranscriptProfile::Revisioned)
        } else {
            Err("transcript profile must be `chunked` or `revisioned`"@)
        },
    }
}

pub open spec fn enumeration_view(e: Result<Vec<String>, String>) -> Result<Seq<Seq<char>>, Seq<char>> {
    match e {
        Ok(v) => Ok(strings_view(v@)),
        Err(m) => Err(m@),
    }
}

/// What a session starts with once its request is accepted.
#[derive(Debug)]
pub struct LiveStartPlan {
    pub capture_system: bool,
    pub profile: crate::live_transcript::LiveTranscriptProfile,
    pub mic_device_id: Option<String>,
    pub system_device_id: Option<String>,
}

/// Checks a request to start a session: the transcript profile must be
/// known, and each chosen device (the system one only when the far side is
/// captured, which it is by default) must be among those enumerated for its
/// kind. Blank device ids mean the system default.
pub fn plan_live_start(
    capture_system: Option<bool>,
    transcript_profile: Option<&str>,
    mic_device_id: Option<String>,
    system_device_id: Option<String>,
    mic_devices: &Result<Vec<String>, String>,
    system_devices: &Result<Vec<String>, String>,
) -> (res: Result<LiveStartPlan, String>)
    ensures
        ({
            let cs = match capture_system {
                Some(b) => b,
                None => true,
            };
            let mic = normalized_device_id(opt_chars(mic_device_id));
            let sys = normalized_device_id(opt_chars(system_device_id));
            match profile_spec(
                match transcript_profile {
                    Some(v) => Some(v@),
                    None => None,
                },
            ) {
                Err(e) => res is Err && res->Err_0@ == e,
                Ok(p) => match validate_spec(CaptureDeviceKind::Mic, mic, enumeration_view(*mic_devices)) {
                    Err(e) => res is Err && res->Err_0@ == e,
                    Ok(()) => if cs && validate_spec(
                        CaptureDeviceKind::SystemLoopback,
                        sys,
                        enumeration_view(*system_devices),
                    ) is Err {
                        res is Err && res->Err_0@ == validate_spec(
                            CaptureDeviceKind::SystemLoopback,
                            sys,
                            enumeration_view(*system_devices),
                        )->Err_0
                    } else {
                        &&& res is Ok
                        &&& res->Ok_0.capture_system == cs
                        &&& res->Ok_0.profile == p
                        &&& opt_chars(res->Ok_0.mic_device_id) == mic
                        &&& opt_chars(res->Ok_0.system_device_id) == sys
                    },
                },
            }
        }),
{
    let cs = match capture_system {
        Some(b) => b,
        None => true,
    };
    let profile = crate::live_transcript::LiveTranscriptProfile::parse(transcript_profile)?;
    let mic = normalize_device_id(mic_device_id);
    let sys = normalize_device_id(system_device_id);
    let mic_ref: Option<&str> = match &mic {
        Some(m) => Some(m.as_str()),
        None => None,
    };
    validate_requested_device(CaptureDeviceKind::Mic, mic_ref, mic_devices)?;
    if cs {
        let sys_ref: Option<&str> = match &sys {
            Some(m) => Some(m.as_str()),
            None => None,
        };
        validate_requested_device(CaptureDeviceKind::SystemLoopback, sys_ref, system_devices)?;
    }
    Ok(LiveStartPlan { capture_system: cs, profile, mic_device_id: mic, system_device_id: sys })
}

/// Why a session may not start on a volume with `free` bytes: refused below
/// `MIN_FREE_BYTES_TO_START`; an unknown amount is no refusal.
pub open spec fn start_space_refusal_spec(free: Option<u64>) -> Option<Seq<char>> {
    match free {
        Some(f) => if f < MIN_FREE_BYTES_TO_START {
            Some(
                "พื้นที่ดิสก์เหลือ "@ + human_gib_spec(f as nat) + " ซึ่งน้อยกว่าขั้นต่ำ "@
                    + human_gib_spec(MIN_FREE_BYTES_TO_START as nat)
                    + " สำหรับเริ่มบันทึก — ปล่อยพื้นที่ก่อนเริ่มประชุม"@,
            )
        } else {
            None
        },
        None => None,
    }
}

pub fn start_space_refusal(free: Option<u64>) -> (res: Option<String>)
    ensures
        opt_chars(res) == start_space_refusal_spec(free),
{
    match free {
        Some(f) => {
            if f < MIN_FREE_BYTES_TO_START {
                let mut m = copy_string("พื้นที่ดิสก์เหลือ ");
                let have = human_gib(f);
                push_text(&mut m, have.as_str());
                push_text(&mut m, " ซึ่งน้อยกว่าขั้นต่ำ ");
                let need = human_gib(MIN_FREE_BYTES_TO_START);
                push_text(&mut m, need.as_str());
                push_text(&mut m, " สำหรับเริ่มบันทึก — ปล่อยพื้นที่ก่อนเริ่มประชุม");
                Some(m)
            } else {
                None
            }
        },
        None => None,
    }
}

/// Why the session stops, or that space is running low, as shown to the
/// user; none when there is enough space.
pub open spec fn disk_message_spec(v: DiskVerdict, free: u64) -> Option<Seq<char>> {
    match v {
        DiskVerdict::Stop => Some(
            "พื้นที่ดิสก์เหลือ "@ + human_gib_spec(free as nat)
                + " — หยุดบันทึกเพื่อรักษาเสียงที่บันทึกไว้แล้ว"@,
        ),
        DiskVerdict::Warn => Some(
            "พื้นที่ดิสก์เหลือน้อย "@ + human_gib_spec(free as nat) + " — บันทึกต่อได้อีกไม่นาน"@,
        ),
        DiskVerdict::Fine => None,
    }
}

pub fn disk_message(v: DiskVerdict, free: u64) -> (res: Option<String>)
    ensures
        opt_chars(res) == disk_message_spec(v, free),
{
    match v {
        DiskVerdict::Stop => {
            let mut m = copy_string("พื้นที่ดิสก์เหลือ ");
            let amount = human_gib(free);
            push_text(&mut m, amount.as_str());
            push_text(&mut m, " — หยุดบันทึกเพื่อรักษาเสียงที่บันทึกไว้แล้ว");
            Some(m)
        },
        DiskVerdict::Warn => {
            let mut m = copy_string("พื้นที่ดิสก์เหลือน้อย ");
            let amount = human_gib(free);
            push_text(&mut m, amount.as_str());
            push_text(&mut m, " — บันทึกต่อได้อีกไม่นาน");
            Some(m)
        },
        DiskVerdict::Fine => None,
    }
}

// ---------------------------------------------------------------------------
// Listing capture devices
// ---------------------------------------------------------------------------

/// One capture device as the device picker lists it.
#[derive(Debug)]
pub struct CaptureDeviceDescriptor {
    pub id: String,
    pub name: String,
    pub is_default: bool,
    pub available: bool,
}

/// The devices of one kind, in enumeration order, each with its stable id
/// and marked default when its name is the default device's.
pub fn describe_devices(
    kind: CaptureDeviceKind,
    names: &Vec<String>,
    default_name: Option<&str>,
) -> (res: Vec<CaptureDeviceDescriptor>)
    ensures
        res@.len() == names@.len(),
        forall|k: int|
            0 <= k < names@.len() ==> {
                &&& (#[trigger] res@[k]).id@ == device_ids_spec(kind, strings_view(names@))[k]
                &&& res@[k].name@ == names@[k]@
                &&& res@[k].is_default == (match default_name {
                    Some(d) => d@ == names@[k]@,
                    None => false,
                })
                &&& res@[k].available
            },
{
    let ids = device_ids(kind, names);
    let mut out: Vec<CaptureDeviceDescriptor> = Vec::new();
    let mut i: usize = 0;
    assert(strings_view(ids@).len() == names@.len());
    while i < names.len()
        invariant
            i <= names.len(),
            ids@.len() == names@.len(),
            strings_view(ids@) == device_ids_spec(kind, strings_view(names@)),
            out@.len() == i,
            forall|k: int|
                0 <= k < i ==> {
                    &&& (#[trigger] out@[k]).id@ == device_ids_spec(kind, strings_view(names@))[k]
                    &&& out@[k].name@ == names@[k]@
                    &&& out@[k].is_default == (match default_name {
                        Some(d) => d@ == names@[k]@,
                        None => false,
                    })
                    &&& out@[k].available
                },
        decreases names.len() - i,
    {
        assert(strings_view(ids@)[i as int] == ids@[i as int]@);
        let is_default = match default_name {
            Some(d) => str_eq(d, names[i].as_str()),
            None => false,
        };
        out.push(
            CaptureDeviceDescriptor {
                id: ids[i].clone(),
                name: names[i].clone(),
                is_default,
                available: true,
            },
        );
        i += 1;
    }
    out
}

/// The problems met while listing devices, joined by `; `; none when there
/// were none.
pub open spec fn issues_spec(issues: Seq<Seq<char>>) -> Option<Seq<char>> {
    if issues.len() == 0 {
        None
    } else {
        Some(join_semicolons(issues))
    }
}

pub open spec fn join_semicolons(items: Seq<Seq<char>>) -> Seq<char>
    decreases items.len(),
{
    if items.len() <= 1 {
        if items.len() == 1 {
            items[0]
        } else {
            seq![]
        }
    } else {
        join_semicolons(items.drop_last()) + "; "@ + items.last()
    }
}

pub fn join_issues(issues: &Vec<String>) -> (res: Option<String>)
    ensures
        opt_chars(res) == issues_spec(strings_view(issues@)),
{
    if issues.len() == 0 {
        return None;
    }
    let ghost iv = strings_view(issues@);
    let mut out = issues[0].clone();
    assert(iv.take(1) =~= seq![iv[0]]);
    let mut i: usize = 1;
    while i < issues.len()
        invariant
            1 <= i <= issues.len(),
            iv == strings_view(issues@),
            out@ == join_semicolons(iv.take(i as int)),
        decreases issues.len() - i,
    {
        assert(iv.take(i + 1).drop_last() =~= iv.take(i as int));
        assert(iv.take(i + 1).last() == issues@[i as int]@);
        push_text(&mut out, "; ");
        push_text(&mut out, issues[i].as_str());
        i += 1;
    }
    assert(iv.take(issues.len() as int) =~= iv);
    Some(out)
}

} // verus!
