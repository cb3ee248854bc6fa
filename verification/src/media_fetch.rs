//! Fetching a recording FUNG did not capture: whether this installation can
//! do it, whether its owner has said it may, and which URLs it will pass on.
//!
//! Three gates stand before a fetch: consent (off by default), the scheme
//! (`http` and `https` only), and readiness (the fetcher is not in the
//! default bundle). The reported blocker is always the next step to take.
use vstd::prelude::*;
use crate::text::{strings_view};
use crate::paths::{join, join_spec, parent, parent_spec, PathStyle};
use crate::text::{chars_of, copy_string, lower_spec, push_text, string_of, trim, trim_spec};
use crate::worker::WhisperRuntime;

verus! {

/// Longest media this will fetch: six hours, in seconds.
pub const MAX_FETCH_DURATION_S: u32 = 21_600;

/// The single missing thing that stops a URL fetch running, in the order
/// the things have to become true.
#[derive(Clone, Copy, Debug, PartialEq, Eq, Structural)]
pub enum MediaFetchBlocker {
    /// The bundled Python runtime is absent.
    RuntimeMissing,
    /// The runtime is present but `fetch_media.py` is not beside it.
    WorkerMissing,
    /// yt-dlp is not installed.
    DependenciesMissing,
    /// Everything is installed and nobody has agreed to it being used.
    ConsentWithheld,
}

pub const RUNTIME_MISSING_DETAIL: &'static str = "ไม่พบ Python runtime ที่มากับ FUNG — ต้องติดตั้งแอปใหม่";

pub const WORKER_MISSING_DETAIL: &'static str = "ไม่พบสคริปต์ fetch_media.py ในชุดติดตั้ง — ต้องติดตั้งแอปใหม่";

pub const DEPENDENCIES_MISSING_DETAIL: &'static str = "ยังไม่ได้ติดตั้ง yt-dlp — รัน scripts/stage_media_fetch_runtime.ps1 (ไม่ได้มากับตัวติดตั้งเพราะเป็นตัวเดียวในแอปที่ต่อออกอินเทอร์เน็ต)";

pub const CONSENT_WITHHELD_DETAIL: &'static str = "ยังไม่ได้อนุญาตให้ดึงสื่อจากอินเทอร์เน็ต — เปิดได้ในหน้าตั้งค่า และปิดกลับได้ทุกเมื่อ";

/// Shown while no JavaScript runtime is staged for YouTube.
pub const JS_RUNTIME_ADVISORY: &'static str = "ยังไม่ได้ติดตั้ง JS runtime — YouTube ส่วนใหญ่จะดึงไม่สำเร็จ รัน scripts/stage_media_fetch_runtime.ps1 -WithJsRuntime (เพิ่ม 41 MB) เว็บอื่นใช้ได้ตามปกติ";

pub open spec fn detail_spec(b: MediaFetchBlocker) -> Seq<char> {
    match b {
        MediaFetchBlocker::RuntimeMissing => RUNTIME_MISSING_DETAIL@,
        MediaFetchBlocker::WorkerMissing => WORKER_MISSING_DETAIL@,
        MediaFetchBlocker::DependenciesMissing => DEPENDENCIES_MISSING_DETAIL@,
        MediaFetchBlocker::ConsentWithheld => CONSENT_WITHHELD_DETAIL@,
    }
}

pub open spec fn code_spec(b: MediaFetchBlocker) -> Seq<char> {
    match b {
        MediaFetchBlocker::RuntimeMissing => "runtime_missing"@,
        MediaFetchBlocker::WorkerMissing => "worker_missing"@,
        MediaFetchBlocker::DependenciesMissing => "dependencies_missing"@,
        MediaFetchBlocker::ConsentWithheld => "consent_withheld"@,
    }
}

impl MediaFetchBlocker {
    /// A sentence naming the next action, not the failure.
    pub fn detail(self) -> (res: &'static str)
        ensures
            res@ == detail_spec(self),
    {
        match self {
            MediaFetchBlocker::RuntimeMissing => RUNTIME_MISSING_DETAIL,
            MediaFetchBlocker::WorkerMissing => WORKER_MISSING_DETAIL,
            MediaFetchBlocker::DependenciesMissing => DEPENDENCIES_MISSING_DETAIL,
            MediaFetchBlocker::ConsentWithheld => CONSENT_WITHHELD_DETAIL,
        }
    }

    /// A stable code for logs and job events.
    pub fn code(self) -> (res: &'static str)
        ensures
            res@ == code_spec(self),
    {
        match self {
            MediaFetchBlocker::RuntimeMissing => "runtime_missing",
            MediaFetchBlocker::WorkerMissing => "worker_missing",
            MediaFetchBlocker::DependenciesMissing => "dependencies_missing",
            MediaFetchBlocker::ConsentWithheld => "consent_withheld",
        }
    }
}

/// What the probe found, component by component.
#[derive(Debug)]
pub struct MediaFetchReadiness {
    pub available: bool,
    pub blocker: Option<MediaFetchBlocker>,
    pub blocker_code: Option<&'static str>,
    pub detail: Option<String>,
    pub runtime_present: bool,
    pub worker_present: bool,
    pub dependencies_present: bool,
    pub consent_granted: bool,
    pub js_runtime_present: bool,
    pub js_runtime_detail: Option<&'static str>,
    pub max_duration_s: u32,
    pub packages_dir: String,
}

/// `<runtime>/Lib/media-fetch-packages`, two levels above the interpreter.
pub open spec fn packages_dir_spec(style: PathStyle, python: Seq<char>) -> Option<Seq<char>> {
    match parent_spec(style, python) {
        None => None,
        Some(scripts) => match parent_spec(style, scripts) {
            None => None,
            Some(root) => Some(
                join_spec(style, join_spec(style, root, "Lib"@), "media-fetch-packages"@),
            ),
        },
    }
}

/// Where staged fetch packages live, beside the transcription runtime.
pub fn packages_dir(runtime: &WhisperRuntime) -> (res: Option<String>)
    ensures
        match packages_dir_spec(runtime.style, runtime.python@) {
            Some(p) => res matches Some(r) && r@ == p,
            None => res is None,
        },
{
    let scripts = parent(runtime.style, runtime.python.as_str())?;
    let root = parent(runtime.style, scripts.as_str())?;
    let lib = join(runtime.style, root.as_str(), "Lib");
    Some(join(runtime.style, lib.as_str(), "media-fetch-packages"))
}

/// `<packages>/bin`, where the JavaScript runtime's executable lands.
pub fn js_runtime_dir(runtime: &WhisperRuntime) -> (res: Option<String>)
    ensures
        match packages_dir_spec(runtime.style, runtime.python@) {
            Some(p) => res matches Some(r) && r@ == join_spec(runtime.style, p, "bin"@),
            None => res is None,
        },
{
    let dir = packages_dir(runtime)?;
    Some(join(runtime.style, dir.as_str(), "bin"))
}

/// `scripts/fetch_media.py` beside the transcription worker.
pub open spec fn worker_script_spec(style: PathStyle, script: Seq<char>) -> Option<Seq<char>> {
    match parent_spec(style, script) {
        Some(dir) => Some(join_spec(style, dir, "fetch_media.py"@)),
        None => None,
    }
}

pub fn worker_script(runtime: &WhisperRuntime) -> (res: Option<String>)
    ensures
        match worker_script_spec(runtime.style, runtime.script@) {
            Some(p) => res matches Some(r) && r@ == p,
            None => res is None,
        },
{
    let dir = parent(runtime.style, runtime.script.as_str())?;
    Some(join(runtime.style, dir.as_str(), "fetch_media.py"))
}

/// Whether a file exists at `path` (`Path::is_file`). It reads the disk, so
/// nothing is promised of the answer.
#[verifier::external_body]
pub(crate) fn path_is_file(path: &str) -> bool {
    std::path::Path::new(path).is_file()
}

/// Whether anything exists at `path` (`Path::exists`). It reads the disk,
/// so nothing is promised of the answer.
#[verifier::external_body]
pub(crate) fn path_exists(path: &str) -> bool {
    std::path::Path::new(path).exists()
}

/// Whether a directory exists at `path` (`Path::is_dir`). It reads the
/// disk, so nothing is promised of the answer.
#[verifier::external_body]
pub(crate) fn path_is_dir(path: &str) -> bool {
    std::path::Path::new(path).is_dir()
}

/// Whether yt-dlp is staged: its package directory exists.
pub fn dependencies_present(runtime: &WhisperRuntime) -> (res: bool)
    ensures
        res ==> packages_dir_spec(runtime.style, runtime.python@) is Some,
{
    match packages_dir(runtime) {
        Some(dir) => {
            let pkg = join(runtime.style, dir.as_str(), "yt_dlp");
            path_is_dir(pkg.as_str())
        },
        None => false,
    }
}

/// Whether the JavaScript runtime's executable is staged.
fn js_runtime_present(runtime: &WhisperRuntime) -> (res: bool)
    ensures
        res ==> packages_dir_spec(runtime.style, runtime.python@) is Some,
{
    match js_runtime_dir(runtime) {
        Some(dir) => {
            let name = if runtime.style == PathStyle::Windows {
                "deno.exe"
            } else {
                "deno"
            };
            let exe = join(runtime.style, dir.as_str(), name);
            path_is_file(exe.as_str())
        },
        None => false,
    }
}

/// The first fact that does not hold, in the order the steps are taken.
pub open spec fn first_blocker_spec(
    runtime_present: bool,
    worker_present: bool,
    dependencies_present: bool,
    consent_granted: bool,
) -> Option<MediaFetchBlocker> {
    if !runtime_present {
        Some(MediaFetchBlocker::RuntimeMissing)
    } else if !worker_present {
        Some(MediaFetchBlocker::WorkerMissing)
    } else if !dependencies_present {
        Some(MediaFetchBlocker::DependenciesMissing)
    } else if !consent_granted {
        Some(MediaFetchBlocker::ConsentWithheld)
    } else {
        None
    }
}

/// Decides the single blocker from the four facts.
pub fn first_blocker(
    runtime_present: bool,
    worker_present: bool,
    dependencies_present: bool,
    consent_granted: bool,
) -> (res: Option<MediaFetchBlocker>)
    ensures
        res == first_blocker_spec(
            runtime_present,
            worker_present,
            dependencies_present,
            consent_granted,
        ),
{
    if !runtime_present {
        return Some(MediaFetchBlocker::RuntimeMissing);
    }
    if !worker_present {
        return Some(MediaFetchBlocker::WorkerMissing);
    }
    if !dependencies_present {
        return Some(MediaFetchBlocker::DependenciesMissing);
    }
    if !consent_granted {
        return Some(MediaFetchBlocker::ConsentWithheld);
    }
    None
}

/// A fetch is possible exactly when every fact holds, consent included:
/// staging the fetcher is not agreeing to its use.
pub proof fn law_available_needs_every_fact(r: bool, w: bool, d: bool, c: bool)
    ensures
        (first_blocker_spec(r, w, d, c) is None) <==> (r && w && d && c),
        first_blocker_spec(r, w, d, false) is Some,
{
}

/// The readiness report made of the facts found: the blocker and its code
/// and sentence, the JavaScript advisory while no runtime is staged, and
/// where the packages live.
pub open spec fn readiness_matches(
    res: MediaFetchReadiness,
    style: PathStyle,
    python: Seq<char>,
    runtime_present: bool,
    worker_present: bool,
    dependencies_present: bool,
    js_runtime_present: bool,
    consent_granted: bool,
) -> bool {
    let blocker = first_blocker_spec(
        runtime_present,
        worker_present,
        dependencies_present,
        consent_granted,
    );
    &&& res.blocker == blocker
    &&& res.available == (blocker is None)
    &&& match blocker {
        Some(b) => (res.blocker_code matches Some(c) && c@ == code_spec(b)) && (
        res.detail matches Some(d) && d@ == detail_spec(b)),
        None => res.blocker_code is None && res.detail is None,
    }
    &&& res.runtime_present == runtime_present
    &&& res.worker_present == worker_present
    &&& res.dependencies_present == dependencies_present
    &&& res.consent_granted == consent_granted
    &&& res.js_runtime_present == js_runtime_present
    &&& (if js_runtime_present {
        res.js_runtime_detail is None
    } else {
        res.js_runtime_detail matches Some(a) && a@ == JS_RUNTIME_ADVISORY@
    })
    &&& res.max_duration_s == MAX_FETCH_DURATION_S
    &&& res.packages_dir@ == match packages_dir_spec(style, python) {
        Some(p) => p,
        None => seq![],
    }
}

/// The report for an installation where the given facts were found.
pub fn readiness(
    runtime: &WhisperRuntime,
    runtime_present: bool,
    worker_present: bool,
    dependencies_present: bool,
    js_runtime_present: bool,
    consent_granted: bool,
) -> (res: MediaFetchReadiness)
    ensures
        readiness_matches(
            res,
            runtime.style,
            runtime.python@,
            runtime_present,
            worker_present,
            dependencies_present,
            js_runtime_present,
            consent_granted,
        ),
{
    let blocker = first_blocker(
        runtime_present,
        worker_present,
        dependencies_present,
        consent_granted,
    );
    let (blocker_code, detail) = match blocker {
        Some(b) => (Some(b.code()), Some(copy_string(b.detail()))),
        None => (None, None),
    };
    MediaFetchReadiness {
        available: blocker.is_none(),
        blocker,
        blocker_code,
        detail,
        runtime_present,
        worker_present,
        dependencies_present,
        consent_granted,
        js_runtime_present,
        js_runtime_detail: if js_runtime_present {
            None
        } else {
            Some(JS_RUNTIME_ADVISORY)
        },
        max_duration_s: MAX_FETCH_DURATION_S,
        packages_dir: match packages_dir(runtime) {
            Some(p) => p,
            None => String::new(),
        },
    }
}

/// Inspects the installation: filesystem checks only, no subprocess and no
/// network. Whatever the disk holds, the report is consistent: a worker is
/// only found where its path resolves, the packages only where their
/// directory does, and it is never available without consent.
pub fn probe(runtime: &WhisperRuntime, consent_granted: bool) -> (res: MediaFetchReadiness)
    ensures
        readiness_matches(
            res,
            runtime.style,
            runtime.python@,
            res.runtime_present,
            res.worker_present,
            res.dependencies_present,
            res.js_runtime_present,
            consent_granted,
        ),
        res.worker_present ==> worker_script_spec(runtime.style, runtime.script@) is Some,
        res.dependencies_present ==> packages_dir_spec(runtime.style, runtime.python@) is Some,
        res.js_runtime_present ==> packages_dir_spec(runtime.style, runtime.python@) is Some,
        res.available ==> consent_granted,
{
    let runtime_present = path_is_file(runtime.python.as_str());
    let worker_present = match worker_script(runtime) {
        Some(script) => path_is_file(script.as_str()),
        None => false,
    };
    let deps = dependencies_present(runtime);
    let js = js_runtime_present(runtime);
    readiness(runtime, runtime_present, worker_present, deps, js, consent_granted)
}

// ---------------------------------------------------------------------------
// URLs
// ---------------------------------------------------------------------------

/// Position of the first `://` in `s`.
pub open spec fn scheme_end(s: Seq<char>) -> Option<nat>
    decreases s.len(),
{
    if s.len() < 3 {
        None
    } else if s[0] == ':' && s[1] == '/' && s[2] == '/' {
        Some(0)
    } else {
        match scheme_end(s.drop_first()) {
            Some(i) => Some(i + 1),
            None => None,
        }
    }
}

pub open spec fn ends_host(c: char) -> bool {
    c == '/' || c == '?' || c == '#'
}

/// What precedes the first `/`, `?` or `#`.
pub open spec fn authority_of(s: Seq<char>) -> Seq<char>
    decreases s.len(),
{
    if s.len() == 0 || ends_host(s[0]) {
        seq![]
    } else {
        seq![s[0]] + authority_of(s.drop_first())
    }
}

/// What follows the last `@` (all of it when there is none).
pub open spec fn after_userinfo(s: Seq<char>) -> Seq<char>
    decreases s.len(),
{
    if s.len() == 0 {
        s
    } else if s.last() == '@' {
        seq![]
    } else {
        after_userinfo(s.drop_last()).push(s.last())
    }
}

/// The host name of an authority's host part: a trailing `:port` (digits
/// after the last `:`) is set aside.
pub open spec fn without_port(h: Seq<char>) -> Seq<char> {
    match crate::text::last_index(h, ':') {
        Some(i) => if crate::text::all_digits(h.skip(i + 1)) {
            h.take(i)
        } else {
            h
        },
        None => h,
    }
}

fn without_port_exec(h: &Vec<char>) -> (out: Vec<char>)
    ensures
        out@ == without_port(h@),
{
    let found = crate::text::rfind_char(h, ':');
    proof {
        crate::text::lemma_last_index(h@, ':');
    }
    match found {
        Some(i) => {
            assert(crate::text::last_index(h@, ':') == Some(i as int));
            assert(i < h.len());
            let mut k: usize = i + 1;
            while k < h.len()
                invariant
                    i < h.len(),
                    crate::text::last_index(h@, ':') == Some(i as int),
                    i + 1 <= k <= h.len(),
                    forall|m: int| i + 1 <= m < k ==> crate::text::is_digit(#[trigger] h@[m]),
                decreases h.len() - k,
            {
                if !('0' <= h[k] && h[k] <= '9') {
                    assert(h@.skip(i + 1)[k - i - 1] == h@[k as int]);
                    assert(!crate::text::all_digits(h@.skip(i + 1)));
                    let out = crate::text::slice_chars(h, 0, h.len());
                    assert(out@ =~= h@);
                    return out;
                }
                k += 1;
            }
            assert forall|m: int| 0 <= m < h@.skip(i + 1).len() implies crate::text::is_digit(
                #[trigger] h@.skip(i + 1)[m],
            ) by {
                assert(h@.skip(i + 1)[m] == h@[m + i + 1]);
            }
            let out = crate::text::slice_chars(h, 0, i);
            assert(out@ =~= h@.take(i as int));
            out
        },
        None => {
            let out = crate::text::slice_chars(h, 0, h.len());
            assert(out@ =~= h@);
            out
        },
    }
}

pub const NOT_A_LINK: &'static str = "ต้องเป็นลิงก์ที่ขึ้นต้นด้วย http:// หรือ https://";

pub const NO_HOST: &'static str = "ลิงก์นี้ไม่มีชื่อโฮสต์";

/// The URL accepted for a fetch: trimmed, with an `http` or `https` scheme
/// (any case) and a host name once userinfo and port are set aside;
/// otherwise the reason
/// in words.
pub open spec fn require_http_url_spec(raw: Seq<char>) -> Result<Seq<char>, Seq<char>> {
    let t = trim_spec(raw);
    match scheme_end(t) {
        None => Err(NOT_A_LINK@),
        Some(i) => {
            let scheme = t.take(i as int);
            let rest = t.skip(i as int + 3);
            if lower_spec(scheme) != "http"@ && lower_spec(scheme) != "https"@ {
                Err("ไม่รองรับลิงก์แบบ "@ + scheme + ":// — รับเฉพาะ http และ https"@)
            } else if without_port(after_userinfo(authority_of(rest))).len() == 0 {
                Err(NO_HOST@)
            } else {
                Ok(t)
            }
        },
    }
}

proof fn lemma_scheme_end(s: Seq<char>)
    ensures
        scheme_end(s) matches Some(i) ==> i + 3 <= s.len(),
    decreases s.len(),
{
    if s.len() >= 3 && !(s[0] == ':' && s[1] == '/' && s[2] == '/') {
        lemma_scheme_end(s.drop_first());
    }
}

fn find_scheme_end(s: &Vec<char>) -> (res: Option<usize>)
    ensures
        match scheme_end(s@) {
            Some(i) => res == Some(i as usize),
            None => res is None,
        },
{
    let mut i: usize = 0;
    assert(s@.skip(0) =~= s@);
    while s.len() >= 3 && i <= s.len() - 3
        invariant
            i <= s.len(),
            scheme_end(s@) == match scheme_end(s@.skip(i as int)) {
                Some(j) => Some((j + i) as nat),
                None => None::<nat>,
            },
        decreases s.len() - i,
    {
        let ghost t = s@.skip(i as int);
        assert(t[0] == s@[i as int] && t[1] == s@[i + 1] && t[2] == s@[i + 2]);
        if s[i] == ':' && s[i + 1] == '/' && s[i + 2] == '/' {
            return Some(i);
        }
        assert(t.drop_first() =~= s@.skip(i + 1));
        i += 1;
    }
    None
}

fn authority_exec(s: &Vec<char>) -> (out: Vec<char>)
    ensures
        out@ == authority_of(s@),
{
    let mut i: usize = 0;
    let ghost full = authority_of(s@);
    assert(s@.skip(0) =~= s@);
    while i < s.len() && !(s[i] == '/' || s[i] == '?' || s[i] == '#')
        invariant
            i <= s.len(),
            full == authority_of(s@),
            full == s@.take(i as int) + authority_of(s@.skip(i as int)),
        decreases s.len() - i,
    {
        let ghost t = s@.skip(i as int);
        assert(t[0] == s@[i as int]);
        assert(t.drop_first() =~= s@.skip(i + 1));
        assert(s@.take(i + 1) =~= s@.take(i as int) + seq![s@[i as int]]);
        i += 1;
    }
    proof {
        let t = s@.skip(i as int);
        if i < s.len() {
            assert(t[0] == s@[i as int]);
        }
        assert(authority_of(t) =~= Seq::<char>::empty());
        assert(full =~= s@.take(i as int));
    }
    crate::text::slice_chars(s, 0, i)
}

fn after_userinfo_exec(s: &Vec<char>) -> (out: Vec<char>)
    ensures
        out@ == after_userinfo(s@),
{
    let mut i: usize = s.len();
    assert(s@.take(i as int) =~= s@);
    assert(s@.skip(i as int) =~= seq![]);
    while i > 0 && s[i - 1] != '@'
        invariant
            i <= s.len(),
            after_userinfo(s@) == after_userinfo(s@.take(i as int)) + s@.skip(i as int),
        decreases i,
    {
        let ghost t = s@.take(i as int);
        assert(t.drop_last() =~= s@.take(i - 1));
        assert(t.last() == s@[i - 1]);
        assert(after_userinfo(t) + s@.skip(i as int) =~= after_userinfo(s@.take(i - 1)) + s@.skip(
            i - 1,
        ));
        i -= 1;
    }
    proof {
        let t = s@.take(i as int);
        if i > 0 {
            assert(t.last() == s@[i - 1]);
        }
        assert(after_userinfo(t) =~= seq![]);
        assert(seq![] + s@.skip(i as int) =~= s@.skip(i as int));
    }
    let out = crate::text::slice_chars(s, i, s.len());
    assert(out@ =~= s@.skip(i as int));
    out
}

/// Rejects anything that is not an `http(s)` URL with a host; answers the
/// trimmed URL otherwise.
pub fn require_http_url(raw: &str) -> (res: Result<String, String>)
    ensures
        match require_http_url_spec(raw@) {
            Ok(u) => res matches Ok(r) && r@ == u,
            Err(e) => res matches Err(r) && r@ == e,
        },
{
    let t = trim(&chars_of(raw));
    let i = match find_scheme_end(&t) {
        Some(i) => i,
        None => return Err(copy_string(NOT_A_LINK)),
    };
    proof {
        lemma_scheme_end(t@);
    }
    let scheme = crate::text::slice_chars(&t, 0, i);
    assert(scheme@ =~= t@.take(i as int));
    let rest = crate::text::slice_chars(&t, i + 3, t.len());
    assert(rest@ =~= t@.skip(i + 3));
    let lower = crate::text::to_ascii_lower(&scheme);
    if !crate::text::text_is(&lower, "http") && !crate::text::text_is(&lower, "https") {
        let mut message = copy_string("ไม่รองรับลิงก์แบบ ");
        crate::text::push_all(&mut message, &scheme);
        push_text(&mut message, ":// — รับเฉพาะ http และ https");
        return Err(message);
    }
    let host = without_port_exec(&after_userinfo_exec(&authority_exec(&rest)));
    if host.len() == 0 {
        return Err(copy_string(NO_HOST));
    }
    Ok(string_of(&t))
}

/// A URL passed on always has an `http` or `https` scheme and is the
/// trimmed input; a `file:` or other scheme never is.
pub proof fn law_only_http_urls_pass(raw: Seq<char>)
    ensures
        require_http_url_spec(raw) matches Ok(u) ==> {
            &&& u == trim_spec(raw)
            &&& scheme_end(u) is Some
            &&& (lower_spec(u.take(scheme_end(u)->0 as int)) == "http"@ || lower_spec(
                u.take(scheme_end(u)->0 as int),
            ) == "https"@)
        },
{
}

/// How the fetch worker is run: its script, its arguments, and the
/// directory to put on the child's `PATH` for the JavaScript runtime.
#[derive(Debug)]
pub struct FetchInvocation {
    pub script: String,
    pub args: Vec<String>,
    pub extra_path: Option<String>,
}

/// The fetch worker's invocation, given whether the JavaScript runtime is
/// staged: the URL must be an `http(s)` link with a host, and the worker
/// script and the package directory must be placed by the runtime's layout.
/// The worker gets the trimmed URL, the destination, the package
/// directory and the longest duration it may fetch.
pub open spec fn fetch_invocation_spec(
    style: PathStyle,
    python: Seq<char>,
    script: Seq<char>,
    url: Seq<char>,
    dest_dir: Seq<char>,
    js_present: bool,
) -> Result<(Seq<char>, Seq<Seq<char>>, Option<Seq<char>>), Seq<char>> {
    match require_http_url_spec(url) {
        Err(e) => Err(e),
        Ok(u) => match worker_script_spec(style, script) {
            None => Err("could not resolve the fetch worker script"@),
            Some(w) => match packages_dir_spec(style, python) {
                None => Err("could not resolve the staged fetch packages"@),
                Some(p) => Ok(
                    (
                        w,
                        seq![
                            u,
                            "--dest-dir"@,
                            dest_dir,
                            "--packages-dir"@,
                            p,
                            "--max-duration-s"@,
                            crate::text::decimal(MAX_FETCH_DURATION_S as nat),
                        ],
                        if js_present {
                            Some(join_spec(style, p, "bin"@))
                        } else {
                            None
                        },
                    ),
                ),
            },
        },
    }
}

pub open spec fn invocation_matches(
    res: Result<FetchInvocation, String>,
    want: Result<(Seq<char>, Seq<Seq<char>>, Option<Seq<char>>), Seq<char>>,
) -> bool {
    match want {
        Err(e) => res matches Err(r) && r@ == e,
        Ok((w, a, x)) => res matches Ok(inv) && inv.script@ == w && strings_view(inv.args@) == a
            && match inv.extra_path {
            Some(d) => x == Some(d@),
            None => x is None,
        },
    }
}

/// Builds the fetch worker's invocation once it is known whether the
/// JavaScript runtime is staged.
pub fn fetch_invocation_with(
    runtime: &WhisperRuntime,
    url: &str,
    dest_dir: &str,
    js_present: bool,
) -> (res: Result<FetchInvocation, String>)
    ensures
        invocation_matches(
            res,
            fetch_invocation_spec(
                runtime.style,
                runtime.python@,
                runtime.script@,
                url@,
                dest_dir@,
                js_present,
            ),
        ),
{
    let link = require_http_url(url)?;
    let script = match worker_script(runtime) {
        Some(s) => s,
        None => return Err(copy_string("could not resolve the fetch worker script")),
    };
    let packages = match packages_dir(runtime) {
        Some(p) => p,
        None => return Err(copy_string("could not resolve the staged fetch packages")),
    };
    let mut max = String::new();
    crate::text::push_u64(&mut max, MAX_FETCH_DURATION_S as u64);
    let mut args: Vec<String> = Vec::new();
    args.push(link);
    args.push(copy_string("--dest-dir"));
    args.push(copy_string(dest_dir));
    args.push(copy_string("--packages-dir"));
    args.push(packages.clone());
    args.push(copy_string("--max-duration-s"));
    args.push(max);
    let extra_path = if js_present {
        Some(join(runtime.style, packages.as_str(), "bin"))
    } else {
        None
    };
    let inv = FetchInvocation { script, args, extra_path };
    proof {
        let want = fetch_invocation_spec(
            runtime.style,
            runtime.python@,
            runtime.script@,
            url@,
            dest_dir@,
            js_present,
        );
        assert(strings_view(inv.args@) =~= want->Ok_0.1);
    }
    Ok(inv)
}

/// Builds the fetch worker's invocation, checking the disk for the
/// JavaScript runtime; the result is stated for the answer found.
pub fn fetch_invocation(runtime: &WhisperRuntime, url: &str, dest_dir: &str) -> (res: Result<
    FetchInvocation,
    String,
>)
    ensures
        exists|js_present: bool|
            invocation_matches(
                res,
                #[trigger] fetch_invocation_spec(
                    runtime.style,
                    runtime.python@,
                    runtime.script@,
                    url@,
                    dest_dir@,
                    js_present,
                ),
            ),
{
    let js = js_runtime_present(runtime);
    fetch_invocation_with(runtime, url, dest_dir, js)
}

} // verus!
