//! Where the transcription worker lives, which model it loads, and how a
//! Python worker is launched and read.
//!
//! The desktop ships a Python runtime next to its `scripts/` directory. The
//! transcription profile picks the device, the model profile picks the model
//! and the backend, and from those the paths handed to the worker follow.
use vstd::prelude::*;
use crate::text::{opt_chars};
use crate::paths::{join, join_spec, parent, parent_spec, PathStyle};
use crate::text::{
    byte_len, char_len_utf8, chars_of, copy_string, lemma_byte_len_append, lemma_byte_len_prefix,
    push_text,
};

verus! {

pub const THAI_CANDIDATE_PROFILE: &'static str = "thai-large-candidate";

pub const THAI_CANDIDATE_MODEL: &'static str = "whisper-th-large-combined";

pub const THAI_CANDIDATE_RUNTIME: &'static str = ".venv-whisper-transformers-candidate";

/// Why the reference model cannot be picked as the desktop profile.
pub const QUALIFICATION_ONLY: &'static str = "large-v3 is qualification-only; run the reference worker explicitly instead of selecting it in the desktop profile";

/// The Python interpreter, the batch worker script and the CUDA directory of
/// the bundled runtime, and which platform's paths they are.
#[derive(Debug)]
pub struct WhisperRuntime {
    pub python: String,
    pub script: String,
    pub cuda_bin: String,
    pub style: PathStyle,
}

impl WhisperRuntime {
    /// A runtime that runs `script` with the interpreter `python`, with no
    /// CUDA directory.
    pub fn for_test(python: String, script: String, style: PathStyle) -> (res: WhisperRuntime)
        ensures
            res.python == python,
            res.script == script,
            res.cuda_bin@.len() == 0,
            res.style == style,
    {
        WhisperRuntime { python, script, cuda_bin: String::new(), style }
    }

    /// The runtime laid out under `root`: the interpreter of
    /// `.venv-whisper`, the batch script under `scripts`, and the CUDA
    /// libraries under `runtime/cuda12/bin`.
    pub fn at_root(style: PathStyle, root: &str) -> (res: WhisperRuntime)
        ensures
            res@ == runtime_at_spec(style, root@),
    {
        let venv = join(style, root, ".venv-whisper");
        let scripts_dir = join(style, venv.as_str(), "Scripts");
        let python = join(style, scripts_dir.as_str(), "python.exe");
        let scripts = join(style, root, "scripts");
        let script = join(style, scripts.as_str(), "transcribe.py");
        let rt = join(style, root, "runtime");
        let cuda = join(style, rt.as_str(), "cuda12");
        let cuda_bin = join(style, cuda.as_str(), "bin");
        WhisperRuntime { python, script, cuda_bin, style }
    }
}

pub struct RuntimeView {
    pub python: Seq<char>,
    pub script: Seq<char>,
    pub cuda_bin: Seq<char>,
    pub style: PathStyle,
}

impl View for WhisperRuntime {
    type V = RuntimeView;

    open spec fn view(&self) -> RuntimeView {
        RuntimeView {
            python: self.python@,
            script: self.script@,
            cuda_bin: self.cuda_bin@,
            style: self.style,
        }
    }
}

pub open spec fn runtime_at_spec(style: PathStyle, root: Seq<char>) -> RuntimeView {
    RuntimeView {
        python: join_spec(
            style,
            join_spec(style, join_spec(style, root, ".venv-whisper"@), "Scripts"@),
            "python.exe"@,
        ),
        script: join_spec(style, join_spec(style, root, "scripts"@), "transcribe.py"@),
        cuda_bin: join_spec(
            style,
            join_spec(style, join_spec(style, root, "runtime"@), "cuda12"@),
            "bin"@,
        ),
        style,
    }
}

/// The runtime the app uses: the packaged one when the package holds its
/// interpreter, the checkout's otherwise. Whether it does depends on the
/// disk, so the result is stated for the answer the check found.
pub fn whisper_runtime(style: PathStyle, source_root: &str, packaged_root: Option<&str>) -> (res:
    WhisperRuntime)
    ensures
        res@ == runtime_at_spec(style, source_root@) || (packaged_root matches Some(p) && res@
            == runtime_at_spec(style, p@)),
{
    if let Some(p) = packaged_root {
        let packaged = WhisperRuntime::at_root(style, p);
        if crate::media_fetch::path_exists(packaged.python.as_str()) {
            return packaged;
        }
    }
    WhisperRuntime::at_root(style, source_root)
}

/// The checkout's root: the directory above the native crate's manifest
/// directory.
pub fn source_root(style: PathStyle, manifest_dir: &str) -> (res: String)
    requires
        parent_spec(style, manifest_dir@) is Some,
    ensures
        res@ == parent_spec(style, manifest_dir@)->0,
{
    match parent(style, manifest_dir) {
        Some(p) => p,
        None => String::new(),
    }
}

/// The configured value, or `default` when nothing is configured.
pub open spec fn configured_or(configured: Option<Seq<char>>, default: Seq<char>) -> Seq<char> {
    match configured {
        Some(c) => c,
        None => default,
    }
}

pub open spec fn opt_view(o: Option<&str>) -> Option<Seq<char>> {
    match o {
        Some(s) => Some(s@),
        None => None,
    }
}

/// The transcription device profile: `cpu` unless configured, and only
/// `gpu` or `cpu`.
pub open spec fn transcription_profile_spec(configured: Option<Seq<char>>) -> Result<
    Seq<char>,
    Seq<char>,
> {
    let p = configured_or(configured, "cpu"@);
    if p == "gpu"@ || p == "cpu"@ {
        Ok(p)
    } else {
        Err("invalid FUNG_TRANSCRIPTION_PROFILE '"@ + p + "'; use 'gpu' or 'cpu'"@)
    }
}

pub fn transcription_profile_from(configured: Option<&str>) -> (res: Result<String, String>)
    ensures
        match transcription_profile_spec(opt_view(configured)) {
            Ok(p) => res matches Ok(r) && r@ == p,
            Err(e) => res matches Err(r) && r@ == e,
        },
{
    let profile = match configured {
        Some(c) => copy_string(c),
        None => copy_string("cpu"),
    };
    if crate::text::str_eq(profile.as_str(), "gpu") || crate::text::str_eq(profile.as_str(), "cpu") {
        Ok(profile)
    } else {
        let mut message = copy_string("invalid FUNG_TRANSCRIPTION_PROFILE '");
        push_text(&mut message, profile.as_str());
        push_text(&mut message, "'; use 'gpu' or 'cpu'");
        Err(message)
    }
}

/// The error for a model profile that is not one of the desktop's.
pub open spec fn invalid_model_profile(p: Seq<char>) -> Seq<char> {
    "invalid FUNG_WHISPER_MODEL_PROFILE '"@ + p + "'; use 'turbo', 'medium', or '"@
        + THAI_CANDIDATE_PROFILE@ + "'"@
}

fn invalid_model_profile_message(p: &str) -> (res: String)
    ensures
        res@ == invalid_model_profile(p@),
{
    let mut message = copy_string("invalid FUNG_WHISPER_MODEL_PROFILE '");
    push_text(&mut message, p);
    push_text(&mut message, "'; use 'turbo', 'medium', or '");
    push_text(&mut message, THAI_CANDIDATE_PROFILE);
    push_text(&mut message, "'");
    message
}

/// The model a profile loads; the reference model is refused.
pub open spec fn model_name_spec(p: Seq<char>) -> Result<Seq<char>, Seq<char>> {
    if p == "turbo"@ {
        Ok("large-v3-turbo"@)
    } else if p == "medium"@ {
        Ok("medium"@)
    } else if p == THAI_CANDIDATE_PROFILE@ {
        Ok(THAI_CANDIDATE_MODEL@)
    } else if p == "large-v3"@ || p == "reference"@ {
        Err(QUALIFICATION_ONLY@)
    } else {
        Err(invalid_model_profile(p))
    }
}

/// The backend a profile runs on.
pub open spec fn model_backend_spec(p: Seq<char>) -> Result<Seq<char>, Seq<char>> {
    if p == THAI_CANDIDATE_PROFILE@ {
        Ok("transformers"@)
    } else if p == "turbo"@ || p == "medium"@ {
        Ok("faster-whisper"@)
    } else if p == "large-v3"@ || p == "reference"@ {
        Err(QUALIFICATION_ONLY@)
    } else {
        Err(invalid_model_profile(p))
    }
}

/// The model name for a configured profile (`turbo` when none is).
pub fn whisper_model_name_from(configured: Option<&str>) -> (res: Result<&'static str, String>)
    ensures
        match model_name_spec(configured_or(opt_view(configured), "turbo"@)) {
            Ok(m) => res matches Ok(r) && r@ == m,
            Err(e) => res matches Err(r) && r@ == e,
        },
{
    let p = match configured {
        Some(c) => c,
        None => "turbo",
    };
    if crate::text::str_eq(p, "turbo") {
        Ok("large-v3-turbo")
    } else if crate::text::str_eq(p, "medium") {
        Ok("medium")
    } else if crate::text::str_eq(p, THAI_CANDIDATE_PROFILE) {
        Ok(THAI_CANDIDATE_MODEL)
    } else if crate::text::str_eq(p, "large-v3") || crate::text::str_eq(p, "reference") {
        Err(copy_string(QUALIFICATION_ONLY))
    } else {
        Err(invalid_model_profile_message(p))
    }
}

/// The backend for a configured profile (`turbo` when none is).
pub fn whisper_model_backend_from(configured: Option<&str>) -> (res: Result<&'static str, String>)
    ensures
        match model_backend_spec(configured_or(opt_view(configured), "turbo"@)) {
            Ok(m) => res matches Ok(r) && r@ == m,
            Err(e) => res matches Err(r) && r@ == e,
        },
{
    let p = match configured {
        Some(c) => c,
        None => "turbo",
    };
    if crate::text::str_eq(p, THAI_CANDIDATE_PROFILE) {
        Ok("transformers")
    } else if crate::text::str_eq(p, "turbo") || crate::text::str_eq(p, "medium") {
        Ok("faster-whisper")
    } else if crate::text::str_eq(p, "large-v3") || crate::text::str_eq(p, "reference") {
        Err(copy_string(QUALIFICATION_ONLY))
    } else {
        Err(invalid_model_profile_message(p))
    }
}

/// The worker script for a profile: the transformers scripts beside the
/// batch script for the Thai candidate, the persistent live script beside
/// it for live use, and the batch script itself otherwise.
pub open spec fn worker_script_spec(
    style: PathStyle,
    script: Seq<char>,
    profile: Seq<char>,
    live: bool,
) -> Result<Seq<char>, Seq<char>> {
    if profile == THAI_CANDIDATE_PROFILE@ || live {
        match parent_spec(style, script) {
            None => Err("scripts directory not found"@),
            Some(dir) => Ok(
                join_spec(
                    style,
                    dir,
                    if profile == THAI_CANDIDATE_PROFILE@ {
                        if live {
                            "transcribe_transformers_live.py"@
                        } else {
                            "transcribe_transformers.py"@
                        }
                    } else {
                        "transcribe_live.py"@
                    },
                ),
            ),
        }
    } else {
        Ok(script)
    }
}

pub fn whisper_worker_script_for_profile(runtime: &WhisperRuntime, profile: &str, live: bool) -> (res:
    Result<String, String>)
    ensures
        match worker_script_spec(runtime.style, runtime.script@, profile@, live) {
            Ok(p) => res matches Ok(r) && r@ == p,
            Err(e) => res matches Err(r) && r@ == e,
        },
{
    let thai = crate::text::str_eq(profile, THAI_CANDIDATE_PROFILE);
    if thai || live {
        let dir = match parent(runtime.style, runtime.script.as_str()) {
            Some(d) => d,
            None => return Err(copy_string("scripts directory not found")),
        };
        let name = if thai {
            if live {
                "transcribe_transformers_live.py"
            } else {
                "transcribe_transformers.py"
            }
        } else {
            "transcribe_live.py"
        };
        return Ok(join(runtime.style, dir.as_str(), name));
    }
    Ok(runtime.script.clone())
}

/// Where a profile's model is bundled: `models/{model}` under the runtime
/// root two levels above the interpreter, or, for the Thai candidate, under
/// its own runtime beside that root. `None` when the layout has no such
/// root or the profile has no model.
pub open spec fn bundled_model_spec(style: PathStyle, python: Seq<char>, profile: Seq<char>) -> Option<
    Seq<char>,
> {
    match parent_spec(style, python) {
        None => None,
        Some(scripts) => match parent_spec(style, scripts) {
            None => None,
            Some(root) => match model_name_spec(profile) {
                Err(_) => None,
                Ok(model) => if profile == THAI_CANDIDATE_PROFILE@ {
                    match parent_spec(style, root) {
                        None => None,
                        Some(up) => Some(
                            join_spec(
                                style,
                                join_spec(
                                    style,
                                    join_spec(style, up, THAI_CANDIDATE_RUNTIME@),
                                    "models"@,
                                ),
                                model,
                            ),
                        ),
                    }
                } else {
                    Some(join_spec(style, join_spec(style, root, "models"@), model))
                },
            },
        },
    }
}

pub fn bundled_whisper_model_for_profile(runtime: &WhisperRuntime, profile: &str) -> (res: Option<
    String,
>)
    ensures
        match bundled_model_spec(runtime.style, runtime.python@, profile@) {
            Some(p) => res matches Some(r) && r@ == p,
            None => res is None,
        },
{
    let style = runtime.style;
    let scripts = parent(style, runtime.python.as_str())?;
    let root = parent(style, scripts.as_str())?;
    let model = match whisper_model_name_from(Some(profile)) {
        Ok(m) => m,
        Err(_) => return None,
    };
    let model_root = if crate::text::str_eq(profile, THAI_CANDIDATE_PROFILE) {
        let up = parent(style, root.as_str())?;
        join(style, up.as_str(), THAI_CANDIDATE_RUNTIME)
    } else {
        root
    };
    let models = join(style, model_root.as_str(), "models");
    Some(join(style, models.as_str(), model))
}

/// The bundled model of the configured profile (`turbo` when none is).
pub fn bundled_whisper_model(runtime: &WhisperRuntime, configured: Option<&str>) -> (res: Option<
    String,
>)
    ensures
        match bundled_model_spec(
            runtime.style,
            runtime.python@,
            configured_or(opt_view(configured), "turbo"@),
        ) {
            Some(p) => res matches Some(r) && r@ == p,
            None => res is None,
        },
{
    let profile = match configured {
        Some(c) => c,
        None => "turbo",
    };
    bundled_whisper_model_for_profile(runtime, profile)
}

/// The worker script for the configured profile (`turbo` when none is),
/// once the profile's backend is known.
pub fn whisper_worker_script(runtime: &WhisperRuntime, configured: Option<&str>, live: bool) -> (res:
    Result<String, String>)
    ensures
        match model_backend_spec(configured_or(opt_view(configured), "turbo"@)) {
            Err(e) => res matches Err(r) && r@ == e,
            Ok(_) => match worker_script_spec(
                runtime.style,
                runtime.script@,
                configured_or(opt_view(configured), "turbo"@),
                live,
            ) {
                Ok(p) => res matches Ok(r) && r@ == p,
                Err(e) => res matches Err(r) && r@ == e,
            },
        },
{
    let profile = match configured {
        Some(c) => c,
        None => "turbo",
    };
    whisper_model_backend_from(configured)?;
    whisper_worker_script_for_profile(runtime, profile, live)
}

/// Where the profile's staging script is: the candidate's own for the Thai
/// candidate, the runtime's otherwise.
pub open spec fn staging_hint(configured: Option<Seq<char>>) -> Seq<char> {
    if configured == Some(THAI_CANDIDATE_PROFILE@) {
        "scripts/stage_whisper_transformers_candidate.ps1"@
    } else {
        "scripts/stage_whisper_runtime.ps1"@
    }
}

/// The bundled model of the configured profile, given whether its
/// directory is present: the profile must name a usable model, the runtime
/// layout must place it, and it must be staged.
pub open spec fn bundled_model_verdict_spec(
    style: PathStyle,
    python: Seq<char>,
    configured: Option<Seq<char>>,
    present: bool,
) -> Result<Seq<char>, Seq<char>> {
    let profile = configured_or(configured, "turbo"@);
    match model_name_spec(profile) {
        Err(e) => Err(e),
        Ok(model) => match bundled_model_spec(style, python, profile) {
            None => Err(
                "FUNG Whisper runtime layout is invalid; the bundled Python path has no runtime root"@,
            ),
            Some(path) => if present {
                Ok(path)
            } else {
                Err(
                    "FUNG Whisper model '"@ + model + "' is missing at "@ + path + ". Stage it with "@
                        + staging_hint(configured) + "."@,
                )
            },
        },
    }
}

/// Decides on the bundled model once it is known whether its directory is
/// present.
pub fn bundled_model_verdict(runtime: &WhisperRuntime, configured: Option<&str>, present: bool) -> (res:
    Result<String, String>)
    ensures
        match bundled_model_verdict_spec(runtime.style, runtime.python@, opt_view(configured), present) {
            Ok(p) => res matches Ok(r) && r@ == p,
            Err(e) => res matches Err(r) && r@ == e,
        },
{
    let model = whisper_model_name_from(configured)?;
    let path = match bundled_whisper_model(runtime, configured) {
        Some(p) => p,
        None => {
            return Err(
                copy_string(
                    "FUNG Whisper runtime layout is invalid; the bundled Python path has no runtime root",
                ),
            );
        },
    };
    if present {
        return Ok(path);
    }
    let hint = match configured {
        Some(c) => if crate::text::str_eq(c, THAI_CANDIDATE_PROFILE) {
            "scripts/stage_whisper_transformers_candidate.ps1"
        } else {
            "scripts/stage_whisper_runtime.ps1"
        },
        None => "scripts/stage_whisper_runtime.ps1",
    };
    let mut m = copy_string("FUNG Whisper model '");
    crate::text::push_text(&mut m, model);
    crate::text::push_text(&mut m, "' is missing at ");
    crate::text::push_text(&mut m, path.as_str());
    crate::text::push_text(&mut m, ". Stage it with ");
    crate::text::push_text(&mut m, hint);
    crate::text::push_text(&mut m, ".");
    Err(m)
}

/// The bundled model of the configured profile, refused unless its
/// directory is staged. Whether it is depends on the disk, so the result is
/// stated for the answer the check found.
pub fn require_bundled_whisper_model(runtime: &WhisperRuntime, configured: Option<&str>) -> (res:
    Result<String, String>)
    ensures
        exists|present: bool|
            match #[trigger] bundled_model_verdict_spec(
                runtime.style,
                runtime.python@,
                opt_view(configured),
                present,
            ) {
                Ok(p) => res matches Ok(r) && r@ == p,
                Err(e) => res matches Err(r) && r@ == e,
            },
{
    let present = match bundled_whisper_model(runtime, configured) {
        Some(p) => crate::media_fetch::path_is_dir(p.as_str()),
        None => false,
    };
    bundled_model_verdict(runtime, configured, present)
}

/// A Windows verbatim path rewritten into the form a child process accepts:
/// `\\?\UNC\server\share` becomes `\\server\share`, and `\\?\C:\dir`
/// becomes `C:\dir`. Other verbatim namespaces, ordinary paths and every
/// path on other platforms stay as they are.
pub open spec fn child_compatible_spec(style: PathStyle, p: Seq<char>) -> Seq<char> {
    if style == PathStyle::Windows {
        if crate::text::starts_with(p, "\\\\?\\UNC\\"@) {
            "\\\\"@ + p.skip("\\\\?\\UNC\\"@.len() as int)
        } else if crate::text::starts_with(p, "\\\\?\\"@) {
            let rest = p.skip("\\\\?\\"@.len() as int);
            if rest.len() >= 3 && (('a' <= rest[0] <= 'z') || ('A' <= rest[0] <= 'Z')) && rest[1]
                == ':' && (rest[2] == '\\' || rest[2] == '/') {
                rest
            } else {
                p
            }
        } else {
            p
        }
    } else {
        p
    }
}

pub fn child_compatible_whisper_model_path(path: String, style: PathStyle) -> (res: String)
    ensures
        res@ == child_compatible_spec(style, path@),
{
    if style != PathStyle::Windows {
        return path;
    }
    let p = chars_of(path.as_str());
    let unc = chars_of("\\\\?\\UNC\\");
    if crate::text::has_prefix(&p, &unc) {
        let rest = crate::text::slice_chars(&p, unc.len(), p.len());
        assert(rest@ =~= p@.skip(unc@.len() as int));
        let mut out = copy_string("\\\\");
        crate::text::push_all(&mut out, &rest);
        return out;
    }
    let verbatim = chars_of("\\\\?\\");
    if crate::text::has_prefix(&p, &verbatim) {
        let rest = crate::text::slice_chars(&p, verbatim.len(), p.len());
        assert(rest@ =~= p@.skip(verbatim@.len() as int));
        if rest.len() >= 3 && (('a' <= rest[0] && rest[0] <= 'z') || ('A' <= rest[0] && rest[0]
            <= 'Z')) && rest[1] == ':' && (rest[2] == '\\' || rest[2] == '/') {
            return crate::text::string_of(&rest);
        }
    }
    path
}

/// The model path handed to the worker for the configured profile (`turbo`
/// when none is), in a form a child process accepts.
pub fn worker_whisper_model_env_path(runtime: &WhisperRuntime, configured: Option<&str>) -> (res:
    Option<String>)
    ensures
        match bundled_model_spec(
            runtime.style,
            runtime.python@,
            configured_or(opt_view(configured), "turbo"@),
        ) {
            Some(p) => res matches Some(r) && r@ == child_compatible_spec(runtime.style, p),
            None => res is None,
        },
{
    match bundled_whisper_model(runtime, configured) {
        Some(p) => Some(child_compatible_whisper_model_path(p, runtime.style)),
        None => None,
    }
}

// ---------------------------------------------------------------------------
// Running a Python worker
// ---------------------------------------------------------------------------

/// Why a worker cannot be launched, given whether the interpreter and the
/// script are on disk: the interpreter is reported first.
pub open spec fn launch_refusal_spec(
    python: Seq<char>,
    script: Seq<char>,
    python_present: bool,
    script_present: bool,
) -> Option<Seq<char>> {
    if !python_present {
        Some(
            "FUNG Python runtime is missing at "@ + python
                + ". Reinstall the FUNG application bundle."@,
        )
    } else if !script_present {
        Some("FUNG worker script is missing at "@ + script + ". Reinstall the FUNG application bundle."@)
    } else {
        None
    }
}

/// Decides whether a worker can be launched once it is known what is on
/// disk.
pub fn launch_refusal_with(
    runtime: &WhisperRuntime,
    script: &str,
    python_present: bool,
    script_present: bool,
) -> (res: Option<String>)
    ensures
        opt_chars(res) == launch_refusal_spec(runtime.python@, script@, python_present, script_present),
{
    if !python_present {
        let mut m = copy_string("FUNG Python runtime is missing at ");
        push_text(&mut m, runtime.python.as_str());
        push_text(&mut m, ". Reinstall the FUNG application bundle.");
        Some(m)
    } else if !script_present {
        let mut m = copy_string("FUNG worker script is missing at ");
        push_text(&mut m, script);
        push_text(&mut m, ". Reinstall the FUNG application bundle.");
        Some(m)
    } else {
        None
    }
}

/// Whether a worker can be launched, checking the disk; the answer is stated
/// for what the check found.
pub fn launch_refusal(runtime: &WhisperRuntime, script: &str) -> (res: Option<String>)
    ensures
        exists|python_present: bool, script_present: bool|
            opt_chars(res) == #[trigger] launch_refusal_spec(
                runtime.python@,
                script@,
                python_present,
                script_present,
            ),
{
    let python_present = crate::media_fetch::path_exists(runtime.python.as_str());
    let script_present = crate::media_fetch::path_exists(script);
    launch_refusal_with(runtime, script, python_present, script_present)
}

/// The environment a worker is given beyond what it inherits: the bundled
/// model of the configured profile as `FUNG_WHISPER_MODEL` when the layout
/// places one, then either the Hugging Face cache it may use or, without
/// one, `HF_HUB_OFFLINE=1` so that it cannot reach the hub.
pub open spec fn worker_env_spec(
    style: PathStyle,
    python: Seq<char>,
    configured: Option<Seq<char>>,
    hf_home: Option<Seq<char>>,
) -> Seq<(Seq<char>, Seq<char>)> {
    let model = match bundled_model_spec(style, python, configured_or(configured, "turbo"@)) {
        Some(p) => seq![("FUNG_WHISPER_MODEL"@, child_compatible_spec(style, p))],
        None => seq![],
    };
    model + match hf_home {
        Some(h) => seq![("HF_HOME"@, h)],
        None => seq![("HF_HUB_OFFLINE"@, "1"@)],
    }
}

pub open spec fn env_pairs(v: Seq<(String, String)>) -> Seq<(Seq<char>, Seq<char>)> {
    v.map_values(|p: (String, String)| (p.0@, p.1@))
}

pub fn worker_env(runtime: &WhisperRuntime, configured: Option<&str>, hf_home: Option<&str>) -> (res:
    Vec<(String, String)>)
    ensures
        env_pairs(res@) == worker_env_spec(
            runtime.style,
            runtime.python@,
            opt_view(configured),
            opt_view(hf_home),
        ),
{
    let mut out: Vec<(String, String)> = Vec::new();
    if let Some(model) = worker_whisper_model_env_path(runtime, configured) {
        out.push((copy_string("FUNG_WHISPER_MODEL"), model));
    }
    let ghost before = env_pairs(out@);
    match hf_home {
        Some(h) => out.push((copy_string("HF_HOME"), copy_string(h))),
        None => out.push((copy_string("HF_HUB_OFFLINE"), copy_string("1"))),
    }
    assert(env_pairs(out@) =~= worker_env_spec(
        runtime.style,
        runtime.python@,
        opt_view(configured),
        opt_view(hf_home),
    ));
    out
}

/// What a worker's stderr line is: a progress report `PROGRESS <pct>`, a
/// line to keep for the error message, or a malformed report, which is
/// dropped.
#[derive(Clone, Copy, Debug, PartialEq, Eq, Structural)]
pub enum StderrLine {
    Progress(i64),
    Tail,
    Dropped,
}

pub open spec fn stderr_line_spec(line: Seq<char>) -> StderrLine {
    if crate::text::starts_with(line, "PROGRESS "@) {
        match crate::text::parse_i64_spec(crate::text::trim_spec(line.skip(9))) {
            Some(p) => StderrLine::Progress(p as i64),
            None => StderrLine::Dropped,
        }
    } else {
        StderrLine::Tail
    }
}

pub fn classify_stderr_line(line: &str) -> (res: StderrLine)
    ensures
        res == stderr_line_spec(line@),
{
    let chars = chars_of(line);
    let prefix = chars_of("PROGRESS ");
    proof {
        reveal_strlit("PROGRESS ");
    }
    if crate::text::has_prefix(&chars, &prefix) {
        let rest = crate::text::slice_chars(&chars, 9, chars.len());
        assert(rest@ =~= line@.skip(9));
        let t = crate::text::trim(&rest);
        match crate::text::parse_i64(&t) {
            Some(p) => StderrLine::Progress(p),
            None => StderrLine::Dropped,
        }
    } else {
        StderrLine::Tail
    }
}

/// The CUDA libraries the GPU profile needs beside the runtime.
pub open spec fn required_cuda_dlls() -> Seq<Seq<char>> {
    seq!["cudart64_12.dll"@, "cublas64_12.dll"@, "cublasLt64_12.dll"@, "cudnn64_9.dll"@]
}

fn required_cuda_dll(k: usize) -> (res: &'static str)
    requires
        k < 4,
    ensures
        res@ == required_cuda_dlls()[k as int],
{
    if k == 0 {
        "cudart64_12.dll"
    } else if k == 1 {
        "cublas64_12.dll"
    } else if k == 2 {
        "cublasLt64_12.dll"
    } else {
        "cudnn64_9.dll"
    }
}

/// The names not present, in order.
pub open spec fn missing_names(names: Seq<Seq<char>>, present: Seq<bool>) -> Seq<Seq<char>>
    decreases names.len(),
{
    if names.len() == 0 {
        seq![]
    } else if present[names.len() - 1] {
        missing_names(names.drop_last(), present)
    } else {
        missing_names(names.drop_last(), present).push(names.last())
    }
}

/// Names joined by `, `.
pub open spec fn comma_list(names: Seq<Seq<char>>) -> Seq<char>
    decreases names.len(),
{
    if names.len() == 0 {
        seq![]
    } else if names.len() == 1 {
        names[0]
    } else {
        comma_list(names.drop_last()) + ", "@ + names.last()
    }
}

/// Why the GPU profile cannot run, given which of its libraries are on disk.
pub open spec fn gpu_refusal_spec(cuda_bin: Seq<char>, present: Seq<bool>) -> Option<Seq<char>> {
    let missing = missing_names(required_cuda_dlls(), present);
    if missing.len() == 0 {
        None
    } else {
        Some(
            "FUNG GPU runtime is incomplete at "@ + cuda_bin + " (missing "@ + comma_list(missing)
                + "). Reinstall the FUNG GPU bundle or select FUNG_TRANSCRIPTION_PROFILE=cpu."@,
        )
    }
}

/// Decides whether the GPU profile can run once it is known which of its
/// libraries are on disk.
pub fn gpu_refusal_with(runtime: &WhisperRuntime, present: &Vec<bool>) -> (res: Option<String>)
    requires
        present@.len() == 4,
    ensures
        opt_chars(res) == gpu_refusal_spec(runtime.cuda_bin@, present@),
{
    let mut list: Vec<char> = Vec::new();
    let mut count: usize = 0;
    let mut k: usize = 0;
    while k < 4
        invariant
            k <= 4,
            count <= k,
            present@.len() == 4,
            count == missing_names(required_cuda_dlls().take(k as int), present@).len(),
            list@ == comma_list(missing_names(required_cuda_dlls().take(k as int), present@)),
        decreases 4 - k,
    {
        let ghost names = required_cuda_dlls().take(k + 1);
        assert(names.drop_last() =~= required_cuda_dlls().take(k as int));
        let name = required_cuda_dll(k);
        assert(names.last() == name@);
        if !present[k] {
            let ghost before = missing_names(required_cuda_dlls().take(k as int), present@);
            let ghost after = before.push(name@);
            assert(after.drop_last() =~= before);
            if count > 0 {
                let sep = chars_of(", ");
                crate::text::extend_chars(&mut list, &sep);
            }
            let nc = chars_of(name);
            crate::text::extend_chars(&mut list, &nc);
            count += 1;
            assert(list@ =~= comma_list(after));
        }
        k += 1;
    }
    assert(required_cuda_dlls().take(4) =~= required_cuda_dlls());
    if count == 0 {
        None
    } else {
        let mut m = copy_string("FUNG GPU runtime is incomplete at ");
        push_text(&mut m, runtime.cuda_bin.as_str());
        push_text(&mut m, " (missing ");
        crate::text::push_all(&mut m, &list);
        push_text(&mut m, "). Reinstall the FUNG GPU bundle or select FUNG_TRANSCRIPTION_PROFILE=cpu.");
        Some(m)
    }
}

/// Whether the GPU profile can run, checking the disk for its libraries;
/// the answer is stated for what the check found.
pub fn gpu_refusal(runtime: &WhisperRuntime) -> (res: Option<String>)
    ensures
        exists|present: Seq<bool>|
            present.len() == 4 && opt_chars(res) == #[trigger] gpu_refusal_spec(
                runtime.cuda_bin@,
                present,
            ),
{
    let mut present: Vec<bool> = Vec::new();
    let mut k: usize = 0;
    while k < 4
        invariant
            k <= 4,
            present@.len() == k,
        decreases 4 - k,
    {
        let path = join(runtime.style, runtime.cuda_bin.as_str(), required_cuda_dll(k));
        present.push(crate::media_fetch::path_is_file(path.as_str()));
        k += 1;
    }
    gpu_refusal_with(runtime, &present)
}

// ---------------------------------------------------------------------------
// Import progress
// ---------------------------------------------------------------------------

/// How much of a URL-ingest job's progress bar the download owns.
pub const FETCH_PROGRESS_SHARE: i64 = 35;

/// The part of a job's progress bar one stage owns: from `floor` to 100.
#[derive(Clone, Copy, Debug)]
pub struct ImportProgress {
    floor: i64,
}

impl View for ImportProgress {
    type V = int;

    /// Where this stage's slice of the bar starts.
    closed spec fn view(&self) -> int {
        self.floor as int
    }
}

/// Integer division as Rust's `/` computes it: rounded toward zero.
pub open spec fn div_toward_zero(a: int, b: int) -> int {
    if a >= 0 {
        a / b
    } else {
        -((-a) / b)
    }
}

/// A worker's own 0–100 mapped into the slice from `floor` to 100.
pub open spec fn scale_spec(floor: int, pct: int) -> int {
    floor + div_toward_zero(pct * (100 - floor), 100)
}

impl ImportProgress {
    #[verifier::type_invariant]
    spec fn floor_in_range(self) -> bool {
        0 <= self.floor <= 100
    }

    /// A plain file import: transcription owns the whole bar.
    pub fn whole_job() -> (res: ImportProgress)
        ensures
            res@ == 0,
    {
        ImportProgress { floor: 0 }
    }

    /// A URL ingest: the fetch owns the head of the bar.
    pub fn after_fetch() -> (res: ImportProgress)
        ensures
            res@ == FETCH_PROGRESS_SHARE,
    {
        ImportProgress { floor: FETCH_PROGRESS_SHARE }
    }

    /// Maps a worker's own 0–100 into this slice. A `pct` whose hundredfold
    /// overflows an `i64` is out of range.
    pub fn scale(self, pct: i64) -> (res: i64)
        requires
            -92_233_720_368_547_758 <= pct <= 92_233_720_368_547_758,
        ensures
            res == scale_spec(self@, pct as int),
            0 <= self@ <= 100,
    {
        proof {
            use_type_invariant(&self);
        }
        let span = 100 - self.floor;
        assert(0 <= span <= 100);
        assert(-9_223_372_036_854_775_800 <= pct * span <= 9_223_372_036_854_775_800)
            by (nonlinear_arith)
            requires
                -92_233_720_368_547_758 <= pct <= 92_233_720_368_547_758,
                0 <= span <= 100,
        ;
        self.floor + pct * span / 100
    }
}

/// A stage's scaled progress stays within its slice of the bar: a worker at
/// 0 leaves the bar at the floor, one at 100 fills it, and in between the
/// bar never goes backwards.
pub proof fn law_progress_stays_in_its_slice(floor: int, pct: int, later: int)
    requires
        0 <= floor <= 100,
        0 <= pct <= later <= 100,
    ensures
        scale_spec(floor, 0) == floor,
        scale_spec(floor, 100) == 100,
        floor <= scale_spec(floor, pct) <= scale_spec(floor, later) <= 100,
{
    assert(0 <= pct * (100 - floor) <= later * (100 - floor) <= 100 * (100 - floor))
        by (nonlinear_arith)
        requires
            0 <= floor <= 100,
            0 <= pct <= later <= 100,
    ;
    assert((pct * (100 - floor)) / 100 <= (later * (100 - floor)) / 100) by (nonlinear_arith)
        requires
            0 <= pct * (100 - floor) <= later * (100 - floor),
    ;
    assert((100 * (100 - floor)) / 100 == 100 - floor) by (nonlinear_arith);
    assert((later * (100 - floor)) / 100 <= (100 * (100 - floor)) / 100) by (nonlinear_arith)
        requires
            0 <= later * (100 - floor) <= 100 * (100 - floor),
    ;
}

// ---------------------------------------------------------------------------
// Bounded stderr tail
// ---------------------------------------------------------------------------

/// How much of a worker's stderr is kept: the tail is the part worth
/// keeping.
pub const STDERR_TAIL_CAP_BYTES: usize = 8192;

/// Whole lines dropped from the front until the text fits the cap.
pub open spec fn drop_front_lines(s: Seq<char>) -> Seq<char>
    decreases s.len(),
{
    if byte_len(s) <= STDERR_TAIL_CAP_BYTES {
        s
    } else {
        match crate::text::first_index(s, '\n') {
            Some(i) => if 0 <= i < s.len() {
                drop_front_lines(s.skip(i + 1))
            } else {
                s
            },
            None => s,
        }
    }
}

/// The buffer after `line` and a newline are appended and it is cut back to
/// the cap.
pub open spec fn append_bounded_spec(buffer: Seq<char>, line: Seq<char>) -> Seq<char> {
    drop_front_lines(buffer + line + seq!['\n'])
}

/// Whether the UTF-8 length of `s` exceeds the cap.
fn over_cap(s: &Vec<char>) -> (res: bool)
    ensures
        res == (byte_len(s@) > STDERR_TAIL_CAP_BYTES),
{
    let mut total: usize = 0;
    let mut i: usize = 0;
    while i < s.len()
        invariant
            i <= s.len(),
            total == byte_len(s@.take(i as int)),
            total <= STDERR_TAIL_CAP_BYTES,
        decreases s.len() - i,
    {
        assert(s@.take(i + 1).drop_last() =~= s@.take(i as int));
        total = total + char_len_utf8(s[i]);
        i += 1;
        if total > STDERR_TAIL_CAP_BYTES {
            proof {
                lemma_byte_len_prefix(s@, i as int);
            }
            return true;
        }
    }
    assert(s@.take(s.len() as int) =~= s@);
    false
}

/// Appends `line` (plus a newline) to `buffer`, then drops whole lines from
/// the front until `buffer` is back at or under `STDERR_TAIL_CAP_BYTES`,
/// never splitting a line.
pub fn append_bounded(buffer: &mut String, line: &str)
    ensures
        final(buffer)@ == append_bounded_spec(old(buffer)@, line@),
{
    let mut cur = chars_of(buffer.as_str());
    let l = chars_of(line);
    let mut k: usize = 0;
    let ghost start = cur@;
    while k < l.len()
        invariant
            k <= l.len(),
            cur@ == start + l@.take(k as int),
        decreases l.len() - k,
    {
        cur.push(l[k]);
        k += 1;
        assert(cur@ =~= start + l@.take(k as int));
    }
    cur.push('\n');
    assert(l@.take(l.len() as int) =~= l@);
    assert(cur@ =~= start + line@ + seq!['\n']);
    while over_cap(&cur)
        invariant
            drop_front_lines(cur@) == append_bounded_spec(start, line@),
        ensures
            drop_front_lines(cur@) == append_bounded_spec(start, line@),
            drop_front_lines(cur@) == cur@,
        decreases cur.len(),
    {
        match crate::text::find_char(&cur, '\n') {
            Some(i) => {
                proof {
                    crate::text::lemma_first_index(cur@, '\n');
                }
                let rest = crate::text::slice_chars(&cur, i + 1, cur.len());
                assert(rest@ =~= cur@.skip(i + 1));
                cur = rest;
            },
            None => {
                proof {
                    crate::text::lemma_first_index(cur@, '\n');
                }
                break;
            },
        }
    }
    *buffer = crate::text::string_of(&cur);
}

/// What `append_bounded` keeps: a tail of the buffer with the new line,
/// starting at a line boundary, within the cap; and the new line itself
/// whenever it fits the cap on its own. The buffer is one `append_bounded`
/// built: empty, or ending in a newline.
pub proof fn law_append_bounded_keeps_the_latest_line(buffer: Seq<char>, line: Seq<char>)
    requires
        !line.contains('\n'),
        buffer.len() == 0 || buffer.last() == '\n',
    ensures
        byte_len(append_bounded_spec(buffer, line)) <= STDERR_TAIL_CAP_BYTES,
        ({
            let all = buffer + line + seq!['\n'];
            let kept = append_bounded_spec(buffer, line);
            &&& kept.len() <= all.len()
            &&& kept == all.skip(all.len() - kept.len())
            &&& (byte_len(line) + 1 <= STDERR_TAIL_CAP_BYTES ==> crate::text::ends_with(
                kept,
                line + seq!['\n'],
            ))
        }),
{
    lemma_drop_front_lines(buffer, line);
}

proof fn lemma_drop_front_lines(pre: Seq<char>, line: Seq<char>)
    requires
        !line.contains('\n'),
        pre.len() == 0 || pre.last() == '\n',
    ensures
        ({
            let s = pre + line + seq!['\n'];
            let kept = drop_front_lines(s);
            &&& byte_len(kept) <= STDERR_TAIL_CAP_BYTES
            &&& kept.len() <= s.len()
            &&& kept == s.skip(s.len() - kept.len())
            &&& (byte_len(line) + 1 <= STDERR_TAIL_CAP_BYTES ==> crate::text::ends_with(
                kept,
                line + seq!['\n'],
            ))
        }),
    decreases pre.len(),
{
    let tail = line + seq!['\n'];
    let s = pre + line + seq!['\n'];
    let n = pre.len() as int;
    assert(s =~= pre + tail);
    lemma_byte_len_append(pre, tail);
    lemma_byte_len_append(line, seq!['\n']);
    assert(byte_len(seq!['\n']) == 1) by {
        assert(seq!['\n'].drop_last() =~= Seq::<char>::empty());
        assert(byte_len(Seq::<char>::empty()) == 0);
    }
    assert(s.skip(s.len() - tail.len()) =~= tail);
    if byte_len(s) <= STDERR_TAIL_CAP_BYTES {
        assert(s.skip(0) =~= s);
    } else {
        crate::text::lemma_first_index(s, '\n');
        assert(s[s.len() - 1] == '\n');
        assert(s.contains(s[s.len() - 1]));
        let i = crate::text::first_index(s, '\n')->0;
        let r = s.skip(i + 1);
        if n > 0 {
            assert(s[n - 1] == '\n');
            assert(i <= n - 1);
            let pre2 = pre.skip(i + 1);
            assert(r =~= pre2 + line + seq!['\n']);
            if pre2.len() > 0 {
                assert(pre2.last() == pre.last());
            }
            lemma_drop_front_lines(pre2, line);
            let kept = drop_front_lines(r);
            assert(s.skip(s.len() - kept.len()) =~= r.skip(r.len() - kept.len()));
        } else {
            assert(s =~= tail);
            if i < line.len() {
                assert(s[i] == line[i]);
                assert(line.contains(line[i]));
            }
            assert(i == s.len() - 1);
            assert(r =~= Seq::<char>::empty());
            assert(byte_len(r) == 0);
            assert(drop_front_lines(r) == r);
            assert(s.skip(s.len() as int) =~= r);
        }
    }
}

} // verus!
