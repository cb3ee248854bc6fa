use fung::paths::PathStyle;
use fung::worker::{gpu_refusal, gpu_refusal_with};
use fung::worker::{classify_stderr_line, launch_refusal, launch_refusal_with, worker_env, StderrLine};
use fung::worker::{bundled_model_verdict, require_bundled_whisper_model, whisper_runtime, whisper_worker_script};
use fung::worker::{
    append_bounded, bundled_whisper_model, bundled_whisper_model_for_profile,
    child_compatible_whisper_model_path, source_root, transcription_profile_from,
    whisper_model_backend_from, whisper_model_name_from, whisper_worker_script_for_profile,
    worker_whisper_model_env_path, ImportProgress, WhisperRuntime, STDERR_TAIL_CAP_BYTES,
    THAI_CANDIDATE_MODEL, THAI_CANDIDATE_PROFILE,
};

fn runtime(python: &str, script: &str, style: PathStyle) -> WhisperRuntime {
    WhisperRuntime {
        python: python.to_string(),
        script: script.to_string(),
        cuda_bin: String::new(),
        style,
    }
}

#[test]
fn whisper_model_profiles_default_to_turbo_and_reject_reference_in_desktop() {
    assert_eq!(whisper_model_name_from(None).unwrap(), "large-v3-turbo");
    assert_eq!(
        whisper_model_name_from(Some("turbo")).unwrap(),
        "large-v3-turbo"
    );
    assert_eq!(whisper_model_name_from(Some("medium")).unwrap(), "medium");
    assert_eq!(
        whisper_model_name_from(Some(THAI_CANDIDATE_PROFILE)).unwrap(),
        THAI_CANDIDATE_MODEL
    );
    assert_eq!(
        whisper_model_backend_from(Some(THAI_CANDIDATE_PROFILE)).unwrap(),
        "transformers"
    );
    assert!(whisper_model_name_from(Some("reference")).is_err());
    assert!(whisper_model_name_from(Some("small")).is_err());
}

#[test]
fn operational_profiles_select_persistent_live_worker() {
    let runtime = runtime("", "scripts/transcribe.py", PathStyle::Posix);
    let live_scripts: Vec<String> = ["turbo", "medium"]
        .iter()
        .map(|profile| whisper_worker_script_for_profile(&runtime, profile, true).unwrap())
        .collect();
    assert_eq!(live_scripts, vec!["scripts/transcribe_live.py".to_string(); 2]);
}

#[test]
fn operational_profiles_preserve_injected_batch_script() {
    let runtime = runtime("", "fixtures/fake_transcribe.py", PathStyle::Posix);
    for profile in ["turbo", "medium"] {
        assert_eq!(
            whisper_worker_script_for_profile(&runtime, profile, false).unwrap(),
            runtime.script
        );
    }
}

#[test]
fn thai_candidate_uses_separate_model_root_and_workers() {
    let runtime = runtime(
        r"C:\Program Files\FUNG\.venv-whisper\Scripts\python.exe",
        r"C:\Program Files\FUNG\scripts\transcribe.py",
        PathStyle::Windows,
    );

    assert_eq!(
        bundled_whisper_model_for_profile(&runtime, THAI_CANDIDATE_PROFILE),
        Some(
            r"C:\Program Files\FUNG\.venv-whisper-transformers-candidate\models\whisper-th-large-combined"
                .to_string()
        )
    );
    assert_eq!(
        whisper_worker_script_for_profile(&runtime, THAI_CANDIDATE_PROFILE, false).unwrap(),
        r"C:\Program Files\FUNG\scripts\transcribe_transformers.py"
    );
    assert_eq!(
        whisper_worker_script_for_profile(&runtime, THAI_CANDIDATE_PROFILE, true).unwrap(),
        r"C:\Program Files\FUNG\scripts\transcribe_transformers_live.py"
    );
    assert_eq!(
        whisper_worker_script_for_profile(&runtime, "turbo", false).unwrap(),
        runtime.script
    );
}

#[test]
fn public_release_defaults_to_cpu_and_keeps_explicit_gpu_override() {
    assert_eq!(transcription_profile_from(None).unwrap(), "cpu");
    assert_eq!(transcription_profile_from(Some("gpu")).unwrap(), "gpu");
    assert!(transcription_profile_from(Some("auto")).is_err());
}

#[test]
fn portable_model_is_resolved_next_to_the_bundled_python_runtime() {
    let runtime = runtime(
        r"C:\Program Files\FUNG\.venv-whisper\Scripts\python.exe",
        r"C:\Program Files\FUNG\scripts\transcribe.py",
        PathStyle::Windows,
    );
    assert_eq!(
        bundled_whisper_model(&runtime, None),
        Some(r"C:\Program Files\FUNG\.venv-whisper\models\large-v3-turbo".to_string())
    );
}

#[test]
fn windows_local_drive_verbatim_model_path_is_child_compatible() {
    assert_eq!(
        child_compatible_whisper_model_path(r"\\?\C:\folder\model".to_string(), PathStyle::Windows),
        r"C:\folder\model"
    );
}

#[test]
fn windows_verbatim_unc_model_path_is_child_compatible() {
    assert_eq!(
        child_compatible_whisper_model_path(
            r"\\?\UNC\server\share\model".to_string(),
            PathStyle::Windows
        ),
        r"\\server\share\model"
    );
}

#[test]
fn windows_unsupported_verbatim_namespace_remains_unchanged() {
    let path = r"\\?\Volume{01234567-89ab-cdef-0123-456789abcdef}\model".to_string();
    assert_eq!(
        child_compatible_whisper_model_path(path.clone(), PathStyle::Windows),
        path
    );
}

#[test]
fn ordinary_model_path_remains_unchanged() {
    let path = r"C:\folder\model".to_string();
    assert_eq!(
        child_compatible_whisper_model_path(path.clone(), PathStyle::Windows),
        path
    );
    assert_eq!(
        child_compatible_whisper_model_path(path.clone(), PathStyle::Posix),
        path
    );
}

#[test]
fn non_windows_model_path_remains_unchanged() {
    let path = r"\\?\C:\folder\model".to_string();
    assert_eq!(
        child_compatible_whisper_model_path(path.clone(), PathStyle::Posix),
        path
    );
}

#[test]
fn worker_uses_child_compatible_bundled_model_path() {
    let windows = runtime(
        r"\\?\C:\Program Files\FUNG\.venv-whisper\Scripts\python.exe",
        r"C:\Program Files\FUNG\scripts\transcribe.py",
        PathStyle::Windows,
    );
    assert_eq!(
        worker_whisper_model_env_path(&windows, None).expect("bundled model path"),
        r"C:\Program Files\FUNG\.venv-whisper\models\large-v3-turbo"
    );
    let posix = runtime(
        "/opt/FUNG/.venv-whisper/Scripts/python",
        r"C:\Program Files\FUNG\scripts\transcribe.py",
        PathStyle::Posix,
    );
    assert_eq!(
        worker_whisper_model_env_path(&posix, None).expect("bundled model path"),
        "/opt/FUNG/.venv-whisper/models/large-v3-turbo"
    );
}

#[test]
fn append_bounded_caps_length_and_keeps_latest_line() {
    let mut buffer = String::new();
    for i in 0..2000 {
        append_bounded(&mut buffer, &format!("torch warning line {i}"));
    }
    assert!(
        buffer.len() <= STDERR_TAIL_CAP_BYTES + 128,
        "buffer must stay bounded near the cap, got {} bytes",
        buffer.len()
    );
    assert!(
        buffer.contains("torch warning line 1999"),
        "must retain the most recently appended line"
    );
    assert!(
        !buffer.contains("torch warning line 0\n"),
        "oldest lines must be dropped once the cap is exceeded"
    );
}

#[test]
fn the_tail_never_splits_a_line_and_drops_an_oversized_one() {
    let mut buffer = String::new();
    append_bounded(&mut buffer, "first");
    append_bounded(&mut buffer, "second");
    assert_eq!(buffer, "first\nsecond\n");
    let huge = "x".repeat(9_000);
    append_bounded(&mut buffer, &huge);
    assert_eq!(buffer, "", "a line longer than the cap cannot be kept whole");
    append_bounded(&mut buffer, "ก");
    assert_eq!(buffer, "ก\n");
}

#[test]
fn a_fetch_owns_the_head_of_the_progress_bar() {
    assert_eq!(ImportProgress::whole_job().scale(0), 0);
    assert_eq!(ImportProgress::whole_job().scale(57), 57);
    assert_eq!(ImportProgress::after_fetch().scale(0), 35);
    assert_eq!(ImportProgress::after_fetch().scale(50), 67);
    assert_eq!(ImportProgress::after_fetch().scale(100), 100);
    assert_eq!(ImportProgress::after_fetch().scale(-3), 34);
}

#[test]
fn profiles_and_paths_report_their_errors() {
    assert_eq!(
        transcription_profile_from(Some("auto")).unwrap_err(),
        "invalid FUNG_TRANSCRIPTION_PROFILE 'auto'; use 'gpu' or 'cpu'"
    );
    assert_eq!(
        whisper_model_backend_from(Some("small")).unwrap_err(),
        "invalid FUNG_WHISPER_MODEL_PROFILE 'small'; use 'turbo', 'medium', or 'thai-large-candidate'"
    );
    assert_eq!(whisper_model_backend_from(None).unwrap(), "faster-whisper");
    let bare = runtime("python", "transcribe.py", PathStyle::Posix);
    assert_eq!(bundled_whisper_model(&bare, None), None);
    assert_eq!(
        whisper_worker_script_for_profile(&bare, "turbo", true).unwrap(),
        "transcribe_live.py"
    );
    assert_eq!(source_root(PathStyle::Posix, "/src/fung/src-tauri"), "/src/fung");
    let test_runtime =
        WhisperRuntime::for_test("/usr/bin/python3".to_string(), "stub.py".to_string(), PathStyle::Posix);
    assert_eq!(test_runtime.cuda_bin, "");
}

#[test]
fn the_runtime_is_laid_out_under_its_root_and_its_model_must_be_staged() {
    let runtime = WhisperRuntime::at_root(PathStyle::Posix, "/opt/fung");
    assert_eq!(runtime.python, "/opt/fung/.venv-whisper/Scripts/python.exe");
    assert_eq!(runtime.script, "/opt/fung/scripts/transcribe.py");
    assert_eq!(runtime.cuda_bin, "/opt/fung/runtime/cuda12/bin");
    let chosen = whisper_runtime(PathStyle::Posix, "/src/fung", Some("/nonexistent/fung-package"));
    assert_eq!(chosen.python, "/src/fung/.venv-whisper/Scripts/python.exe");

    assert_eq!(
        whisper_worker_script(&runtime, None, true).unwrap(),
        "/opt/fung/scripts/transcribe_live.py"
    );
    assert_eq!(
        whisper_worker_script(&runtime, Some("thai-large-candidate"), false).unwrap(),
        "/opt/fung/scripts/transcribe_transformers.py"
    );
    assert!(whisper_worker_script(&runtime, Some("large-v3"), false).is_err());

    assert_eq!(
        bundled_model_verdict(&runtime, None, true).unwrap(),
        "/opt/fung/.venv-whisper/models/large-v3-turbo"
    );
    assert_eq!(
        bundled_model_verdict(&runtime, None, false).unwrap_err(),
        "FUNG Whisper model 'large-v3-turbo' is missing at /opt/fung/.venv-whisper/models/large-v3-turbo. Stage it with scripts/stage_whisper_runtime.ps1."
    );
    assert!(bundled_model_verdict(&runtime, Some("thai-large-candidate"), false)
        .unwrap_err()
        .ends_with("Stage it with scripts/stage_whisper_transformers_candidate.ps1."));
    let missing = WhisperRuntime::at_root(PathStyle::Posix, "/nonexistent/fung-runtime");
    assert!(require_bundled_whisper_model(&missing, None).unwrap_err().contains("is missing at"));
}

#[test]
fn workers_are_launched_offline_unless_given_a_cache() {
    let runtime = WhisperRuntime::at_root(PathStyle::Posix, "/opt/fung");
    assert_eq!(
        worker_env(&runtime, None, None),
        vec![
            (
                "FUNG_WHISPER_MODEL".to_string(),
                "/opt/fung/.venv-whisper/models/large-v3-turbo".to_string()
            ),
            ("HF_HUB_OFFLINE".to_string(), "1".to_string()),
        ]
    );
    assert_eq!(
        worker_env(&runtime, Some("large-v3"), Some("/cache/hf")),
        vec![("HF_HOME".to_string(), "/cache/hf".to_string())]
    );
    assert_eq!(
        launch_refusal_with(&runtime, "/opt/fung/scripts/x.py", false, false).unwrap(),
        "FUNG Python runtime is missing at /opt/fung/.venv-whisper/Scripts/python.exe. Reinstall the FUNG application bundle."
    );
    assert_eq!(
        launch_refusal_with(&runtime, "/opt/fung/scripts/x.py", true, false).unwrap(),
        "FUNG worker script is missing at /opt/fung/scripts/x.py. Reinstall the FUNG application bundle."
    );
    assert_eq!(launch_refusal_with(&runtime, "/opt/fung/scripts/x.py", true, true), None);
    assert!(launch_refusal(&runtime, "/opt/fung/scripts/x.py").is_some());
}

#[test]
fn worker_stderr_lines_are_progress_or_kept() {
    assert_eq!(classify_stderr_line("PROGRESS 42"), StderrLine::Progress(42));
    assert_eq!(classify_stderr_line("PROGRESS  -3 "), StderrLine::Progress(-3));
    assert_eq!(classify_stderr_line("PROGRESS done"), StderrLine::Dropped);
    assert_eq!(classify_stderr_line("PROGRESS"), StderrLine::Tail);
    assert_eq!(classify_stderr_line("Traceback (most recent call last):"), StderrLine::Tail);
}

#[test]
fn the_gpu_profile_names_every_missing_library() {
    let runtime = WhisperRuntime::at_root(PathStyle::Windows, "C:\\FUNG");
    assert_eq!(gpu_refusal_with(&runtime, &vec![true, true, true, true]), None);
    assert_eq!(
        gpu_refusal_with(&runtime, &vec![true, false, true, false]).unwrap(),
        "FUNG GPU runtime is incomplete at C:\\FUNG\\runtime\\cuda12\\bin (missing cublas64_12.dll, cudnn64_9.dll). Reinstall the FUNG GPU bundle or select FUNG_TRANSCRIPTION_PROFILE=cpu."
    );
    assert!(gpu_refusal(&runtime)
        .unwrap()
        .contains("missing cudart64_12.dll, cublas64_12.dll, cublasLt64_12.dll, cudnn64_9.dll"));
}
