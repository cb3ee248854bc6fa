use fung::media_fetch::{
    first_blocker, js_runtime_dir, packages_dir, probe, readiness, require_http_url,
    worker_script, MediaFetchBlocker, JS_RUNTIME_ADVISORY, MAX_FETCH_DURATION_S,
};
use fung::media_fetch::{fetch_invocation, fetch_invocation_with};
use fung::paths::PathStyle;
use fung::worker::WhisperRuntime;

fn missing_runtime() -> WhisperRuntime {
    WhisperRuntime {
        python: "nonexistent/Scripts/python.exe".to_string(),
        script: "nonexistent/scripts/transcribe.py".to_string(),
        cuda_bin: String::new(),
        style: PathStyle::Posix,
    }
}

#[test]
fn the_reported_blocker_is_the_next_step_not_the_last_check() {
    assert_eq!(
        first_blocker(false, false, false, false),
        Some(MediaFetchBlocker::RuntimeMissing)
    );
    assert_eq!(
        first_blocker(true, false, false, false),
        Some(MediaFetchBlocker::WorkerMissing)
    );
    assert_eq!(
        first_blocker(true, true, false, false),
        Some(MediaFetchBlocker::DependenciesMissing)
    );
    assert_eq!(
        first_blocker(true, true, true, false),
        Some(MediaFetchBlocker::ConsentWithheld)
    );
    assert_eq!(first_blocker(true, true, true, true), None);
}

#[test]
fn a_staged_runtime_without_consent_is_still_refused() {
    assert_eq!(
        first_blocker(true, true, true, false),
        Some(MediaFetchBlocker::ConsentWithheld)
    );
}

#[test]
fn only_http_and_https_are_accepted() {
    assert!(require_http_url("https://example.com/watch?v=abc").is_ok());
    assert!(require_http_url("http://example.com/a").is_ok());
    assert!(require_http_url("file:///C:/Users/me/secrets.txt").is_err());
    assert!(require_http_url("data:text/plain,hello").is_err());
    assert!(require_http_url("example.com/watch").is_err());
}

#[test]
fn a_url_with_no_host_is_refused() {
    assert!(require_http_url("https:///path-only").is_err());
    assert!(require_http_url("https://user@/path").is_err());
}

#[test]
fn surrounding_whitespace_is_tolerated_because_pasted_urls_carry_it() {
    assert_eq!(
        require_http_url("  https://example.com/a  ").unwrap(),
        "https://example.com/a"
    );
}

#[test]
fn the_js_advisory_disappears_once_the_runtime_is_staged() {
    let readiness = probe(&missing_runtime(), false);
    assert!(!readiness.js_runtime_present);
    assert!(readiness.js_runtime_detail.is_some());
}

#[test]
fn a_missing_installation_never_reports_available() {
    let readiness = probe(&missing_runtime(), true);
    assert!(!readiness.available);
    assert_eq!(readiness.blocker, Some(MediaFetchBlocker::RuntimeMissing));
    assert!(readiness.consent_granted);
}

#[test]
fn a_staged_js_runtime_clears_the_advisory_and_consent_completes_readiness() {
    let runtime = missing_runtime();
    let ready = readiness(&runtime, true, true, true, true, true);
    assert!(ready.available);
    assert_eq!(ready.blocker, None);
    assert_eq!(ready.blocker_code, None);
    assert_eq!(ready.js_runtime_detail, None);
    assert_eq!(ready.max_duration_s, MAX_FETCH_DURATION_S);
    assert_eq!(ready.packages_dir, "nonexistent/Lib/media-fetch-packages");
    let unconsented = readiness(&runtime, true, true, true, false, false);
    assert_eq!(unconsented.blocker_code, Some("consent_withheld"));
    assert_eq!(
        unconsented.detail.as_deref(),
        Some(MediaFetchBlocker::ConsentWithheld.detail())
    );
    assert_eq!(unconsented.js_runtime_detail, Some(JS_RUNTIME_ADVISORY));
}

#[test]
fn fetch_paths_sit_beside_the_runtime() {
    let runtime = missing_runtime();
    assert_eq!(
        packages_dir(&runtime).as_deref(),
        Some("nonexistent/Lib/media-fetch-packages")
    );
    assert_eq!(
        js_runtime_dir(&runtime).as_deref(),
        Some("nonexistent/Lib/media-fetch-packages/bin")
    );
    assert_eq!(
        worker_script(&runtime).as_deref(),
        Some("nonexistent/scripts/fetch_media.py")
    );
    assert_eq!(MediaFetchBlocker::RuntimeMissing.code(), "runtime_missing");
}

#[test]
fn refusals_say_what_was_wrong() {
    assert_eq!(
        require_http_url("FILE:///etc/passwd").unwrap_err(),
        "ไม่รองรับลิงก์แบบ FILE:// — รับเฉพาะ http และ https"
    );
    assert_eq!(require_http_url("HTTPS://Example.com").unwrap(), "HTTPS://Example.com");
    assert_eq!(
        require_http_url("https://a@b@/x").unwrap_err(),
        "ลิงก์นี้ไม่มีชื่อโฮสต์"
    );
    assert!(require_http_url("https://user@host/x").is_ok());
}

#[test]
fn the_fetch_worker_gets_the_link_destination_and_limits() {
    let runtime = WhisperRuntime::at_root(PathStyle::Posix, "/opt/fung");
    let inv = fetch_invocation_with(&runtime, "  https://example.com/v  ", "/tmp/dl", true).unwrap();
    assert_eq!(inv.script, "/opt/fung/scripts/fetch_media.py");
    assert_eq!(
        inv.args,
        vec![
            "https://example.com/v",
            "--dest-dir",
            "/tmp/dl",
            "--packages-dir",
            "/opt/fung/.venv-whisper/Lib/media-fetch-packages",
            "--max-duration-s",
            "21600",
        ]
    );
    assert_eq!(
        inv.extra_path.as_deref(),
        Some("/opt/fung/.venv-whisper/Lib/media-fetch-packages/bin")
    );
    let without = fetch_invocation_with(&runtime, "https://example.com/v", "/tmp/dl", false).unwrap();
    assert_eq!(without.extra_path, None);
    assert!(fetch_invocation_with(&runtime, "ftp://example.com", "/tmp/dl", false).is_err());
    let on_disk = fetch_invocation(&runtime, "https://example.com/v", "/tmp/dl").unwrap();
    assert_eq!(on_disk.extra_path, None);
}

#[test]
fn a_port_is_no_host() {
    assert_eq!(
        fung::media_fetch::require_http_url("https://:8080/watch"),
        Err("ลิงก์นี้ไม่มีชื่อโฮสต์".to_string())
    );
    assert_eq!(
        fung::media_fetch::require_http_url("https://user@:443/x"),
        Err("ลิงก์นี้ไม่มีชื่อโฮสต์".to_string())
    );
    assert!(fung::media_fetch::require_http_url("https://example.com:8080/watch").is_ok());
    assert!(fung::media_fetch::require_http_url("http://[::1]:8080/").is_ok());
}
