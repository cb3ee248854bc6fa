use fung::local_api::{
    authorized, channel_of, channels_of, chunk_ordinal, constant_time_eq, file_name, head_end,
    info, mime_for, origin_allowed, parse_query, parse_range, parse_request, percent_decode,
    percent_decode_bytes, plan_audio, route, serve_bytes, stitch_wav, upload_extension,
    upload_project_name, upload_project_name_at, Audio, AudioError, AudioPlan, LanShare,
    LocalApiControl, Request, Response, Route, SliceRead, WavFormat,
};
use fung::local_api::{request_step, response_head, ReadStep, MAX_REQUEST_HEAD, MAX_UPLOAD_BYTES};
use fung::local_api::{summarize_recordings, ProjectRow, RecordingRow, SlicePathRow};
use fung::paths::PathStyle;
use fung::local_api::fixed_response;
use fung::local_api::health_response;

fn control() -> LocalApiControl {
    LocalApiControl {
        bind: "127.0.0.1:1".to_string(),
        token: "secret-token".to_string(),
        lan: None,
    }
}

fn get(path: &str, headers: &[(&str, &str)]) -> Request {
    let mut head = format!("GET {path} HTTP/1.1\r\nHost: 127.0.0.1\r\n");
    for (name, value) in headers {
        head.push_str(&format!("{name}: {value}\r\n"));
    }
    parse_request(&head).unwrap()
}

fn post(path: &str, headers: &[(&str, &str)], body: &[u8]) -> Request {
    let mut head = format!("POST {path} HTTP/1.1\r\nHost: 127.0.0.1\r\n");
    for (name, value) in headers {
        head.push_str(&format!("{name}: {value}\r\n"));
    }
    let mut request = parse_request(&head).unwrap();
    request.body = body.to_vec();
    request
}

fn has_header(response: &Response, name: &str, value: &str) -> bool {
    response
        .extra_headers
        .contains(&(name.to_string(), value.to_string()))
}

#[test]
fn parses_request_line_query_and_headers() {
    let request = get(
        "/recordings/abc/audio?channel=mic&token=t%20k",
        &[("Authorization", "Bearer x"), ("RANGE", " bytes=0-1 ")],
    );
    assert_eq!(request.method, "GET");
    assert_eq!(request.path, "/recordings/abc/audio");
    assert_eq!(request.query_value("channel"), Some("mic"));
    assert_eq!(request.query_value("token"), Some("t k"));
    assert_eq!(request.header("authorization"), Some("Bearer x"));
    assert_eq!(request.header("range"), Some("bytes=0-1"));
    assert!(parse_request("").is_none());
}

#[test]
fn range_parsing_follows_rfc_9110() {
    assert_eq!(parse_range("bytes=0-1", 10), Some((0, 1)));
    assert_eq!(parse_range("bytes=5-", 10), Some((5, 9)));
    assert_eq!(parse_range("bytes=-3", 10), Some((7, 9)));
    assert_eq!(parse_range("bytes=0-99", 10), Some((0, 9)), "end is clamped");
    assert_eq!(parse_range("bytes=10-", 10), None, "start past the end");
    assert_eq!(parse_range("bytes=4-2", 10), None);
    assert_eq!(parse_range("bytes=0-1,4-5", 10), None, "multi-range unsupported");
    assert_eq!(parse_range("items=0-1", 10), None);
    assert_eq!(parse_range("bytes=0-", 0), None);
}

#[test]
fn origin_allowlist_is_production_web_plus_loopback_dev() {
    assert!(origin_allowed("https://fung-seven.vercel.app", None));
    assert!(origin_allowed("http://localhost:5173", None));
    assert!(origin_allowed("http://127.0.0.1:1420", None));
    assert!(origin_allowed("http://localhost", None));
    assert!(!origin_allowed("https://evil.example", None));
    assert!(!origin_allowed("http://localhost.evil.example", None));
    assert!(!origin_allowed("http://127.0.0.1.evil.example", None));
    assert!(!origin_allowed("null", None));
    assert!(
        !origin_allowed("fung-seven.vercel.app", None),
        "scheme is part of the origin"
    );
}

#[test]
fn token_is_accepted_from_header_or_query_only_when_exact() {
    let token = "secret-token";
    assert!(authorized(
        &get("/recordings", &[("Authorization", "Bearer secret-token")]),
        token
    ));
    assert!(authorized(&get("/recordings?token=secret-token", &[]), token));
    assert!(!authorized(
        &get("/recordings", &[("Authorization", "Bearer secret-toke")]),
        token
    ));
    assert!(!authorized(
        &get("/recordings", &[("Authorization", "Bearer secret-token2")]),
        token
    ));
    assert!(!authorized(&get("/recordings?token=", &[]), token));
    assert!(!authorized(&get("/recordings", &[]), token));
    assert!(
        !authorized(&get("/recordings", &[("Authorization", "secret-token")]), token),
        "scheme required"
    );
}

#[test]
fn connect_url_carries_the_token_in_the_fragment() {
    let control = LocalApiControl {
        bind: "127.0.0.1:4321".to_string(),
        token: "abc".to_string(),
        lan: None,
    };
    assert_eq!(control.connect_url(), "http://127.0.0.1:4321/#abc");
}

#[test]
fn lan_url_needs_a_lan_listener_and_carries_its_port() {
    let mut control = control();
    assert_eq!(control.lan_url(Some("192.168.1.20")), None, "off by default");
    control.lan = Some(LanShare {
        bind: "0.0.0.0:45678".to_string(),
    });
    // A machine without a default route has no LAN address; that is `None`.
    assert_eq!(control.lan_url(None), None);
    let url = control.lan_url(Some("192.168.1.20")).unwrap();
    assert!(url.starts_with("http://"), "{url}");
    assert!(url.ends_with(":45678/#secret-token"), "{url}");
    assert!(
        !url.contains("0.0.0.0"),
        "the wildcard bind is not an address to dial"
    );
}

#[test]
fn upload_metadata_is_derived_defensively() {
    assert_eq!(upload_extension(Some("audio/webm;codecs=opus")), "webm");
    assert_eq!(upload_extension(Some("audio/mp4")), "m4a");
    assert_eq!(upload_extension(Some("AUDIO/WAV")), "wav");
    assert_eq!(upload_extension(None), "bin");
    assert_eq!(upload_extension(Some("text/html")), "bin");

    assert_eq!(
        upload_project_name(Some("fung-web-2026-09-16-1203.webm")),
        "fung-web-2026-09-16-1203"
    );
    assert_eq!(
        upload_project_name(Some("..\\..\\evil<script>.webm")),
        "evilscript"
    );
    assert!(upload_project_name(None).starts_with("Web recording "));
    assert!(upload_project_name(Some("   ")).starts_with("Web recording "));
}

#[test]
fn whole_file_imports_are_served_as_the_file_with_their_mime() {
    let path = "/data/project/imports/rec-import/meeting.m4a".to_string();
    let plan = plan_audio(&[(1, path.clone())], None);
    let served = match plan {
        Ok(AudioPlan::File(p)) => p,
        _ => panic!("a whole-file import is served as its file"),
    };
    assert_eq!(served, path);
    let mime = mime_for(PathStyle::Posix, &served);
    assert_eq!(mime, "audio/mp4");
    let response = serve_bytes(
        Audio {
            bytes: b"not really aac".to_vec(),
            mime,
            missing_chunks: 0,
        },
        None,
    );
    assert_eq!(response.body, b"not really aac");
}

fn live_chunks() -> Vec<(i64, String)> {
    vec![
        (3, "/p/live/rec-live/chunks/mic-00002.wav".to_string()),
        (1, "/p/live/rec-live/chunks/mic-00001.wav".to_string()),
        (2, "/p/live/rec-live/chunks/system-00001.wav".to_string()),
    ]
}

fn read_slice(path: &str) -> SliceRead {
    let format = WavFormat {
        channels: 1,
        sample_rate: 16_000,
        bits_per_sample: 16,
        integer: true,
    };
    let samples = if path.ends_with("mic-00001.wav") {
        vec![1, 2, 3]
    } else if path.ends_with("mic-00002.wav") {
        vec![4, 5]
    } else {
        vec![9, 9, 9, 9]
    };
    SliceRead::Opened {
        path: path.to_string(),
        format,
        samples: Ok(samples),
    }
}

fn decoded(bytes: &[u8]) -> (u32, Vec<i16>) {
    let reader = hound::WavReader::new(std::io::Cursor::new(bytes)).unwrap();
    let rate = reader.spec().sample_rate;
    (rate, reader.into_samples::<i16>().map(Result::unwrap).collect())
}

#[test]
fn stitches_a_channel_in_slice_order_regardless_of_row_order() {
    let chunks = live_chunks();
    let slices = match plan_audio(&chunks, Some("mic")) {
        Ok(AudioPlan::Slices(slices)) => slices,
        _ => panic!("a live channel is stitched"),
    };
    let reads: Vec<SliceRead> = slices.iter().map(|(_, path)| read_slice(path)).collect();
    let audio = stitch_wav(&reads).unwrap();
    assert_eq!(audio.mime, "audio/wav");
    assert_eq!(audio.missing_chunks, 0);
    let (rate, samples) = decoded(&audio.bytes);
    assert_eq!(rate, 16_000);
    assert_eq!(samples, vec![1, 2, 3, 4, 5]);

    let system = match plan_audio(&chunks, Some("system")) {
        Ok(AudioPlan::Slices(slices)) => slices,
        _ => panic!("a live channel is stitched"),
    };
    let reads: Vec<SliceRead> = system.iter().map(|(_, path)| read_slice(path)).collect();
    let (_, samples) = decoded(&stitch_wav(&reads).unwrap().bytes);
    assert_eq!(samples, vec![9, 9, 9, 9]);

    // No channel asked for: the first available (mic) is served.
    let default = match plan_audio(&chunks, None) {
        Ok(AudioPlan::Slices(slices)) => slices,
        _ => panic!("a live channel is stitched"),
    };
    let reads: Vec<SliceRead> = default.iter().map(|(_, path)| read_slice(path)).collect();
    assert_eq!(stitch_wav(&reads).unwrap().bytes, audio.bytes);
}

#[test]
fn missing_recording_channel_or_chunks_are_not_found_not_panics() {
    assert!(matches!(plan_audio(&[], None), Err(AudioError::NotFound(_))));
    let import = vec![(1, "/p/imports/rec-import/meeting.m4a".to_string())];
    assert!(matches!(
        plan_audio(&import, Some("mic")),
        Err(AudioError::NotFound(_))
    ));
    // A slice whose path could not be resolved is absent, never followed.
    match stitch_wav(&vec![SliceRead::Missing]) {
        Err(AudioError::NotFound(detail)) => assert!(detail.contains("none of the 1 chunks")),
        _ => panic!("expected NotFound"),
    }
}

// ---------------------------------------------------------------------------
// Further cases
// ---------------------------------------------------------------------------

#[test]
fn missing_slices_are_skipped_and_counted() {
    let reads = vec![SliceRead::Missing, read_slice("/p/mic-00002.wav")];
    let audio = stitch_wav(&reads).unwrap();
    assert_eq!(audio.missing_chunks, 1);
    assert_eq!(decoded(&audio.bytes).1, vec![4, 5]);
    let response = serve_bytes(audio, None);
    assert_eq!(response.status, "200 OK");
    assert!(has_header(&response, "X-Fung-Missing-Chunks", "1"));
}

#[test]
fn slices_of_another_format_are_refused() {
    let float = SliceRead::Opened {
        path: "/p/mic-00001.wav".to_string(),
        format: WavFormat {
            channels: 1,
            sample_rate: 16_000,
            bits_per_sample: 32,
            integer: false,
        },
        samples: Ok(vec![]),
    };
    match stitch_wav(&vec![float]) {
        Err(AudioError::Unsupported(detail)) => {
            assert_eq!(detail, "/p/mic-00001.wav is not 16-bit integer PCM")
        }
        _ => panic!("expected Unsupported"),
    }
    let other_rate = SliceRead::Opened {
        path: "/p/mic-00002.wav".to_string(),
        format: WavFormat {
            channels: 1,
            sample_rate: 48_000,
            bits_per_sample: 16,
            integer: true,
        },
        samples: Ok(vec![7]),
    };
    match stitch_wav(&vec![read_slice("/p/mic-00001.wav"), other_rate]) {
        Err(AudioError::Unsupported(detail)) => assert_eq!(
            detail,
            "/p/mic-00002.wav does not match the recording's format"
        ),
        _ => panic!("expected Unsupported"),
    }
    match stitch_wav(&vec![SliceRead::Unopenable("x: gone".to_string())]) {
        Err(AudioError::Internal(detail)) => assert_eq!(detail, "x: gone"),
        _ => panic!("expected Internal"),
    }
}

#[test]
fn an_absent_channel_names_the_ones_there_are() {
    match plan_audio(&live_chunks(), Some("file")) {
        Err(AudioError::NotFound(detail)) => {
            assert_eq!(detail, "channel file not present; available: mic,system")
        }
        _ => panic!("expected NotFound"),
    }
}

#[test]
fn audio_route_honours_range_requests() {
    let audio = || Audio {
        bytes: b"not really aac".to_vec(),
        mime: "audio/mp4",
        missing_chunks: 0,
    };
    let full = serve_bytes(audio(), None);
    assert_eq!(full.status, "200 OK");
    assert_eq!(full.content_type, "audio/mp4");
    assert!(has_header(&full, "Accept-Ranges", "bytes"));

    let partial = serve_bytes(audio(), Some("bytes=4-9"));
    assert_eq!(partial.status, "206 Partial Content");
    assert_eq!(partial.body, b"really");
    assert!(has_header(&partial, "Content-Range", "bytes 4-9/14"));

    let bad = serve_bytes(audio(), Some("bytes=50-"));
    assert_eq!(bad.status, "416 Range Not Satisfiable");
    assert_eq!(bad.content_type, "application/json");
    assert_eq!(bad.body, br#"{"error":"RANGE_NOT_SATISFIABLE"}"#);
    assert!(has_header(&bad, "Content-Range", "bytes */14"));
}

#[test]
fn routes_are_decided_by_method_path_and_token() {
    let token = "secret-token";
    assert!(matches!(route(&get("/health", &[]), token), Route::Health));
    assert!(matches!(route(&get("/", &[]), token), Route::PhonePage));
    assert!(matches!(route(&get("/index.html", &[]), token), Route::PhonePage));
    assert!(matches!(route(&get("/recordings", &[]), token), Route::Unauthorized));
    assert!(matches!(
        route(&get("/recordings/x/audio?token=wrong", &[]), token),
        Route::Unauthorized
    ));
    assert!(matches!(
        route(&get("/recordings?token=secret-token", &[]), token),
        Route::Recordings
    ));
    match route(&get("/jobs/j1?token=secret-token", &[]), token) {
        Route::Job(id) => assert_eq!(id, "j1"),
        _ => panic!("expected a job route"),
    }
    match route(&get("/recordings/r1/transcript?token=secret-token", &[]), token) {
        Route::Transcript(id) => assert_eq!(id, "r1"),
        _ => panic!("expected a transcript route"),
    }
    match route(
        &get("/recordings/r1/audio?channel=mic&token=secret-token", &[]),
        token,
    ) {
        Route::Audio(id, channel) => {
            assert_eq!(id, "r1");
            assert_eq!(channel.as_deref(), Some("mic"));
        }
        _ => panic!("expected an audio route"),
    }
    for path in ["/recordings//audio", "/recordings/a/b/audio", "/recordings/a/audio/"] {
        assert!(
            matches!(
                route(&get(&format!("{path}?token=secret-token"), &[]), token),
                Route::NotFound
            ),
            "{path}"
        );
    }
    let options = parse_request("OPTIONS /recordings HTTP/1.1\r\n").unwrap();
    assert!(matches!(route(&options, token), Route::Preflight));
    let delete = parse_request("DELETE /recordings HTTP/1.1\r\n").unwrap();
    assert!(matches!(route(&delete, token), Route::MethodNotAllowed));
    assert!(matches!(
        route(&post("/elsewhere", &[], b"x"), token),
        Route::UnknownUpload
    ));
    assert!(matches!(
        route(&post("/recordings/import", &[], b"x"), token),
        Route::Unauthorized
    ));
    assert!(matches!(
        route(
            &post(
                "/recordings/import",
                &[("Authorization", "Bearer secret-token")],
                b"x"
            ),
            token
        ),
        Route::Import
    ));
}

#[test]
fn query_components_decode_escapes_and_keep_the_last_value() {
    assert_eq!(percent_decode("a+b%41%2b"), "a bA+");
    assert_eq!(percent_decode("100%"), "100%");
    assert_eq!(percent_decode("%zz"), "%zz");
    assert_eq!(percent_decode("%+5x"), "\u{5}x");
    assert_eq!(percent_decode_bytes(b"%e0%b8%81"), vec![0xe0, 0xb8, 0x81]);
    assert_eq!(percent_decode("%e0%b8%81"), "ก");
    assert_eq!(percent_decode("%ff"), "\u{fffd}");
    let pairs = parse_query("a=1&&b&a=2");
    assert_eq!(
        pairs,
        vec![
            ("a".to_string(), "1".to_string()),
            ("b".to_string(), String::new()),
            ("a".to_string(), "2".to_string()),
        ]
    );
    let request = get("/x?a=1&a=2", &[]);
    assert_eq!(request.query_value("a"), Some("2"));
}

#[test]
fn the_blank_line_ends_the_head() {
    assert_eq!(head_end(b"GET / HTTP/1.1\r\n\r\nbody"), Some(14));
    assert_eq!(head_end(b"GET / HTTP/1.1\r\n"), None);
    assert_eq!(head_end(b""), None);
}

#[test]
fn equal_strings_compare_equal_in_constant_time() {
    assert!(constant_time_eq("abc", "abc"));
    assert!(!constant_time_eq("abc", "abd"));
    assert!(!constant_time_eq("abc", "ab"));
    assert!(constant_time_eq("", ""));
}

#[test]
fn an_operator_listed_origin_is_allowed() {
    assert!(origin_allowed(
        "https://staging.example",
        Some("https://a.example, https://staging.example")
    ));
    assert!(!origin_allowed("https://b.example", Some("https://a.example")));
    assert!(origin_allowed("https://127.0.0.1", Some("")));
}

#[test]
fn slice_names_give_channel_and_ordinal() {
    assert_eq!(file_name("C:\\p\\chunks/mic-00007.wav"), "mic-00007.wav".chars().collect::<Vec<_>>());
    assert_eq!(channel_of("/p/mic-00001.wav"), "mic");
    assert_eq!(channel_of("C:\\p\\system-00002.wav"), "system");
    assert_eq!(channel_of("/p/meeting.m4a"), "file");
    assert_eq!(chunk_ordinal("/p/mic-00042.wav"), Some(42));
    assert_eq!(chunk_ordinal("/p/meeting.m4a"), None);
    assert_eq!(chunk_ordinal("/p/mic.wav"), None);
    let paths = vec![
        "/p/system-00001.wav".to_string(),
        "/p/x.m4a".to_string(),
        "/p/mic-00001.wav".to_string(),
    ];
    assert_eq!(channels_of(&paths), vec!["mic", "system", "file"]);
    assert_eq!(channels_of(&[]), Vec::<String>::new());
}

#[test]
fn files_are_served_under_their_extensions_mime() {
    assert_eq!(mime_for(PathStyle::Posix, "/a/b.WAV"), "audio/wav");
    assert_eq!(mime_for(PathStyle::Windows, "C:\\a\\b.opus"), "audio/ogg");
    assert_eq!(mime_for(PathStyle::Posix, "/a/b.flac"), "audio/flac");
    assert_eq!(mime_for(PathStyle::Posix, "/a/b"), "application/octet-stream");
    assert_eq!(mime_for(PathStyle::Posix, "/a/.webm"), "application/octet-stream");
}

#[test]
fn a_dated_default_names_an_unnamed_upload() {
    assert_eq!(
        upload_project_name_at(None, "2026-09-16T12:03:00+00:00"),
        "Web recording 2026-09-16T12:03:00+00:00"
    );
    assert_eq!(
        upload_project_name_at(Some("/x/y/Team sync.v2.webm"), "now"),
        "Team sync.v2"
    );
}

#[test]
fn the_ui_is_told_the_listener_details() {
    let mut control = control();
    control.lan = Some(LanShare {
        bind: "0.0.0.0:5000".to_string(),
    });
    let details = info(&control, Some("10.0.0.2"));
    assert_eq!(details.bind, "127.0.0.1:1");
    assert_eq!(details.connect_url, "http://127.0.0.1:1/#secret-token");
    assert!(details.lan_enabled);
    assert_eq!(details.lan_bind.as_deref(), Some("0.0.0.0:5000"));
    assert_eq!(
        details.lan_url.as_deref(),
        Some("http://10.0.0.2:5000/#secret-token")
    );
    let empty = Response::empty("204 No Content");
    assert_eq!(empty.status, "204 No Content");
    assert!(empty.body.is_empty());
}

fn step(bytes: &[u8], eof: bool) -> ReadStep {
    request_step(&bytes.to_vec(), eof)
}

fn rejected_status(step: ReadStep) -> Option<(&'static str, String)> {
    match step {
        ReadStep::Reject(r) => Some((r.status, String::from_utf8(r.body).unwrap())),
        _ => None,
    }
}

#[test]
fn a_post_body_is_read_to_its_content_length() {
    let body = vec![b'x'; 10_000];
    let head = format!(
        "POST /recordings/import HTTP/1.1\r\nHost: x\r\nAuthorization: Bearer secret-token\r\nContent-Type: audio/webm\r\nContent-Length: {}\r\n\r\n",
        body.len()
    );
    let mut bytes = head.into_bytes();
    bytes.extend_from_slice(&body[..100]);
    assert!(matches!(step(&bytes, false), ReadStep::More));
    bytes.extend_from_slice(&body[100..]);
    bytes.extend_from_slice(b"trailing");
    match step(&bytes, false) {
        ReadStep::Ready(request) => {
            assert_eq!(request.method, "POST");
            assert_eq!(request.body, body);
        }
        _ => panic!("expected a complete request"),
    }
}

#[test]
fn request_reading_refuses_what_it_cannot_frame() {
    let oversized = format!(
        "POST /recordings/import HTTP/1.1\r\nHost: x\r\nContent-Length: {}\r\n\r\n",
        MAX_UPLOAD_BYTES + 1
    );
    assert_eq!(
        rejected_status(step(oversized.as_bytes(), false)),
        Some((
            "413 Payload Too Large",
            "{\"error\":\"PAYLOAD_TOO_LARGE\",\"maxBytes\":536870912}".to_string()
        ))
    );
    assert_eq!(
        rejected_status(step(b"POST /x HTTP/1.1\r\nContent-Length: ten\r\n\r\n", false)),
        Some(("411 Length Required", "{\"error\":\"LENGTH_REQUIRED\"}".to_string()))
    );
    assert_eq!(
        rejected_status(step(b"POST /x HTTP/1.1\r\n\r\n", false)),
        Some(("411 Length Required", "{\"error\":\"LENGTH_REQUIRED\"}".to_string()))
    );
    assert_eq!(
        rejected_status(step(b"POST /x HTTP/1.1\r\nContent-Length: 5\r\n\r\nab", true)),
        Some(("400 Bad Request", "{\"error\":\"BAD_REQUEST\"}".to_string()))
    );
    assert_eq!(
        rejected_status(step(b"GET\r\n\r\n", false)),
        Some(("400 Bad Request", "{\"error\":\"BAD_REQUEST\"}".to_string()))
    );
    assert_eq!(
        rejected_status(step(b"GET / HTTP/1.1\r\n", true)),
        Some(("400 Bad Request", "{\"error\":\"BAD_REQUEST\"}".to_string()))
    );
    assert!(matches!(step(b"GET / HTTP/1.1\r\n", false), ReadStep::More));
    let long = vec![b'a'; MAX_REQUEST_HEAD + 1];
    assert!(rejected_status(step(&long, false)).is_some());
    assert!(matches!(step(&long[..MAX_REQUEST_HEAD], false), ReadStep::More));
    match step(b"GET /health HTTP/1.1\r\nContent-Length: 3\r\n\r\n", false) {
        ReadStep::Ready(request) => assert!(request.body.is_empty()),
        _ => panic!("a GET needs no body"),
    }
    match step(b"POST /x HTTP/1.1\r\nContent-Length: +0\r\n\r\n", false) {
        ReadStep::Ready(request) => assert!(request.body.is_empty()),
        _ => panic!("an empty body is complete at once"),
    }
}

#[test]
fn response_heads_carry_length_cors_and_extra_headers() {
    let response = Response {
        status: "206 Partial Content",
        content_type: "audio/wav",
        body: vec![1, 2, 3],
        extra_headers: vec![("Accept-Ranges".to_string(), "bytes".to_string())],
    };
    assert_eq!(
        response_head(&response, None),
        "HTTP/1.1 206 Partial Content\r\nContent-Type: audio/wav\r\nContent-Length: 3\r\nConnection: close\r\nCache-Control: no-store\r\nAccept-Ranges: bytes\r\n\r\n"
    );
    let with_cors = response_head(&response, Some("https://fung-seven.vercel.app"));
    assert!(with_cors.contains("Access-Control-Allow-Origin: https://fung-seven.vercel.app\r\nVary: Origin\r\n"));
    assert!(with_cors.contains("Access-Control-Allow-Private-Network: true\r\n"));
    assert!(with_cors.ends_with("Accept-Ranges: bytes\r\n\r\n"));
}

fn rec(id: Option<&str>, project: &str, created: Option<&str>) -> RecordingRow {
    RecordingRow {
        id: id.map(str::to_string),
        project_id: Some(project.to_string()),
        source: Some("desktop".to_string()),
        status: Some("completed".to_string()),
        duration_number: None,
        duration_text: Some("90000".to_string()),
        created_at: created.map(str::to_string),
        language: None,
    }
}

#[test]
fn recordings_are_listed_newest_first_with_their_channels() {
    let projects = vec![
        ProjectRow { id: Some("p1".to_string()), name: Some("Old name".to_string()) },
        ProjectRow { id: Some("p1".to_string()), name: Some("Standup".to_string()) },
        ProjectRow { id: Some("p2".to_string()), name: None },
    ];
    let chunks = vec![
        SlicePathRow { recording_id: Some("r1".to_string()), file_path: Some("C:\\x\\system-00001.wav".to_string()) },
        SlicePathRow { recording_id: Some("r1".to_string()), file_path: Some("/x/mic-00001.wav".to_string()) },
        SlicePathRow { recording_id: Some("r2".to_string()), file_path: None },
    ];
    let recordings = vec![
        rec(Some("r1"), "p1", Some("2026-01-02T10:00:00Z")),
        rec(None, "p1", Some("2026-03-01T10:00:00Z")),
        rec(Some("r2"), "p2", None),
        rec(Some("r3"), "p9", Some("2026-02-01T10:00:00Z")),
    ];
    let list = summarize_recordings(&projects, &chunks, &recordings);
    let ids: Vec<&str> = list.iter().map(|r| r.id.as_str()).collect();
    assert_eq!(ids, vec!["r3", "r1", "r2"]);
    let r1 = &list[1];
    assert_eq!(r1.project_name.as_deref(), Some("Standup"));
    assert_eq!(r1.channels, vec!["mic".to_string(), "system".to_string()]);
    assert_eq!(r1.chunk_count, 2);
    assert_eq!(r1.duration_ms, 90_000);
    assert_eq!(list[0].project_name, None);
    assert_eq!(list[2].chunk_count, 0);
}

#[test]
fn health_is_open_but_everything_else_needs_the_token() {
    let token = control().token;
    assert!(matches!(route(&get("/health", &[]), &token), Route::Health));
    assert!(matches!(route(&get("/recordings", &[]), &token), Route::Unauthorized));
    assert!(matches!(
        route(&get("/recordings/x/audio?token=wrong", &[]), &token),
        Route::Unauthorized
    ));
    let preflight = parse_request(
        "OPTIONS /recordings HTTP/1.1\r\nOrigin: https://fung-seven.vercel.app\r\n",
    )
    .unwrap();
    assert!(
        matches!(route(&preflight, &token), Route::Preflight),
        "preflight carries no token and must not 401"
    );
    let post = parse_request("POST /recordings HTTP/1.1\r\nAuthorization: Bearer secret-token\r\n")
        .unwrap();
    assert!(
        matches!(route(&post, &token), Route::UnknownUpload),
        "POST exists for /recordings/import only"
    );
    let put = parse_request("PUT /recordings HTTP/1.1\r\nAuthorization: Bearer secret-token\r\n")
        .unwrap();
    assert!(matches!(route(&put, &token), Route::MethodNotAllowed));
}

#[test]
fn audio_route_rejects_nested_or_empty_ids() {
    let token = control().token;
    for path in ["/recordings//audio", "/recordings/a/b/audio", "/recordings/a/audio/"] {
        let decided = route(&get(&format!("{path}?token=secret-token"), &[]), &token);
        assert!(matches!(decided, Route::NotFound), "{path}");
    }
}

fn seeded_recording(id: &str, source: &str, duration: i64, created: &str) -> RecordingRow {
    RecordingRow {
        id: Some(id.to_string()),
        project_id: Some("p1".to_string()),
        source: Some(source.to_string()),
        status: Some("completed".to_string()),
        duration_number: Some(duration),
        duration_text: None,
        created_at: Some(created.to_string()),
        language: None,
    }
}

fn slice_row(recording: &str, path: &str) -> SlicePathRow {
    SlicePathRow {
        recording_id: Some(recording.to_string()),
        file_path: Some(path.to_string()),
    }
}

#[test]
fn lists_recordings_newest_first_with_channels_from_chunk_names() {
    let projects = vec![ProjectRow { id: Some("p1".to_string()), name: Some("Standup".to_string()) }];
    let live = "/tmp/project/live/rec-live/chunks";
    let chunks = vec![
        slice_row("rec-live", &format!("{live}/mic-00002.wav")),
        slice_row("rec-live", &format!("{live}/mic-00001.wav")),
        slice_row("rec-live", &format!("{live}/system-00001.wav")),
        slice_row("rec-import", "/tmp/project/imports/rec-import/meeting.m4a"),
    ];
    let recordings = vec![
        seeded_recording("rec-live", "microphone", 5000, "2026-09-13T10:00:00Z"),
        seeded_recording("rec-import", "import", 9000, "2026-09-12T10:00:00Z"),
    ];
    let list = summarize_recordings(&projects, &chunks, &recordings);
    assert_eq!(list.len(), 2);
    assert_eq!(list[0].id, "rec-live", "newest first");
    assert_eq!(list[0].project_name.as_deref(), Some("Standup"));
    assert_eq!(list[0].duration_ms, 5000);
    assert_eq!(list[0].channels, vec!["mic".to_string(), "system".to_string()]);
    assert_eq!(list[0].chunk_count, 3);
    assert_eq!(list[1].id, "rec-import");
    assert_eq!(list[1].channels, vec!["file".to_string()]);
}

#[test]
fn upload_needs_the_token_the_right_path_and_a_runtime() {
    let token = control().token;
    let denied = post("/recordings/import", &[], b"abc");
    assert!(matches!(route(&denied, &token), Route::Unauthorized));
    let elsewhere = post("/recordings", &[("Authorization", "Bearer secret-token")], b"abc");
    assert!(
        matches!(route(&elsewhere, &token), Route::UnknownUpload),
        "only /recordings/import takes a POST"
    );
    let upload = post("/recordings/import", &[("Authorization", "Bearer secret-token")], b"abc");
    assert!(matches!(route(&upload, &token), Route::Import));
    assert_eq!(
        fung::local_api::upload_refusal(false, upload.body.len()),
        Some(("503 Service Unavailable", "IMPORT_UNAVAILABLE"))
    );
}

#[test]
fn an_upload_is_kept_under_imports_web_with_its_extension() {
    assert_eq!(fung::local_api::upload_refusal(true, 0), Some(("400 Bad Request", "EMPTY_BODY")));
    assert_eq!(fung::local_api::upload_refusal(true, 3), None);
    assert_eq!(
        fung::local_api::upload_file_path(PathStyle::Posix, "/data", "rec-1", "m4a"),
        "/data/imports/web/rec-1.m4a"
    );
    assert_eq!(
        fung::local_api::upload_file_path(PathStyle::Windows, "D:\\", "rec-1", "wav"),
        "D:\\imports\\web\\rec-1.wav"
    );
}

#[test]
fn routes_that_need_nothing_read_have_fixed_answers() {
    let preflight = fixed_response(&Route::Preflight).unwrap();
    assert_eq!(preflight.status, "204 No Content");
    assert!(preflight.body.is_empty());
    let denied = fixed_response(&Route::Unauthorized).unwrap();
    assert_eq!(denied.status, "401 Unauthorized");
    assert_eq!(denied.content_type, "application/json");
    assert_eq!(denied.body, br#"{"error":"AUTH_REQUIRED"}"#.to_vec());
    assert_eq!(fixed_response(&Route::UnknownUpload).unwrap().body, br#"{"error":"NOT_FOUND"}"#.to_vec());
    let other = fixed_response(&Route::MethodNotAllowed).unwrap();
    assert_eq!(other.status, "405 Method Not Allowed");
    assert_eq!(other.body, br#"{"error":"METHOD_NOT_ALLOWED"}"#.to_vec());
    let unknown = fixed_response(&Route::NotFound).unwrap();
    assert_eq!(unknown.status, "404 Not Found");
    let mut expected = serde_json::Map::new();
    let routes = [
        "/health",
        "/recordings",
        "/recordings/{id}/audio?channel=mic|system|file",
        "/recordings/{id}/transcript",
        "/jobs/{id}",
        "POST /recordings/import",
    ];
    expected.insert("error".to_string(), serde_json::Value::from("NOT_FOUND"));
    expected.insert(
        "available".to_string(),
        serde_json::Value::Array(routes.iter().map(|r| serde_json::Value::from(*r)).collect()),
    );
    let expected = serde_json::Value::Object(expected);
    assert_eq!(unknown.body, expected.to_string().into_bytes());
    assert!(fixed_response(&Route::Health).is_none());
    assert!(fixed_response(&Route::Recordings).is_none());
}

#[test]
fn stitching_needs_whole_frames_and_some_channels() {
    let slice = |channels: u16, samples: Vec<i16>| SliceRead::Opened {
        path: "/p/mic-00001.wav".to_string(),
        format: WavFormat { channels, sample_rate: 16_000, bits_per_sample: 16, integer: true },
        samples: Ok(samples),
    };
    let stereo = stitch_wav(&vec![slice(2, vec![1, 2, 3, 4])]).unwrap();
    let reader = hound::WavReader::new(std::io::Cursor::new(&stereo.bytes)).unwrap();
    assert_eq!(reader.spec().channels, 2);
    match stitch_wav(&vec![slice(2, vec![1, 2, 3])]) {
        Err(AudioError::Internal(detail)) => assert_eq!(detail, "the samples do not fill whole frames"),
        _ => panic!("expected an unfinished frame"),
    }
    match stitch_wav(&vec![slice(0, vec![1])]) {
        Err(AudioError::Internal(detail)) => assert_eq!(detail, "the slices declare no channels"),
        _ => panic!("expected no channels"),
    }
}

#[test]
fn health_reports_the_store_as_one_json_object() {
    let response = health_response("0.1.0", "/data/a\"b\\c\n\u{1}", 42);
    assert_eq!(response.status, "200 OK");
    assert_eq!(response.content_type, "application/json");
    let body = String::from_utf8(response.body.clone()).unwrap();
    assert_eq!(
        body,
        "{\"app\":\"FUNG\",\"databasePath\":\"/data/a\\\"b\\\\c\\n\\u0001\",\"stableFrontier\":42,\"storageAuthority\":\"GenesisBlockDB signed WAL\",\"version\":\"0.1.0\"}"
    );
    let mut expected = serde_json::Map::new();
    expected.insert("app".to_string(), serde_json::Value::from("FUNG"));
    expected.insert("version".to_string(), serde_json::Value::from("0.1.0"));
    expected.insert("databasePath".to_string(), serde_json::Value::from("/data/a\"b\\c\n\u{1}"));
    expected.insert("storageAuthority".to_string(), serde_json::Value::from("GenesisBlockDB signed WAL"));
    expected.insert("stableFrontier".to_string(), serde_json::Value::from(42u64));
    assert_eq!(body, serde_json::Value::Object(expected).to_string());
}

#[test]
fn stitching_refuses_an_unusable_sample_rate() {
    let slice = |channels: u16, sample_rate: u32| SliceRead::Opened {
        path: "/p/mic-00001.wav".to_string(),
        format: WavFormat { channels, sample_rate, bits_per_sample: 16, integer: true },
        samples: Ok(vec![1, 2, 3, 4]),
    };
    for (channels, rate) in [(1u16, 0u32), (2, 3_000_000_000), (2, 1_073_741_824)] {
        match stitch_wav(&vec![slice(channels, rate)]) {
            Err(AudioError::Internal(detail)) => {
                assert_eq!(detail, "the slices declare an unusable sample rate")
            }
            _ => panic!("expected an unusable sample rate"),
        }
    }
    let highest = stitch_wav(&vec![slice(2, 1_073_741_823)]).unwrap();
    let reader = hound::WavReader::new(std::io::Cursor::new(&highest.bytes)).unwrap();
    assert_eq!(reader.spec().sample_rate, 1_073_741_823);
}
