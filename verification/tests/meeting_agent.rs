use fung::meeting_agent::{expiry_passed, expiry_passed_at, meeting_agent_status_at};
use sha2::{Digest, Sha256};
use fung::meeting_agent::{
    agent_state_for_mode, approve_delivery, approve_delivery_with, begin_agent_run, check_ask,
    check_ask_with, check_delivery_approval, check_delivery_approval_with,
    check_delivery_preview, check_delivery_preview_with, check_persisted_approval, check_policy,
    check_revoke, check_start, check_transcript_cursor, compose_private_draft, draft_id_for,
    expire_agent_status, finish_agent_run, locator_label, meeting_agent_capability,
    meeting_agent_status_snapshot, policy_grant_state, record_delivery_preview_with,
    release_agent_run, running_state_change, settle_agent_status, update_agent_runtime,
};
use fung::meeting_agent::{
    AgentError, AgentSession, ApprovalRequest, AskRequest, CitationLocator, DeliveryPreview,
    EvidenceHit, GrantRow, KnowledgeCollection, MeetingAgentStatus, PreviewRequest, PrivateDraft,
    RuntimeDelivery, DRAFT_HEADER,
};

fn strings(items: &[&str]) -> Vec<String> {
    items.iter().map(|s| s.to_string()).collect()
}

fn refused(res: Result<(), AgentError>) -> Option<&'static str> {
    match res {
        Err(AgentError::Refused(code)) => Some(code),
        _ => None,
    }
}

fn invalid(res: Result<(), AgentError>) -> Option<&'static str> {
    match res {
        Err(AgentError::InvalidInput(code)) => Some(code),
        _ => None,
    }
}

fn collection(id: &str, selected: bool, readable: bool) -> KnowledgeCollection {
    KnowledgeCollection { collection_id: id.to_string(), selected, readable }
}

fn session(mode: &str, state: &str, revision: u64) -> AgentSession {
    AgentSession {
        enabled_this_process: true,
        mode: mode.to_string(),
        state: state.to_string(),
        revision,
        expires_at: None,
        allowed_topics: strings(&["budget"]),
        active_run_id: None,
        run_times_ms: Vec::new(),
        drafts: Vec::new(),
        deliveries: Vec::new(),
    }
}

/// A status in which the agent may draft, at `revision`.
fn drafting_status(revision: u64) -> MeetingAgentStatus {
    let s = Some(session("draft", "drafting", revision));
    settle_agent_status(
        "p1",
        "r1",
        true,
        true,
        &None,
        &strings(&["c1"]),
        &Some(vec![collection("c1", true, true)]),
        &s,
    )
}

#[test]
fn capabilities_carry_a_reason_only_while_blocked() {
    let ready = meeting_agent_capability(true, Some("LOCAL_OWNER_LOCKED"));
    assert_eq!(ready.readiness, "ready");
    assert_eq!(ready.reason_code, None);
    let blocked = meeting_agent_capability(false, Some("LOCAL_OWNER_LOCKED"));
    assert_eq!(blocked.readiness, "blocked");
    assert_eq!(blocked.reason_code.as_deref(), Some("LOCAL_OWNER_LOCKED"));
}

#[test]
fn a_fresh_meeting_lists_every_missing_capability() {
    let status = settle_agent_status("p1", "r1", false, false, &None, &Vec::new(), &None, &None);
    assert_eq!(
        status.blockers,
        strings(&["LOCAL_OWNER_LOCKED", "TRANSCRIPT_UNAVAILABLE", "KNOWLEDGE_SELECTION_REQUIRED"])
    );
    assert_eq!(status.mode, "off");
    assert_eq!(status.state, "stopped");
    assert_eq!(status.revision, 0);
    assert_eq!(status.knowledge_read.reason_code.as_deref(), Some("KNOWLEDGE_SELECTION_REQUIRED"));
    assert_eq!(status.external_join.readiness, "unavailable");
    assert_eq!(status.external_file_upload.reason_code.as_deref(), Some("PROVIDER_UNCONFIGURED"));
}

#[test]
fn selected_knowledge_must_all_be_readable() {
    let selected = strings(&["c1", "c2"]);
    let items = Some(vec![collection("c1", true, true), collection("c2", true, false)]);
    let status = settle_agent_status("p1", "r1", true, true, &None, &selected, &items, &None);
    assert_eq!(status.blockers, strings(&["KNOWLEDGE_READ_UNAVAILABLE"]));
    assert_eq!(status.knowledge_read.readiness, "blocked");

    let items = Some(vec![collection("c1", true, true), collection("c2", false, true)]);
    let status = settle_agent_status("p1", "r1", true, true, &None, &selected, &items, &None);
    assert!(status.blockers.is_empty());
    assert_eq!(status.knowledge_read.readiness, "ready");
}

#[test]
fn a_grant_left_active_needs_enabling_again_unless_this_process_enabled_it() {
    let grant = Some(GrantRow {
        expected_revision: Some(4),
        mode: Some("draft".to_string()),
        state: Some("active".to_string()),
        expires_at: None,
        allowed_topics: Some(strings(&["hiring"])),
    });
    let selected = strings(&["c1"]);
    let items = Some(vec![collection("c1", true, true)]);
    let status = settle_agent_status("p1", "r1", true, true, &grant, &selected, &items, &None);
    assert_eq!(status.state, "paused");
    assert_eq!(status.mode, "draft");
    assert_eq!(status.revision, 4);
    assert_eq!(status.blockers, strings(&["RESTART_REQUIRES_REENABLE"]));
    assert_eq!(status.allowed_topics, strings(&["hiring"]));

    let enabled = Some(session("observe", "observing", 3));
    let status = settle_agent_status("p1", "r1", true, true, &grant, &selected, &items, &enabled);
    assert_eq!(status.state, "observing");
    assert_eq!(status.mode, "observe");
    assert_eq!(status.revision, 4, "the later revision counts");
    assert!(status.blockers.is_empty());
    assert_eq!(status.allowed_topics, strings(&["budget"]));

    let revoked = Some(GrantRow {
        expected_revision: None,
        mode: None,
        state: Some("revoked".to_string()),
        expires_at: Some("2001-01-01T00:00:00Z".to_string()),
        allowed_topics: None,
    });
    let status = settle_agent_status("p1", "r1", true, true, &revoked, &selected, &items, &None);
    assert_eq!(status.state, "blocked");
    assert_eq!(status.mode, "off");
    assert_eq!(status.expires_at.as_deref(), Some("2001-01-01T00:00:00Z"));
}

#[test]
fn an_expired_grant_turns_the_agent_off() {
    let grant = Some(GrantRow {
        expected_revision: Some(2),
        mode: Some("draft".to_string()),
        state: Some("active".to_string()),
        expires_at: Some("2001-01-01T00:00:00Z".to_string()),
        allowed_topics: None,
    });
    let selected = strings(&["c1"]);
    let items = Some(vec![collection("c1", true, true)]);
    let settled = settle_agent_status("p1", "r1", true, true, &grant, &selected, &items, &None);
    let expired = expire_agent_status(settled);
    assert_eq!(expired.mode, "off");
    assert_eq!(expired.state, "expired");
    assert_eq!(expired.blockers, strings(&["MEETING_AGENT_GRANT_EXPIRED"]));

    let snapshot = meeting_agent_status_snapshot("p1", "r1", true, true, &grant, &selected, &items, &None);
    assert_eq!(snapshot.state, "expired", "a past expiry is judged by the clock");

    let mut future = grant;
    if let Some(g) = future.as_mut() {
        g.expires_at = Some("2999-01-01T00:00:00Z".to_string());
    }
    let snapshot = meeting_agent_status_snapshot("p1", "r1", true, true, &future, &selected, &items, &None);
    assert_eq!(snapshot.state, "paused");

    let garbled = Some(GrantRow {
        expected_revision: None,
        mode: Some("draft".to_string()),
        state: Some("paused".to_string()),
        expires_at: Some("not a time".to_string()),
        allowed_topics: None,
    });
    let snapshot = meeting_agent_status_snapshot("p1", "r1", true, true, &garbled, &selected, &items, &None);
    assert_eq!(snapshot.state, "expired", "an unreadable expiry counts as passed");
}

fn ask(question: &str, ids: &[&str]) -> AskRequest {
    AskRequest {
        project_id: "p1".to_string(),
        recording_id: "r1".to_string(),
        request_id: "req-1".to_string(),
        expected_revision: 7,
        question: question.to_string(),
        transcript_cursor: 3,
        collection_ids: strings(ids),
    }
}

#[test]
fn a_question_is_checked_before_any_search() {
    let before = drafting_status(7);
    let selected = strings(&["c1", "c2"]);
    assert!(check_ask_with(&ask("งบเท่าไร", &["c2", "c1"]), &before, &selected, false).is_ok());

    let mut stale = ask("งบเท่าไร", &["c1", "c2"]);
    stale.expected_revision = 6;
    assert_eq!(refused(check_ask_with(&stale, &before, &selected, false)), Some("STALE_MEETING_AGENT_REVISION"));

    let unreadable = settle_agent_status("p1", "r1", true, true, &None, &selected, &None, &Some(session("draft", "drafting", 7)));
    assert_eq!(
        refused(check_ask_with(&ask("q", &["c1", "c2"]), &unreadable, &selected, false)),
        Some("MEETING_AGENT_DRAFT_NOT_AUTHORIZED")
    );

    for bad in [
        ask("   ", &["c1", "c2"]),
        ask(&"ก".repeat(2001), &["c1", "c2"]),
        ask("q", &["c1", "c1"]),
        ask("q", &["c1"]),
        ask("q", &["c1", "c3"]),
    ] {
        assert_eq!(invalid(check_ask_with(&bad, &before, &selected, false)), Some("MEETING_AGENT_ASK_INVALID"));
    }
    let mut behind = ask("q", &["c1", "c2"]);
    behind.transcript_cursor = -1;
    assert_eq!(invalid(check_ask_with(&behind, &before, &selected, false)), Some("MEETING_AGENT_ASK_INVALID"));
    assert!(check_ask_with(&ask(&"ก".repeat(2000), &["c1", "c2"]), &before, &selected, false).is_ok());

    // Without an expiry there is nothing to pass.
    assert!(check_ask_with(&ask("q", &["c1", "c2"]), &before, &selected, true).is_ok());
    let mut expiring = drafting_status(7);
    expiring.expires_at = Some("2001-01-01T00:00:00Z".to_string());
    assert_eq!(
        refused(check_ask_with(&ask("q", &["c1", "c2"]), &expiring, &selected, true)),
        Some("MEETING_AGENT_GRANT_EXPIRED")
    );
    assert_eq!(
        refused(check_ask(&ask("q", &["c1", "c2"]), &expiring, &selected)),
        Some("MEETING_AGENT_GRANT_EXPIRED")
    );
    assert_eq!(refused(check_transcript_cursor(4, 3)), Some("MEETING_TRANSCRIPT_CURSOR_STALE"));
    assert!(check_transcript_cursor(3, 3).is_ok());
}

#[test]
fn runs_are_one_at_a_time_and_rate_limited() {
    let mut s = session("draft", "drafting", 1);
    assert!(begin_agent_run(&mut s, "run-1".to_string(), 1_000_000).is_ok());
    assert_eq!(s.active_run_id.as_deref(), Some("run-1"));
    assert_eq!(
        refused(begin_agent_run(&mut s, "run-2".to_string(), 1_000_100)),
        Some("MEETING_AGENT_RUN_ALREADY_ACTIVE")
    );
    release_agent_run(&mut s, "someone-else");
    assert!(s.active_run_id.is_some());
    release_agent_run(&mut s, "run-1");
    assert!(s.active_run_id.is_none());

    assert!(begin_agent_run(&mut s, "run-2".to_string(), 1_010_000).is_ok());
    release_agent_run(&mut s, "run-2");
    assert_eq!(
        refused(begin_agent_run(&mut s, "run-3".to_string(), 1_020_000)),
        Some("MEETING_AGENT_LOCAL_RATE_LIMIT"),
        "two runs already started this minute"
    );
    assert!(begin_agent_run(&mut s, "run-3".to_string(), 1_070_000).is_ok());
    assert_eq!(s.run_times_ms, vec![1_000_000, 1_010_000, 1_070_000]);

    let mut busy = session("draft", "drafting", 1);
    busy.run_times_ms = (0..20).map(|k| 10_000_000 + k * 100_000).collect();
    assert_eq!(
        refused(begin_agent_run(&mut busy, "r".to_string(), 12_000_000)),
        Some("MEETING_AGENT_LOCAL_RATE_LIMIT"),
        "twenty runs this hour"
    );
    busy.run_times_ms[0] = 1;
    assert!(begin_agent_run(&mut busy, "r".to_string(), 12_000_000).is_ok());
    assert_eq!(busy.run_times_ms.len(), 20, "the run older than an hour is forgotten");

    let mut paused = session("draft", "paused", 1);
    assert_eq!(
        refused(begin_agent_run(&mut paused, "r".to_string(), 5)),
        Some("MEETING_AGENT_RESTART_REQUIRES_REENABLE")
    );
}

fn hit(excerpt: &str, document_id: &str, locator: CitationLocator) -> EvidenceHit {
    EvidenceHit {
        excerpt: excerpt.to_string(),
        document_id: document_id.to_string(),
        document_version_id: format!("{document_id}-v1"),
        locator,
    }
}

fn sha256_hex(text: &str) -> String {
    Sha256::digest(text.as_bytes()).iter().map(|b| format!("{b:02x}")).collect()
}

#[test]
fn a_draft_quotes_and_cites_the_evidence() {
    let hits = vec![
        hit(" งบ 5 ล้าน ", "doc-1234567890", CitationLocator::TextSpan { start_line: 3, end_line: 4, start_char: 10, end_char: 42 }),
        hit("   ", "doc-empty", CitationLocator::PdfPage { page_number: 1, start_char: 0, end_char: 1 }),
        hit("ตามแผน", "d2", CitationLocator::PdfPage { page_number: 7, start_char: 5, end_char: 9 }),
        hit("Q3", "sheet-doc", CitationLocator::SpreadsheetCellRange { sheet_ref: "Budget".to_string(), range: "A1:B2".to_string() }),
        hit("ตกลง", "rec-doc", CitationLocator::TranscriptRange { recording_id: "r9".to_string(), start_ms: -5, end_ms: 900 }),
    ];
    let draft = compose_private_draft("req-1", &hits).unwrap();
    assert_eq!(
        draft.text,
        format!("{DRAFT_HEADER}“งบ 5 ล้าน”\n\n“ตามแผน”\n\n“Q3”\n\n“ตกลง”\n\n")
    );
    assert_eq!(draft.citations.len(), 4);
    assert_eq!(draft.citations[0].locator, "บรรทัด 3-4 · อักขระ 10-42");
    assert_eq!(draft.citations[0].label, "เอกสาร doc-1234");
    assert_eq!(draft.citations[0].version_id, "doc-1234567890-v1");
    assert_eq!(draft.citations[1].locator, "หน้า 7 · อักขระ 5-9");
    assert_eq!(draft.citations[1].label, "เอกสาร d2");
    assert_eq!(draft.citations[2].locator, "ชีต Budget · A1:B2");
    assert_eq!(draft.citations[3].locator, "r9 · -5-900 ms");
    assert_eq!(draft.draft_id, format!("draft-{}", &sha256_hex("req-1")[..32]));
    assert_eq!(draft_id_for("req-1"), draft.draft_id);
    assert_ne!(draft_id_for("req-2"), draft.draft_id);
}

#[test]
fn a_draft_needs_a_quote_and_a_bounded_length() {
    let span = || CitationLocator::TextSpan { start_line: 1, end_line: 1, start_char: 0, end_char: 1 };
    let nothing = vec![hit("  ", "d", span())];
    assert!(matches!(
        compose_private_draft("r", &nothing),
        Err(AgentError::Refused("MEETING_AGENT_DRAFT_SIZE_INVALID"))
    ));
    assert!(matches!(
        compose_private_draft("r", &Vec::new()),
        Err(AgentError::Refused("MEETING_AGENT_DRAFT_SIZE_INVALID"))
    ));
    let long = vec![hit(&"x".repeat(12_000), "d", span())];
    assert!(matches!(
        compose_private_draft("r", &long),
        Err(AgentError::Refused("MEETING_AGENT_DRAFT_SIZE_INVALID"))
    ));
    let many: Vec<EvidenceHit> = (0..10).map(|k| hit(&format!("e{k}"), "d", span())).collect();
    let draft = compose_private_draft("r", &many).unwrap();
    assert_eq!(draft.citations.len(), 8, "only the first eight excerpts are quoted");
    assert!(draft.text.ends_with("“e7”\n\n"));
    assert_eq!(locator_label(&span()), "บรรทัด 1-1 · อักขระ 0-1");
}

#[test]
fn starting_and_changing_the_policy_is_checked() {
    let before = drafting_status(5);
    assert!(check_start("draft", 5, &before).is_ok());
    assert_eq!(invalid(check_start("off", 5, &before)), Some("MEETING_AGENT_MODE_INVALID"));
    assert_eq!(refused(check_start("observe", 4, &before)), Some("STALE_MEETING_AGENT_REVISION"));

    let mut restart_only = drafting_status(5);
    restart_only.blockers = strings(&["RESTART_REQUIRES_REENABLE", "MEETING_AGENT_GRANT_EXPIRED"]);
    assert!(check_start("observe", 5, &restart_only).is_ok());
    let locked = settle_agent_status("p1", "r1", false, true, &None, &Vec::new(), &None, &None);
    assert_eq!(refused(check_start("observe", 0, &locked)), Some("MEETING_AGENT_PREFLIGHT_BLOCKED"));

    assert!(check_policy("off", 0, &locked).is_ok());
    assert_eq!(refused(check_policy("draft", 0, &locked)), Some("MEETING_AGENT_PREFLIGHT_BLOCKED"));
    assert_eq!(invalid(check_policy("loud", 0, &locked)), Some("MEETING_AGENT_MODE_INVALID"));

    assert_eq!(agent_state_for_mode("observe"), "observing");
    assert_eq!(agent_state_for_mode("draft"), "drafting");
    assert_eq!(agent_state_for_mode("off"), "stopped");
    assert_eq!(policy_grant_state("off"), "stopped");
    assert_eq!(policy_grant_state("draft"), "active");

    assert!(check_revoke("done", 5, &before).is_ok());
    assert_eq!(invalid(check_revoke("  ", 5, &before)), Some("MEETING_AGENT_REVOKE_REASON_INVALID"));
    assert_eq!(
        invalid(check_revoke(&"ก".repeat(86), 5, &before)),
        Some("MEETING_AGENT_REVOKE_REASON_INVALID"),
        "the limit counts UTF-8 bytes"
    );
    assert!(check_revoke(&"ก".repeat(85), 5, &before).is_ok());
    assert_eq!(refused(check_revoke("done", 1, &before)), Some("STALE_MEETING_AGENT_REVISION"));

    let paused = running_state_change(5, &before, "paused").unwrap();
    assert_eq!(paused.mode, "draft");
    assert!(paused.enabled);
    assert_eq!(paused.allowed_topics, strings(&["budget"]));
    let stopped = running_state_change(5, &before, "stopped").unwrap();
    assert_eq!(stopped.mode, "off");
    assert!(!stopped.enabled);
    assert!(matches!(running_state_change(4, &before, "paused"), Err(AgentError::Refused("STALE_MEETING_AGENT_REVISION"))));
}

fn draft(id: &str, revision: u64, expires_at: &str) -> PrivateDraft {
    PrivateDraft {
        draft_id: id.to_string(),
        revision,
        text: "t".to_string(),
        citations: Vec::new(),
        based_on_transcript_cursor: 3,
        expires_at: expires_at.to_string(),
        state: "private".to_string(),
    }
}

#[test]
fn disabling_a_session_forgets_its_drafts_and_runs() {
    let mut s = session("draft", "drafting", 1);
    s.run_times_ms = vec![1, 2];
    s.active_run_id = Some("run".to_string());
    s.drafts.push(draft("d1", 1, "2999-01-01T00:00:00Z"));
    update_agent_runtime(&mut s, 2, "draft", "paused", None, Vec::new(), true);
    assert_eq!(s.revision, 2);
    assert_eq!(s.state, "paused");
    assert!(s.active_run_id.is_none());
    assert_eq!(s.drafts.len(), 1);
    update_agent_runtime(&mut s, 3, "off", "blocked", None, Vec::new(), false);
    assert!(!s.enabled_this_process);
    assert!(s.drafts.is_empty() && s.deliveries.is_empty() && s.run_times_ms.is_empty());
}

#[test]
fn a_finished_run_keeps_its_draft_under_its_id() {
    let mut s = session("draft", "observing", 1);
    assert!(begin_agent_run(&mut s, "run".to_string(), 10).is_ok());
    assert!(finish_agent_run(&mut s, "run", draft("d1", 1, "2999-01-01T00:00:00Z")).is_ok());
    assert_eq!(s.state, "drafting");
    assert!(s.active_run_id.is_none());
    assert_eq!(s.drafts.len(), 1);

    assert!(begin_agent_run(&mut s, "run-2".to_string(), 100_000).is_ok());
    assert!(finish_agent_run(&mut s, "run-2", draft("d1", 2, "2999-01-01T00:00:00Z")).is_ok());
    assert_eq!(s.drafts.len(), 1, "the same id is replaced, not doubled");
    assert_eq!(s.drafts[0].revision, 2);

    assert_eq!(
        refused(finish_agent_run(&mut s, "gone", draft("d2", 1, "x"))),
        Some("MEETING_AGENT_RUN_CANCELLED")
    );
    assert_eq!(s.drafts.len(), 1);
}

fn preview_request(draft_id: &str, revision: u64) -> PreviewRequest {
    PreviewRequest {
        project_id: "p1".to_string(),
        recording_id: "r1".to_string(),
        request_id: "req".to_string(),
        scope: "local_preview_only".to_string(),
        expected_revision: 5,
        draft_id: draft_id.to_string(),
        draft_revision: revision,
    }
}

#[test]
fn a_delivery_is_previewed_only_for_a_current_private_draft() {
    let status = drafting_status(5);
    let mut s = session("draft", "drafting", 5);
    s.drafts.push(draft("d1", 1, "2999-01-01T00:00:00Z"));
    s.drafts.push(draft("old", 1, "2001-01-01T00:00:00Z"));

    let found = check_delivery_preview_with(&preview_request("d1", 1), &status, Some(&s), false).unwrap();
    assert_eq!(found.draft_id, "d1");
    assert!(check_delivery_preview(&preview_request("d1", 1), &status, Some(&s)).is_ok());
    assert!(matches!(
        check_delivery_preview(&preview_request("old", 1), &status, Some(&s)),
        Err(AgentError::Refused("MEETING_AGENT_DRAFT_STALE"))
    ));
    assert!(matches!(
        check_delivery_preview_with(&preview_request("d1", 2), &status, Some(&s), false),
        Err(AgentError::Refused("MEETING_AGENT_DRAFT_STALE"))
    ));
    assert!(matches!(
        check_delivery_preview_with(&preview_request("d1", 1), &status, None, false),
        Err(AgentError::Refused("MEETING_AGENT_DRAFT_UNAVAILABLE"))
    ));
    let mut wide = preview_request("d1", 1);
    wide.scope = "external".to_string();
    assert!(matches!(
        check_delivery_preview_with(&wide, &status, Some(&s), false),
        Err(AgentError::InvalidInput("MEETING_DELIVERY_SCOPE_INVALID"))
    ));
    let blocked = settle_agent_status("p1", "r1", false, true, &None, &Vec::new(), &None, &Some(session("draft", "drafting", 5)));
    assert!(matches!(
        check_delivery_preview_with(&preview_request("d1", 1), &blocked, Some(&s), false),
        Err(AgentError::Refused("MEETING_DELIVERY_PREFLIGHT_BLOCKED"))
    ));

    let preview = DeliveryPreview {
        intent_id: "i1".to_string(),
        payload_hash: "h1".to_string(),
        state: "awaiting_approval".to_string(),
    };
    assert!(record_delivery_preview_with(&mut s, 5, "d1", 1, preview, 1_000, false).is_ok());
    assert_eq!(s.deliveries.len(), 1);
    assert_eq!(s.deliveries[0].expires_at_ms, 301_000);
    let again = DeliveryPreview { intent_id: "i2".to_string(), payload_hash: "h".to_string(), state: "awaiting_approval".to_string() };
    assert_eq!(
        refused(record_delivery_preview_with(&mut s, 6, "d1", 1, again, 1_000, false)),
        Some("MEETING_DELIVERY_PREVIEW_CANCELLED")
    );
    assert_eq!(s.deliveries.len(), 1);
}

fn approval(intent: &str, hash: &str) -> ApprovalRequest {
    ApprovalRequest {
        project_id: "p1".to_string(),
        recording_id: "r1".to_string(),
        request_id: "req".to_string(),
        scope: "local_preview_only".to_string(),
        expected_revision: 5,
        intent_id: intent.to_string(),
        approved_payload_hash: hash.to_string(),
    }
}

fn delivery(intent: &str, draft_id: &str, expires_at_ms: u64) -> RuntimeDelivery {
    RuntimeDelivery {
        preview: DeliveryPreview {
            intent_id: intent.to_string(),
            payload_hash: "h1".to_string(),
            state: "awaiting_approval".to_string(),
        },
        draft_id: draft_id.to_string(),
        draft_revision: 1,
        expires_at_ms,
    }
}

#[test]
fn an_approval_names_the_payload_the_owner_saw() {
    let status = drafting_status(5);
    let mut s = session("draft", "drafting", 5);
    s.drafts.push(draft("d1", 1, "2999-01-01T00:00:00Z"));
    s.deliveries.push(delivery("i1", "d1", 10_000));
    s.deliveries.push(delivery("i-gone", "missing", 10_000));

    let preview = check_delivery_approval_with(&approval("i1", "h1"), &status, true, Some(&s), 5_000, false).unwrap();
    assert_eq!(preview.intent_id, "i1");
    assert!(check_delivery_approval(&approval("i1", "h1"), &status, true, Some(&s), 5_000).is_ok());
    for (req, now, code) in [
        (approval("i1", "other"), 5_000, "MEETING_DELIVERY_APPROVAL_STALE"),
        (approval("i1", "h1"), 10_000, "MEETING_DELIVERY_APPROVAL_STALE"),
        (approval("nope", "h1"), 5_000, "MEETING_DELIVERY_APPROVAL_STALE"),
        (approval("i-gone", "h1"), 5_000, "MEETING_DELIVERY_DRAFT_CHANGED"),
    ] {
        match check_delivery_approval_with(&req, &status, true, Some(&s), now, false) {
            Err(AgentError::Refused(c)) => assert_eq!(c, code),
            other => panic!("expected {code}, got {other:?}"),
        }
    }
    assert!(matches!(
        check_delivery_approval_with(&approval("i1", "h1"), &status, false, Some(&s), 5_000, false),
        Err(AgentError::Refused("LOCAL_OWNER_LOCKED"))
    ));
    assert!(matches!(
        check_delivery_approval_with(&approval("i1", "h1"), &status, true, None, 5_000, false),
        Err(AgentError::Refused("MEETING_DELIVERY_PREVIEW_UNAVAILABLE"))
    ));

    let approved = approve_delivery_with(&mut s, 5, "i1", "h1", 5_000, false).unwrap();
    assert_eq!(approved.state, "approved_local_only");
    assert_eq!(s.deliveries[0].preview.state, "approved_local_only");
    assert_eq!(s.deliveries[1].preview.state, "awaiting_approval");
    assert!(check_persisted_approval(&approved, &s.deliveries[0].preview).is_ok());
    let other = DeliveryPreview { intent_id: "i1".to_string(), payload_hash: "h1".to_string(), state: "awaiting_approval".to_string() };
    assert_eq!(
        refused(check_persisted_approval(&other, &approved)),
        Some("MEETING_DELIVERY_APPROVAL_STATE_MISMATCH")
    );

    assert!(matches!(
        approve_delivery_with(&mut s, 5, "nope", "h1", 5_000, false),
        Err(AgentError::Refused("MEETING_DELIVERY_PREVIEW_UNAVAILABLE"))
    ));
    s.expires_at = Some("2001-01-01T00:00:00Z".to_string());
    assert!(matches!(
        approve_delivery(&mut s, 5, "i1", "h1", 5_000),
        Err(AgentError::Refused("MEETING_DELIVERY_APPROVAL_STALE"))
    ));
}

#[test]
fn the_preflight_reports_the_limits_runs_are_held_to() {
    let limits = fung::meeting_agent::meeting_agent_local_limits();
    assert_eq!(limits.max_active_runs, 1);
    assert_eq!(limits.max_retrieval_attempts, 3);
    assert_eq!(limits.trigger_expiry_ms, 30_000);
    assert_eq!(limits.max_runs_per_minute as usize, fung::meeting_agent::MAX_RUNS_PER_BURST);
    assert_eq!(limits.max_runs_per_hour as usize, fung::meeting_agent::MAX_RUNS_PER_WINDOW);
}

#[test]
fn an_expiry_passes_when_it_is_not_after_the_clock() {
    assert!(expiry_passed_at(None, (0, 0)), "an unreadable expiry has passed");
    assert!(expiry_passed_at(Some((10, 5)), (10, 5)));
    assert!(!expiry_passed_at(Some((10, 6)), (10, 5)));
    assert!(expiry_passed_at(Some((9, 999)), (10, 0)));
    assert!(!expiry_passed_at(Some((11, 0)), (10, 999)));
    assert!(expiry_passed("2001-01-01T00:00:00Z", (978_307_200, 0)));
    assert!(!expiry_passed("2001-01-01T00:00:01Z", (978_307_200, 0)));
    assert!(!expiry_passed("2001-01-01T01:00:00+01:00", (978_307_199, 0)), "offsets are read as UTC");
    assert!(expiry_passed("not a time", (0, 0)));
}

#[test]
fn the_status_is_judged_against_the_clock_reading_given() {
    let grant = Some(GrantRow {
        expected_revision: Some(2),
        mode: Some("draft".to_string()),
        state: Some("active".to_string()),
        expires_at: Some("2001-01-01T00:00:00Z".to_string()),
        allowed_topics: None,
    });
    let selected = strings(&["c1"]);
    let items = Some(vec![collection("c1", true, true)]);
    let before = meeting_agent_status_at("p1", "r1", true, true, &grant, &selected, &items, &None, (978_307_199, 999));
    let settled = settle_agent_status("p1", "r1", true, true, &grant, &selected, &items, &None);
    assert_eq!(before.state, settled.state);
    assert_eq!(before.mode, settled.mode);
    let at = meeting_agent_status_at("p1", "r1", true, true, &grant, &selected, &items, &None, (978_307_200, 0));
    assert_eq!(at.state, "expired");
    assert_eq!(at.mode, "off");
    let mut garbled = grant;
    if let Some(g) = garbled.as_mut() {
        g.expires_at = Some("soon".to_string());
    }
    let unreadable = meeting_agent_status_at("p1", "r1", true, true, &garbled, &selected, &items, &None, (0, 0));
    assert_eq!(unreadable.state, "expired");
}
