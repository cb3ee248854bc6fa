//! What the meeting agent reports about itself, and the checks its commands
//! make before they act.
use vstd::prelude::*;
use crate::text::{copy_opt_string, copy_string, copy_strings, opt_chars, str_eq, strings_view};

verus! {

pub const LOCAL_OWNER_LOCKED: &'static str = "LOCAL_OWNER_LOCKED";
pub const TRANSCRIPT_UNAVAILABLE: &'static str = "TRANSCRIPT_UNAVAILABLE";
pub const KNOWLEDGE_SELECTION_REQUIRED: &'static str = "KNOWLEDGE_SELECTION_REQUIRED";
pub const KNOWLEDGE_READ_UNAVAILABLE: &'static str = "KNOWLEDGE_READ_UNAVAILABLE";
pub const RESTART_REQUIRES_REENABLE: &'static str = "RESTART_REQUIRES_REENABLE";
pub const MEETING_AGENT_GRANT_EXPIRED: &'static str = "MEETING_AGENT_GRANT_EXPIRED";

/// Whether the meeting agent is ready, and why not when it is not.
#[derive(Debug)]
pub struct MeetingAgentCapability {
    pub readiness: String,
    pub reason_code: Option<String>,
}

pub struct CapabilityView {
    pub readiness: Seq<char>,
    pub reason_code: Option<Seq<char>>,
}

impl View for MeetingAgentCapability {
    type V = CapabilityView;

    open spec fn view(&self) -> CapabilityView {
        CapabilityView { readiness: self.readiness@, reason_code: opt_chars(self.reason_code) }
    }
}

/// `ready`, or `blocked` with its reason.
pub open spec fn capability_spec(ready: bool, reason: Seq<char>) -> CapabilityView {
    if ready {
        CapabilityView { readiness: "ready"@, reason_code: None }
    } else {
        CapabilityView { readiness: "blocked"@, reason_code: Some(reason) }
    }
}

/// What a capability that needs an external provider reports: none is
/// configured.
pub open spec fn unavailable_spec() -> CapabilityView {
    CapabilityView { readiness: "unavailable"@, reason_code: Some("PROVIDER_UNCONFIGURED"@) }
}

/// `ready` or `blocked`; a reason is carried only while blocked.
pub fn meeting_agent_capability(ready: bool, reason: Option<&str>) -> (res: MeetingAgentCapability)
    ensures
        res@.readiness == (if ready {
            "ready"@
        } else {
            "blocked"@
        }),
        res@.reason_code == (if ready {
            None
        } else {
            match reason {
                Some(r) => Some(r@),
                None => None,
            }
        }),
{
    MeetingAgentCapability {
        readiness: copy_string(
            if ready {
                "ready"
            } else {
                "blocked"
            },
        ),
        reason_code: if ready {
            None
        } else {
            match reason {
                Some(r) => Some(copy_string(r)),
                None => None,
            }
        },
    }
}

fn unavailable_capability() -> (res: MeetingAgentCapability)
    ensures
        res@ == unavailable_spec(),
{
    MeetingAgentCapability {
        readiness: copy_string("unavailable"),
        reason_code: Some(copy_string("PROVIDER_UNCONFIGURED")),
    }
}

// ---------------------------------------------------------------------------
// Status
// ---------------------------------------------------------------------------

/// The stored grant of a meeting's agent, as read. A field is `None` where
/// the row does not hold it in the expected form.
#[derive(Debug)]
pub struct GrantRow {
    pub expected_revision: Option<u64>,
    pub mode: Option<String>,
    pub state: Option<String>,
    pub expires_at: Option<String>,
    pub allowed_topics: Option<Vec<String>>,
}

/// A knowledge collection offered to a meeting.
#[derive(Debug)]
pub struct KnowledgeCollection {
    pub collection_id: String,
    pub selected: bool,
    pub readable: bool,
}

/// What this process holds of a meeting's agent since it was enabled.
#[derive(Debug)]
pub struct AgentSession {
    pub enabled_this_process: bool,
    pub mode: String,
    pub state: String,
    pub revision: u64,
    pub expires_at: Option<String>,
    pub allowed_topics: Vec<String>,
    /// The run drafting now, if any.
    pub active_run_id: Option<String>,
    /// When the runs of the last hour started, in milliseconds of a clock
    /// that does not go back.
    pub run_times_ms: Vec<u64>,
    /// The private drafts made in this session.
    pub drafts: Vec<PrivateDraft>,
    /// The deliveries previewed in this session.
    pub deliveries: Vec<RuntimeDelivery>,
}

/// A draft answer kept private to the meeting's owner.
#[derive(Debug)]
pub struct PrivateDraft {
    pub draft_id: String,
    pub revision: u64,
    pub text: String,
    pub citations: Vec<MeetingAgentCitation>,
    pub based_on_transcript_cursor: i64,
    pub expires_at: String,
    pub state: String,
}

/// What the owner is shown before a draft is delivered.
#[derive(Debug)]
pub struct DeliveryPreview {
    pub intent_id: String,
    pub payload_hash: String,
    pub state: String,
}

/// A previewed delivery, with the draft it carries and when, on a clock
/// that does not go back, its approval window closes.
#[derive(Debug)]
pub struct RuntimeDelivery {
    pub preview: DeliveryPreview,
    pub draft_id: String,
    pub draft_revision: u64,
    pub expires_at_ms: u64,
}

/// Everything the interface is told about a meeting's agent.
#[derive(Debug)]
pub struct MeetingAgentStatus {
    pub project_id: String,
    pub recording_id: String,
    pub revision: u64,
    pub mode: String,
    pub state: String,
    pub expires_at: Option<String>,
    pub blockers: Vec<String>,
    pub allowed_topics: Vec<String>,
    pub local_agent: MeetingAgentCapability,
    pub transcript_read: MeetingAgentCapability,
    pub knowledge_read: MeetingAgentCapability,
    pub external_join: MeetingAgentCapability,
    pub external_media_read: MeetingAgentCapability,
    pub external_chat_send: MeetingAgentCapability,
    pub external_link_send: MeetingAgentCapability,
    pub external_file_upload: MeetingAgentCapability,
}

pub struct StatusView {
    pub project_id: Seq<char>,
    pub recording_id: Seq<char>,
    pub revision: u64,
    pub mode: Seq<char>,
    pub state: Seq<char>,
    pub expires_at: Option<Seq<char>>,
    pub blockers: Seq<Seq<char>>,
    pub allowed_topics: Seq<Seq<char>>,
    pub local_agent: CapabilityView,
    pub transcript_read: CapabilityView,
    pub knowledge_read: CapabilityView,
    pub external_join: CapabilityView,
    pub external_media_read: CapabilityView,
    pub external_chat_send: CapabilityView,
    pub external_link_send: CapabilityView,
    pub external_file_upload: CapabilityView,
}

impl View for MeetingAgentStatus {
    type V = StatusView;

    open spec fn view(&self) -> StatusView {
        StatusView {
            project_id: self.project_id@,
            recording_id: self.recording_id@,
            revision: self.revision,
            mode: self.mode@,
            state: self.state@,
            expires_at: opt_chars(self.expires_at),
            blockers: strings_view(self.blockers@),
            allowed_topics: strings_view(self.allowed_topics@),
            local_agent: self.local_agent@,
            transcript_read: self.transcript_read@,
            knowledge_read: self.knowledge_read@,
            external_join: self.external_join@,
            external_media_read: self.external_media_read@,
            external_chat_send: self.external_chat_send@,
            external_link_send: self.external_link_send@,
            external_file_upload: self.external_file_upload@,
        }
    }
}

/// A listed collection with this id can be read.
pub open spec fn listed_readable(items: Seq<KnowledgeCollection>, id: Seq<char>) -> bool {
    exists|i: int| 0 <= i < items.len() && #[trigger] items[i].collection_id@ == id && items[i].readable
}

/// Some collection that is both selected for the meeting and readable is
/// among `selected`.
pub open spec fn some_selected_readable(items: Seq<KnowledgeCollection>, selected: Seq<Seq<char>>) -> bool {
    exists|i: int|
        0 <= i < items.len() && #[trigger] items[i].selected && items[i].readable && selected.contains(
            items[i].collection_id@,
        )
}

/// The meeting's selected knowledge can be read: something is selected, and
/// every selected collection is listed readable.
pub open spec fn readable_selection(
    selected: Seq<Seq<char>>,
    collections: Option<Vec<KnowledgeCollection>>,
) -> bool {
    selected.len() > 0 && match collections {
        Some(items) => some_selected_readable(items@, selected) && forall|j: int|
            0 <= j < selected.len() ==> listed_readable(items@, #[trigger] selected[j]),
        None => false,
    }
}

/// Why the knowledge capability is blocked.
pub open spec fn knowledge_reason(nothing_selected: bool) -> Seq<char> {
    if nothing_selected {
        KNOWLEDGE_SELECTION_REQUIRED@
    } else {
        KNOWLEDGE_READ_UNAVAILABLE@
    }
}

/// `s` with every occurrence of `x` taken out, the rest in order.
pub open spec fn without(s: Seq<Seq<char>>, x: Seq<char>) -> Seq<Seq<char>>
    decreases s.len(),
{
    if s.len() == 0 {
        s
    } else if s.last() == x {
        without(s.drop_last(), x)
    } else {
        without(s.drop_last(), x).push(s.last())
    }
}

/// The blockers that do not depend on the grant, in this order: the local
/// owner, the transcript, the knowledge.
pub open spec fn base_blockers(
    owner_ready: bool,
    transcript_ready: bool,
    readable: bool,
    nothing_selected: bool,
) -> Seq<Seq<char>> {
    let a = if owner_ready {
        Seq::<Seq<char>>::empty()
    } else {
        seq![LOCAL_OWNER_LOCKED@]
    };
    let b = if transcript_ready {
        a
    } else {
        a.push(TRANSCRIPT_UNAVAILABLE@)
    };
    if readable {
        b
    } else {
        b.push(knowledge_reason(nothing_selected))
    }
}

pub open spec fn grant_revision(grant: Option<GrantRow>) -> u64 {
    match grant {
        Some(g) => match g.expected_revision {
            Some(r) => r,
            None => 0,
        },
        None => 0,
    }
}

pub open spec fn grant_mode(grant: Option<GrantRow>) -> Seq<char> {
    match grant {
        Some(g) => match opt_chars(g.mode) {
            Some(m) => m,
            None => "off"@,
        },
        None => "off"@,
    }
}

/// A grant left `active` by an earlier process reads as `paused`: it has to
/// be enabled again.
pub open spec fn grant_state(grant: Option<GrantRow>) -> Seq<char> {
    match grant {
        Some(g) => match opt_chars(g.state) {
            Some(s) => if s == "active"@ || s == "paused"@ {
                "paused"@
            } else if s == "revoked"@ {
                "blocked"@
            } else {
                "stopped"@
            },
            None => "stopped"@,
        },
        None => "stopped"@,
    }
}

pub open spec fn grant_left_active(grant: Option<GrantRow>) -> bool {
    match grant {
        Some(g) => opt_chars(g.state) == Some("active"@),
        None => false,
    }
}

pub open spec fn grant_expiry(grant: Option<GrantRow>) -> Option<Seq<char>> {
    match grant {
        Some(g) => opt_chars(g.expires_at),
        None => None,
    }
}

pub open spec fn grant_topics(grant: Option<GrantRow>) -> Seq<Seq<char>> {
    match grant {
        Some(g) => match g.allowed_topics {
            Some(t) => strings_view(t@),
            None => Seq::empty(),
        },
        None => Seq::empty(),
    }
}

pub open spec fn session_enabled(session: Option<AgentSession>) -> bool {
    match session {
        Some(s) => s.enabled_this_process,
        None => false,
    }
}

/// The status before the grant's expiry is judged. A session enabled in this
/// process speaks for mode, state, expiry and topics, and its revision counts
/// when it is the later one; otherwise the stored grant does.
pub open spec fn settled_status(
    project_id: Seq<char>,
    recording_id: Seq<char>,
    owner_ready: bool,
    transcript_ready: bool,
    grant: Option<GrantRow>,
    selected: Seq<Seq<char>>,
    collections: Option<Vec<KnowledgeCollection>>,
    session: Option<AgentSession>,
) -> StatusView {
    let readable = readable_selection(selected, collections);
    let nothing_selected = selected.len() == 0;
    let base = base_blockers(owner_ready, transcript_ready, readable, nothing_selected);
    let with_grant = if grant_left_active(grant) {
        base.push(RESTART_REQUIRES_REENABLE@)
    } else {
        base
    };
    let persisted = grant_revision(grant);
    let enabled = session_enabled(session);
    let s = session.unwrap();
    StatusView {
        project_id,
        recording_id,
        revision: if enabled {
            if s.revision > persisted {
                s.revision
            } else {
                persisted
            }
        } else {
            persisted
        },
        mode: if enabled {
            s.mode@
        } else {
            grant_mode(grant)
        },
        state: if enabled {
            s.state@
        } else {
            grant_state(grant)
        },
        expires_at: if enabled {
            opt_chars(s.expires_at)
        } else {
            grant_expiry(grant)
        },
        blockers: if enabled {
            without(with_grant, RESTART_REQUIRES_REENABLE@)
        } else {
            with_grant
        },
        allowed_topics: if enabled {
            strings_view(s.allowed_topics@)
        } else {
            grant_topics(grant)
        },
        local_agent: capability_spec(owner_ready, LOCAL_OWNER_LOCKED@),
        transcript_read: capability_spec(transcript_ready, TRANSCRIPT_UNAVAILABLE@),
        knowledge_read: capability_spec(readable, knowledge_reason(nothing_selected)),
        external_join: unavailable_spec(),
        external_media_read: unavailable_spec(),
        external_chat_send: unavailable_spec(),
        external_link_send: unavailable_spec(),
        external_file_upload: unavailable_spec(),
    }
}

/// A status whose grant has run out: off, `expired`, and blocked by that.
pub open spec fn expired_status(v: StatusView) -> StatusView {
    StatusView {
        mode: "off"@,
        state: "expired"@,
        blockers: without(v.blockers, RESTART_REQUIRES_REENABLE@).push(MEETING_AGENT_GRANT_EXPIRED@),
        ..v
    }
}

/// The blocker codes are all different texts.
proof fn lemma_blocker_codes_differ()
    ensures
        LOCAL_OWNER_LOCKED@ != RESTART_REQUIRES_REENABLE@,
        TRANSCRIPT_UNAVAILABLE@ != RESTART_REQUIRES_REENABLE@,
        KNOWLEDGE_SELECTION_REQUIRED@ != RESTART_REQUIRES_REENABLE@,
        KNOWLEDGE_READ_UNAVAILABLE@ != RESTART_REQUIRES_REENABLE@,
        MEETING_AGENT_GRANT_EXPIRED@ != RESTART_REQUIRES_REENABLE@,
{
    reveal_strlit("LOCAL_OWNER_LOCKED");
    reveal_strlit("TRANSCRIPT_UNAVAILABLE");
    reveal_strlit("KNOWLEDGE_SELECTION_REQUIRED");
    reveal_strlit("KNOWLEDGE_READ_UNAVAILABLE");
    reveal_strlit("RESTART_REQUIRES_REENABLE");
    reveal_strlit("MEETING_AGENT_GRANT_EXPIRED");
    assert(LOCAL_OWNER_LOCKED@.len() == 18);
    assert(TRANSCRIPT_UNAVAILABLE@.len() == 22);
    assert(KNOWLEDGE_SELECTION_REQUIRED@.len() == 28);
    assert(KNOWLEDGE_READ_UNAVAILABLE@.len() == 26);
    assert(RESTART_REQUIRES_REENABLE@.len() == 25);
    assert(MEETING_AGENT_GRANT_EXPIRED@.len() == 27);
}

proof fn lemma_without_drops(s: Seq<Seq<char>>, x: Seq<char>)
    ensures
        !without(s, x).contains(x),
        without(s, x).len() <= s.len(),
    decreases s.len(),
{
    if s.len() > 0 {
        lemma_without_drops(s.drop_last(), x);
        let r = without(s.drop_last(), x);
        if s.last() != x {
            assert forall|k: int| 0 <= k < r.push(s.last()).len() implies r.push(s.last())[k] != x by {
                if k < r.len() {
                    assert(r.push(s.last())[k] == r[k]);
                }
            }
        }
    }
}

/// A session enabled in this process never asks to be enabled again, and
/// an expired grant never does either: the expiry is its last blocker.
pub proof fn law_restart_is_asked_only_of_a_session_not_enabled(
    project_id: Seq<char>,
    recording_id: Seq<char>,
    owner_ready: bool,
    transcript_ready: bool,
    grant: Option<GrantRow>,
    selected: Seq<Seq<char>>,
    collections: Option<Vec<KnowledgeCollection>>,
    session: Option<AgentSession>,
)
    ensures
        ({
            let settled = settled_status(
                project_id,
                recording_id,
                owner_ready,
                transcript_ready,
                grant,
                selected,
                collections,
                session,
            );
            let expired = expired_status(settled);
            &&& session_enabled(session) ==> !settled.blockers.contains(RESTART_REQUIRES_REENABLE@)
            &&& !expired.blockers.contains(RESTART_REQUIRES_REENABLE@)
            &&& expired.blockers.last() == MEETING_AGENT_GRANT_EXPIRED@
            &&& expired.mode == "off"@ && expired.state == "expired"@
        }),
{
    let settled = settled_status(
        project_id,
        recording_id,
        owner_ready,
        transcript_ready,
        grant,
        selected,
        collections,
        session,
    );
    let readable = readable_selection(selected, collections);
    let base = base_blockers(owner_ready, transcript_ready, readable, selected.len() == 0);
    let with_grant = if grant_left_active(grant) {
        base.push(RESTART_REQUIRES_REENABLE@)
    } else {
        base
    };
    lemma_without_drops(with_grant, RESTART_REQUIRES_REENABLE@);
    let w = without(settled.blockers, RESTART_REQUIRES_REENABLE@);
    lemma_without_drops(settled.blockers, RESTART_REQUIRES_REENABLE@);
    let e = w.push(MEETING_AGENT_GRANT_EXPIRED@);
    lemma_blocker_codes_differ();
    assert forall|k: int| 0 <= k < e.len() implies e[k] != RESTART_REQUIRES_REENABLE@ by {
        if k < w.len() {
            assert(e[k] == w[k]);
            assert(!w.contains(RESTART_REQUIRES_REENABLE@));
            if w[k] == RESTART_REQUIRES_REENABLE@ {
                assert(w.contains(RESTART_REQUIRES_REENABLE@));
            }
        }
    }
}

/// A status with no blockers has its owner, transcript and knowledge all
/// ready, which is what a delivery preview relies on.
pub proof fn law_no_blockers_means_ready(
    project_id: Seq<char>,
    recording_id: Seq<char>,
    owner_ready: bool,
    transcript_ready: bool,
    grant: Option<GrantRow>,
    selected: Seq<Seq<char>>,
    collections: Option<Vec<KnowledgeCollection>>,
    session: Option<AgentSession>,
)
    ensures
        ({
            let settled = settled_status(
                project_id,
                recording_id,
                owner_ready,
                transcript_ready,
                grant,
                selected,
                collections,
                session,
            );
            settled.blockers.len() == 0 ==> all_ready(settled)
        }),
{
    let readable = readable_selection(selected, collections);
    let base = base_blockers(owner_ready, transcript_ready, readable, selected.len() == 0);
    let with_grant = if grant_left_active(grant) {
        base.push(RESTART_REQUIRES_REENABLE@)
    } else {
        base
    };
    lemma_without_keeps_others(with_grant, RESTART_REQUIRES_REENABLE@);
    lemma_blocker_codes_differ();
    if !owner_ready || !transcript_ready || !readable {
        assert(base.len() > 0);
        assert(with_grant[0] == base[0]);
        assert(with_grant.contains(base[0]));
        assert(base[0] != RESTART_REQUIRES_REENABLE@);
        assert(without(with_grant, RESTART_REQUIRES_REENABLE@).contains(base[0]));
    }
}

proof fn lemma_without_keeps_others(s: Seq<Seq<char>>, x: Seq<char>)
    ensures
        forall|y: Seq<char>| y != x && s.contains(y) ==> #[trigger] without(s, x).contains(y),
    decreases s.len(),
{
    if s.len() > 0 {
        lemma_without_keeps_others(s.drop_last(), x);
        let r = without(s.drop_last(), x);
        assert forall|y: Seq<char>| y != x && s.contains(y) implies #[trigger] without(s, x).contains(y) by {
            let k = choose|k: int| 0 <= k < s.len() && s[k] == y;
            if k < s.len() - 1 {
                assert(s.drop_last()[k] == y);
                assert(r.contains(y));
                let j = choose|j: int| 0 <= j < r.len() && r[j] == y;
                if s.last() != x {
                    assert(r.push(s.last())[j] == y);
                }
            } else {
                assert(r.push(s.last())[r.len() as int] == y);
            }
        }
    }
}

fn contains_text(v: &Vec<String>, s: &str) -> (res: bool)
    ensures
        res == strings_view(v@).contains(s@),
{
    let mut i: usize = 0;
    while i < v.len()
        invariant
            i <= v.len(),
            forall|k: int| 0 <= k < i ==> strings_view(v@)[k] != s@,
        decreases v.len() - i,
    {
        if str_eq(v[i].as_str(), s) {
            assert(strings_view(v@)[i as int] == s@);
            return true;
        }
        i += 1;
    }
    false
}

fn listed_readable_exec(items: &Vec<KnowledgeCollection>, id: &str) -> (res: bool)
    ensures
        res == listed_readable(items@, id@),
{
    let mut i: usize = 0;
    while i < items.len()
        invariant
            i <= items.len(),
            forall|k: int|
                0 <= k < i ==> !(#[trigger] items@[k].collection_id@ == id@ && items@[k].readable),
        decreases items.len() - i,
    {
        if items[i].readable && str_eq(items[i].collection_id.as_str(), id) {
            return true;
        }
        i += 1;
    }
    false
}

fn readable_selection_exec(
    selected: &Vec<String>,
    collections: &Option<Vec<KnowledgeCollection>>,
) -> (res: bool)
    ensures
        res == readable_selection(strings_view(selected@), *collections),
{
    if selected.len() == 0 {
        return false;
    }
    let items = match collections {
        Some(items) => items,
        None => {
            return false;
        },
    };
    let ghost sel = strings_view(selected@);
    let mut found = false;
    let mut i: usize = 0;
    while i < items.len()
        invariant
            i <= items.len(),
            sel == strings_view(selected@),
            found == exists|k: int|
                0 <= k < i && #[trigger] items@[k].selected && items@[k].readable && sel.contains(
                    items@[k].collection_id@,
                ),
        decreases items.len() - i,
    {
        if items[i].selected && items[i].readable && contains_text(
            selected,
            items[i].collection_id.as_str(),
        ) {
            found = true;
        }
        i += 1;
    }
    if !found {
        return false;
    }
    let mut j: usize = 0;
    while j < selected.len()
        invariant
            j <= selected.len(),
            sel == strings_view(selected@),
            match *collections {
                Some(c) => c@ == items@,
                None => false,
            },
            forall|k: int| 0 <= k < j ==> listed_readable(items@, #[trigger] sel[k]),
        decreases selected.len() - j,
    {
        if !listed_readable_exec(items, selected[j].as_str()) {
            assert(!listed_readable(items@, sel[j as int]));
            return false;
        }
        j += 1;
    }
    true
}

/// `v` with every `x` taken out.
fn without_exec(v: &Vec<String>, x: &str) -> (out: Vec<String>)
    ensures
        strings_view(out@) == without(strings_view(v@), x@),
{
    let mut out: Vec<String> = Vec::new();
    let mut i: usize = 0;
    while i < v.len()
        invariant
            i <= v.len(),
            strings_view(out@) == without(strings_view(v@.take(i as int)), x@),
        decreases v.len() - i,
    {
        let ghost before = out@;
        let ghost prefix = strings_view(v@.take(i as int));
        assert(v@.take(i + 1) =~= v@.take(i as int).push(v@[i as int]));
        assert(strings_view(v@.take(i + 1)) =~= prefix.push(v@[i as int]@));
        assert(prefix.push(v@[i as int]@).drop_last() =~= prefix);
        if !str_eq(v[i].as_str(), x) {
            out.push(v[i].clone());
            assert(strings_view(out@) =~= strings_view(before).push(v@[i as int]@));
        }
        i += 1;
    }
    assert(v@.take(v.len() as int) =~= v@);
    out
}

fn push_str_vec(v: &mut Vec<String>, s: &str)
    ensures
        strings_view(final(v)@) == strings_view(old(v)@).push(s@),
{
    let ghost before = v@;
    v.push(copy_string(s));
    assert(strings_view(v@) =~= strings_view(before).push(s@));
}

/// The agent's status before its grant's expiry is judged: blockers,
/// capabilities, and whether this process's session or the stored grant
/// speaks for it.
pub fn settle_agent_status(
    project_id: &str,
    recording_id: &str,
    owner_ready: bool,
    transcript_ready: bool,
    grant: &Option<GrantRow>,
    selected: &Vec<String>,
    collections: &Option<Vec<KnowledgeCollection>>,
    session: &Option<AgentSession>,
) -> (res: MeetingAgentStatus)
    ensures
        res@ == settled_status(
            project_id@,
            recording_id@,
            owner_ready,
            transcript_ready,
            *grant,
            strings_view(selected@),
            *collections,
            *session,
        ),
{
    let readable = readable_selection_exec(selected, collections);
    let nothing_selected = selected.len() == 0;
    let knowledge = if nothing_selected {
        KNOWLEDGE_SELECTION_REQUIRED
    } else {
        KNOWLEDGE_READ_UNAVAILABLE
    };
    let mut blockers: Vec<String> = Vec::new();
    if !owner_ready {
        push_str_vec(&mut blockers, LOCAL_OWNER_LOCKED);
    }
    if !transcript_ready {
        push_str_vec(&mut blockers, TRANSCRIPT_UNAVAILABLE);
    }
    if !readable {
        push_str_vec(&mut blockers, knowledge);
    }
    assert(strings_view(blockers@) =~= base_blockers(
        owner_ready,
        transcript_ready,
        readable,
        nothing_selected,
    ));
    let mut persisted: u64 = 0;
    let mut mode = copy_string("off");
    let mut state = copy_string("stopped");
    let mut expires_at: Option<String> = None;
    let mut topics: Vec<String> = Vec::new();
    if let Some(g) = grant {
        if let Some(r) = g.expected_revision {
            persisted = r;
        }
        if let Some(m) = &g.mode {
            mode = m.clone();
        }
        expires_at = copy_opt_string(&g.expires_at);
        if let Some(t) = &g.allowed_topics {
            topics = copy_strings(t);
        }
        if let Some(s) = &g.state {
            if str_eq(s.as_str(), "active") {
                state = copy_string("paused");
                push_str_vec(&mut blockers, RESTART_REQUIRES_REENABLE);
            } else if str_eq(s.as_str(), "paused") {
                state = copy_string("paused");
            } else if str_eq(s.as_str(), "revoked") {
                state = copy_string("blocked");
            }
        }
    }
    assert(topics@.len() == 0 ==> strings_view(topics@) =~= Seq::<Seq<char>>::empty());
    let mut revision = persisted;
    match session {
        Some(s) => {
            if s.enabled_this_process {
                mode = s.mode.clone();
                state = s.state.clone();
                if s.revision > persisted {
                    revision = s.revision;
                }
                expires_at = copy_opt_string(&s.expires_at);
                topics = copy_strings(&s.allowed_topics);
                blockers = without_exec(&blockers, RESTART_REQUIRES_REENABLE);
            }
        },
        None => {},
    }
    MeetingAgentStatus {
        project_id: copy_string(project_id),
        recording_id: copy_string(recording_id),
        revision,
        mode,
        state,
        expires_at,
        blockers,
        allowed_topics: topics,
        local_agent: meeting_agent_capability(owner_ready, Some(LOCAL_OWNER_LOCKED)),
        transcript_read: meeting_agent_capability(transcript_ready, Some(TRANSCRIPT_UNAVAILABLE)),
        knowledge_read: meeting_agent_capability(readable, Some(knowledge)),
        external_join: unavailable_capability(),
        external_media_read: unavailable_capability(),
        external_chat_send: unavailable_capability(),
        external_link_send: unavailable_capability(),
        external_file_upload: unavailable_capability(),
    }
}

/// Marks a status whose grant has run out: mode `off`, state `expired`,
/// the restart blocker replaced by the expiry.
pub fn expire_agent_status(status: MeetingAgentStatus) -> (res: MeetingAgentStatus)
    ensures
        res@ == expired_status(status@),
{
    let mut blockers = without_exec(&status.blockers, RESTART_REQUIRES_REENABLE);
    push_str_vec(&mut blockers, MEETING_AGENT_GRANT_EXPIRED);
    MeetingAgentStatus {
        mode: copy_string("off"),
        state: copy_string("expired"),
        blockers,
        ..status
    }
}

/// The instant chrono reads from RFC 3339 text
/// (`chrono::DateTime::parse_from_rfc3339`): seconds since the Unix epoch in
/// UTC and the nanoseconds past them; none when the text does not parse.
pub uninterp spec fn rfc3339_instant(text: Seq<char>) -> Option<(i64, u32)>;

/// Reads RFC 3339 text with `chrono::DateTime::parse_from_rfc3339`, as its
/// UTC timestamp (`timestamp`, `timestamp_subsec_nanos`). What parses is
/// named by the text alone.
#[verifier::external_body]
fn parse_rfc3339_instant(text: &str) -> (r: Option<(i64, u32)>)
    ensures
        r == rfc3339_instant(text@),
{
    match chrono::DateTime::parse_from_rfc3339(text) {
        Ok(t) => Some((t.timestamp(), t.timestamp_subsec_nanos())),
        Err(_) => None,
    }
}

/// The clock now (`chrono::Utc::now`), as seconds since the Unix epoch and
/// the nanoseconds past them. It depends on the clock, so nothing is
/// promised of it.
#[verifier::external_body]
fn clock_instant() -> (i64, u32) {
    let now = chrono::Utc::now();
    (now.timestamp(), now.timestamp_subsec_nanos())
}

/// An expiry has passed at `now` when it is not after `now`; an expiry that
/// could not be read counts as passed.
pub open spec fn expiry_passed_spec(parsed: Option<(i64, u32)>, now: (i64, u32)) -> bool {
    match parsed {
        None => true,
        Some(p) => p.0 < now.0 || (p.0 == now.0 && p.1 <= now.1),
    }
}

/// The expiry text `text` has passed at `now`.
pub open spec fn passed_at(text: Seq<char>, now: (i64, u32)) -> bool {
    expiry_passed_spec(rfc3339_instant(text), now)
}

/// An optional expiry has passed at `now`; none never passes.
pub open spec fn opt_passed_at(text: Option<Seq<char>>, now: (i64, u32)) -> bool {
    match text {
        Some(e) => passed_at(e, now),
        None => false,
    }
}

/// An expiry that cannot be read has passed, whatever the clock says; one
/// that can be read has passed exactly when it is not after the clock.
pub proof fn law_an_unreadable_expiry_has_passed(text: Seq<char>, now: (i64, u32))
    ensures
        rfc3339_instant(text) is None ==> passed_at(text, now),
        rfc3339_instant(text) matches Some(p) ==> (passed_at(text, now) <==> !(p.0 > now.0 || (p.0
            == now.0 && p.1 > now.1))),
{
}

/// Whether an expiry read as `parsed` has passed at `now`.
pub fn expiry_passed_at(parsed: Option<(i64, u32)>, now: (i64, u32)) -> (res: bool)
    ensures
        res == expiry_passed_spec(parsed, now),
{
    match parsed {
        None => true,
        Some(p) => p.0 < now.0 || (p.0 == now.0 && p.1 <= now.1),
    }
}

/// Whether the expiry text `expiry` has passed at `now`.
pub fn expiry_passed(expiry: &str, now: (i64, u32)) -> (res: bool)
    ensures
        res == passed_at(expiry@, now),
{
    expiry_passed_at(parse_rfc3339_instant(expiry), now)
}

fn opt_expiry_passed(expiry: &Option<String>, now: (i64, u32)) -> (res: bool)
    ensures
        res == opt_passed_at(opt_chars(*expiry), now),
{
    match expiry {
        Some(e) => expiry_passed(e.as_str(), now),
        None => false,
    }
}

/// The agent's status at clock reading `now`: the settled status, marked
/// expired when its expiry is unreadable or not after `now`.
pub fn meeting_agent_status_at(
    project_id: &str,
    recording_id: &str,
    owner_ready: bool,
    transcript_ready: bool,
    grant: &Option<GrantRow>,
    selected: &Vec<String>,
    collections: &Option<Vec<KnowledgeCollection>>,
    session: &Option<AgentSession>,
    now: (i64, u32),
) -> (res: MeetingAgentStatus)
    ensures
        ({
            let settled = settled_status(
                project_id@,
                recording_id@,
                owner_ready,
                transcript_ready,
                *grant,
                strings_view(selected@),
                *collections,
                *session,
            );
            res@ == if opt_passed_at(settled.expires_at, now) {
                expired_status(settled)
            } else {
                settled
            }
        }),
{
    let status = settle_agent_status(
        project_id,
        recording_id,
        owner_ready,
        transcript_ready,
        grant,
        selected,
        collections,
        session,
    );
    if opt_expiry_passed(&status.expires_at, now) {
        expire_agent_status(status)
    } else {
        status
    }
}

/// The agent's status: the settled status, marked expired when its expiry
/// has passed by the clock.
pub fn meeting_agent_status_snapshot(
    project_id: &str,
    recording_id: &str,
    owner_ready: bool,
    transcript_ready: bool,
    grant: &Option<GrantRow>,
    selected: &Vec<String>,
    collections: &Option<Vec<KnowledgeCollection>>,
    session: &Option<AgentSession>,
) -> (res: MeetingAgentStatus)
    ensures
        ({
            let settled = settled_status(
                project_id@,
                recording_id@,
                owner_ready,
                transcript_ready,
                *grant,
                strings_view(selected@),
                *collections,
                *session,
            );
            exists|now: (i64, u32)|
                res@ == if #[trigger] opt_passed_at(settled.expires_at, now) {
                    expired_status(settled)
                } else {
                    settled
                }
        }),
{
    let now = clock_instant();
    let res = meeting_agent_status_at(
        project_id,
        recording_id,
        owner_ready,
        transcript_ready,
        grant,
        selected,
        collections,
        session,
        now,
    );
    let ghost settled = settled_status(
        project_id@,
        recording_id@,
        owner_ready,
        transcript_ready,
        *grant,
        strings_view(selected@),
        *collections,
        *session,
    );
    assert(res@ == if opt_passed_at(settled.expires_at, now) {
        expired_status(settled)
    } else {
        settled
    });
    res
}

// ---------------------------------------------------------------------------
// Refusals
// ---------------------------------------------------------------------------

/// Why a meeting agent command did not act, with its code.
#[derive(Debug)]
pub enum AgentError {
    /// The agent's state, its grant or its runtime does not allow it.
    Refused(&'static str),
    /// The request itself is not acceptable.
    InvalidInput(&'static str),
}

pub enum AgentErrorView {
    Refused(Seq<char>),
    InvalidInput(Seq<char>),
}

impl View for AgentError {
    type V = AgentErrorView;

    open spec fn view(&self) -> AgentErrorView {
        match self {
            AgentError::Refused(c) => AgentErrorView::Refused(c@),
            AgentError::InvalidInput(c) => AgentErrorView::InvalidInput(c@),
        }
    }
}

/// A check's outcome: `Ok` where nothing refuses, else the refusal.
pub open spec fn outcome_is(res: Result<(), AgentError>, refusal: Option<AgentErrorView>) -> bool {
    match refusal {
        Some(e) => match res {
            Err(x) => x@ == e,
            Ok(_) => false,
        },
        None => res is Ok,
    }
}

pub const STALE_MEETING_AGENT_REVISION: &'static str = "STALE_MEETING_AGENT_REVISION";
pub const MEETING_AGENT_DRAFT_NOT_AUTHORIZED: &'static str = "MEETING_AGENT_DRAFT_NOT_AUTHORIZED";
pub const MEETING_AGENT_ASK_INVALID: &'static str = "MEETING_AGENT_ASK_INVALID";
pub const MEETING_AGENT_RESTART_REQUIRES_REENABLE: &'static str = "MEETING_AGENT_RESTART_REQUIRES_REENABLE";
pub const MEETING_AGENT_RUN_ALREADY_ACTIVE: &'static str = "MEETING_AGENT_RUN_ALREADY_ACTIVE";
pub const MEETING_AGENT_LOCAL_RATE_LIMIT: &'static str = "MEETING_AGENT_LOCAL_RATE_LIMIT";
pub const MEETING_AGENT_RUN_CANCELLED: &'static str = "MEETING_AGENT_RUN_CANCELLED";
pub const MEETING_AGENT_DRAFT_SIZE_INVALID: &'static str = "MEETING_AGENT_DRAFT_SIZE_INVALID";
pub const MEETING_TRANSCRIPT_CURSOR_STALE: &'static str = "MEETING_TRANSCRIPT_CURSOR_STALE";

/// The longest question the agent is asked, in characters.
pub const MAX_QUESTION_CHARS: usize = 2000;

// ---------------------------------------------------------------------------
// Asking
// ---------------------------------------------------------------------------

/// A question put to the agent about a meeting, against the knowledge
/// collections selected for it.
#[derive(Debug)]
pub struct AskRequest {
    pub project_id: String,
    pub recording_id: String,
    pub request_id: String,
    pub expected_revision: u64,
    pub question: String,
    pub transcript_cursor: i64,
    pub collection_ids: Vec<String>,
}

/// The agent may draft: it is in draft mode, drafting or observing, and its
/// owner, transcript and knowledge are all ready.
pub open spec fn may_draft(s: StatusView) -> bool {
    &&& s.mode == "draft"@
    &&& s.state == "drafting"@ || s.state == "observing"@
    &&& s.local_agent.readiness == "ready"@
    &&& s.transcript_read.readiness == "ready"@
    &&& s.knowledge_read.readiness == "ready"@
}

/// A question the agent can take: it has text once trimmed, is at most
/// `MAX_QUESTION_CHARS` long, points at a transcript position, and names
/// exactly the selected collections, each once.
pub open spec fn ask_acceptable(
    question: Seq<char>,
    cursor: i64,
    ids: Seq<Seq<char>>,
    selected: Seq<Seq<char>>,
) -> bool {
    &&& crate::text::trim_spec(question).len() > 0
    &&& question.len() <= MAX_QUESTION_CHARS
    &&& cursor >= 0
    &&& selected.len() > 0
    &&& ids.len() == selected.len()
    &&& ids.no_duplicates()
    &&& selected.to_set() == ids.to_set()
}

/// What refuses a question, checked in this order; `grant_passed` is whether
/// the grant's expiry has passed.
pub open spec fn ask_refusal(
    request: AskRequest,
    before: StatusView,
    selected: Seq<Seq<char>>,
    grant_passed: bool,
) -> Option<AgentErrorView> {
    if request.expected_revision != before.revision {
        Some(AgentErrorView::Refused(STALE_MEETING_AGENT_REVISION@))
    } else if !may_draft(before) {
        Some(AgentErrorView::Refused(MEETING_AGENT_DRAFT_NOT_AUTHORIZED@))
    } else if !ask_acceptable(
        request.question@,
        request.transcript_cursor,
        strings_view(request.collection_ids@),
        selected,
    ) {
        Some(AgentErrorView::InvalidInput(MEETING_AGENT_ASK_INVALID@))
    } else if before.expires_at is Some && grant_passed {
        Some(AgentErrorView::Refused(MEETING_AGENT_GRANT_EXPIRED@))
    } else {
        None
    }
}

fn distinct_texts(v: &Vec<String>) -> (res: bool)
    ensures
        res == strings_view(v@).no_duplicates(),
{
    let ghost s = strings_view(v@);
    let mut i: usize = 0;
    while i < v.len()
        invariant
            i <= v.len(),
            s == strings_view(v@),
            forall|a: int, b: int| 0 <= a < i && 0 <= b < i && a != b ==> s[a] != s[b],
        decreases v.len() - i,
    {
        let mut j: usize = 0;
        while j < i
            invariant
                i < v.len(),
                j <= i,
                s == strings_view(v@),
                forall|a: int, b: int| 0 <= a < i && 0 <= b < i && a != b ==> s[a] != s[b],
                forall|b: int| 0 <= b < j ==> s[b] != s[i as int],
            decreases i - j,
        {
            if str_eq(v[j].as_str(), v[i].as_str()) {
                assert(s[j as int] == s[i as int]);
                return false;
            }
            j += 1;
        }
        i += 1;
    }
    true
}

fn all_contained(a: &Vec<String>, b: &Vec<String>) -> (res: bool)
    ensures
        res == forall|k: int| 0 <= k < a@.len() ==> strings_view(b@).contains(#[trigger] strings_view(a@)[k]),
{
    let ghost sa = strings_view(a@);
    let mut i: usize = 0;
    while i < a.len()
        invariant
            i <= a.len(),
            sa == strings_view(a@),
            forall|k: int| 0 <= k < i ==> strings_view(b@).contains(#[trigger] sa[k]),
        decreases a.len() - i,
    {
        if !contains_text(b, a[i].as_str()) {
            assert(!strings_view(b@).contains(sa[i as int]));
            return false;
        }
        i += 1;
    }
    true
}

proof fn lemma_same_sets(a: Seq<Seq<char>>, b: Seq<Seq<char>>)
    ensures
        (a.to_set() == b.to_set()) == ((forall|k: int| 0 <= k < a.len() ==> b.contains(#[trigger] a[k]))
            && (forall|k: int| 0 <= k < b.len() ==> a.contains(#[trigger] b[k]))),
{
    if a.to_set() == b.to_set() {
        assert forall|k: int| 0 <= k < a.len() implies b.contains(#[trigger] a[k]) by {
            assert(a.to_set().contains(a[k]));
        }
        assert forall|k: int| 0 <= k < b.len() implies a.contains(#[trigger] b[k]) by {
            assert(b.to_set().contains(b[k]));
        }
    }
    if (forall|k: int| 0 <= k < a.len() ==> b.contains(#[trigger] a[k])) && (forall|k: int|
        0 <= k < b.len() ==> a.contains(#[trigger] b[k])) {
        assert forall|x: Seq<char>| a.to_set().contains(x) == b.to_set().contains(x) by {
            if a.contains(x) {
                let k = choose|k: int| 0 <= k < a.len() && a[k] == x;
                assert(b.contains(a[k]));
            }
            if b.contains(x) {
                let k = choose|k: int| 0 <= k < b.len() && b[k] == x;
                assert(a.contains(b[k]));
            }
        }
        assert(a.to_set() =~= b.to_set());
    }
}

/// Whether a question is refused before any search is made. `grant_passed`
/// is whether the grant's expiry has passed by the clock.
pub fn check_ask_with(
    request: &AskRequest,
    before: &MeetingAgentStatus,
    selected: &Vec<String>,
    grant_passed: bool,
) -> (res: Result<(), AgentError>)
    ensures
        outcome_is(res, ask_refusal(*request, before@, strings_view(selected@), grant_passed)),
{
    if request.expected_revision != before.revision {
        return Err(AgentError::Refused(STALE_MEETING_AGENT_REVISION));
    }
    let drafting = str_eq(before.state.as_str(), "drafting") || str_eq(
        before.state.as_str(),
        "observing",
    );
    if !str_eq(before.mode.as_str(), "draft") || !drafting || !str_eq(
        before.local_agent.readiness.as_str(),
        "ready",
    ) || !str_eq(before.transcript_read.readiness.as_str(), "ready") || !str_eq(
        before.knowledge_read.readiness.as_str(),
        "ready",
    ) {
        return Err(AgentError::Refused(MEETING_AGENT_DRAFT_NOT_AUTHORIZED));
    }
    let question = crate::text::chars_of(request.question.as_str());
    let trimmed = crate::text::trim(&question);
    let ids = &request.collection_ids;
    proof {
        lemma_same_sets(strings_view(selected@), strings_view(ids@));
    }
    if trimmed.len() == 0 || question.len() > MAX_QUESTION_CHARS || request.transcript_cursor < 0
        || selected.len() == 0 || ids.len() != selected.len() || !distinct_texts(ids)
        || !all_contained(selected, ids) || !all_contained(ids, selected) {
        return Err(AgentError::InvalidInput(MEETING_AGENT_ASK_INVALID));
    }
    if before.expires_at.is_some() && grant_passed {
        return Err(AgentError::Refused(MEETING_AGENT_GRANT_EXPIRED));
    }
    Ok(())
}

/// Whether a question is refused before any search is made, the grant's
/// expiry judged by the clock.
pub fn check_ask(request: &AskRequest, before: &MeetingAgentStatus, selected: &Vec<String>) -> (res:
    Result<(), AgentError>)
    ensures
        exists|now: (i64, u32)|
            outcome_is(
                res,
                ask_refusal(
                    *request,
                    before@,
                    strings_view(selected@),
                    #[trigger] opt_passed_at(before@.expires_at, now),
                ),
            ),
{
    let now = clock_instant();
    let passed = opt_expiry_passed(&before.expires_at, now);
    let res = check_ask_with(request, before, selected, passed);
    assert(outcome_is(res, ask_refusal(*request, before@, strings_view(selected@), opt_passed_at(before@.expires_at, now))));
    res
}

/// A question stays tied to the transcript position it was asked at.
pub fn check_transcript_cursor(high_watermark: i64, cursor: i64) -> (res: Result<(), AgentError>)
    ensures
        outcome_is(
            res,
            if high_watermark == cursor {
                None
            } else {
                Some(AgentErrorView::Refused(MEETING_TRANSCRIPT_CURSOR_STALE@))
            },
        ),
{
    if high_watermark != cursor {
        Err(AgentError::Refused(MEETING_TRANSCRIPT_CURSOR_STALE))
    } else {
        Ok(())
    }
}

// ---------------------------------------------------------------------------
// Runs
// ---------------------------------------------------------------------------

/// Runs are counted over this window (an hour)...
pub const RUN_WINDOW_MS: u64 = 3_600_000;
/// ...and over this burst (a minute).
pub const RUN_BURST_MS: u64 = 60_000;
/// At most this many runs start in a burst...
pub const MAX_RUNS_PER_BURST: usize = 2;
/// ...and at most this many in a window.
pub const MAX_RUNS_PER_WINDOW: usize = 20;

/// Milliseconds from `t` to `now`; none when `t` is not before `now`.
pub open spec fn elapsed_ms(now: u64, t: u64) -> nat {
    if now >= t {
        (now - t) as nat
    } else {
        0
    }
}

/// The start times less than `window` before `now`, in order.
pub open spec fn started_within(times: Seq<u64>, now: u64, window: u64) -> Seq<u64>
    decreases times.len(),
{
    if times.len() == 0 {
        times
    } else if elapsed_ms(now, times.last()) < window {
        started_within(times.drop_last(), now, window).push(times.last())
    } else {
        started_within(times.drop_last(), now, window)
    }
}

/// The session lets a run start: enabled in this process, in draft mode and
/// not paused.
pub open spec fn may_run(s: AgentSession) -> bool {
    s.enabled_this_process && s.mode@ == "draft"@ && s.state@ != "paused"@
}

/// What refuses a run at `now`, checked in this order.
pub open spec fn run_refusal(s: AgentSession, now: u64) -> Option<Seq<char>> {
    let kept = started_within(s.run_times_ms@, now, RUN_WINDOW_MS);
    if !may_run(s) {
        Some(MEETING_AGENT_RESTART_REQUIRES_REENABLE@)
    } else if s.active_run_id is Some {
        Some(MEETING_AGENT_RUN_ALREADY_ACTIVE@)
    } else if started_within(kept, now, RUN_BURST_MS).len() >= MAX_RUNS_PER_BURST
        || kept.len() >= MAX_RUNS_PER_WINDOW {
        Some(MEETING_AGENT_LOCAL_RATE_LIMIT@)
    } else {
        None
    }
}

/// The start times held after a run was asked for at `now`: those of the
/// last hour once the limits were reached, with `now` added when the run
/// starts; untouched when the session refused before counting.
pub open spec fn runs_after_attempt(s: AgentSession, now: u64) -> Seq<u64> {
    let kept = started_within(s.run_times_ms@, now, RUN_WINDOW_MS);
    if !may_run(s) || s.active_run_id is Some {
        s.run_times_ms@
    } else if run_refusal(s, now) is Some {
        kept
    } else {
        kept.push(now)
    }
}

pub open spec fn refused(code: Option<Seq<char>>) -> Option<AgentErrorView> {
    match code {
        Some(c) => Some(AgentErrorView::Refused(c)),
        None => None,
    }
}

/// The session's settings are those it had.
pub open spec fn same_settings(a: AgentSession, b: AgentSession) -> bool {
    &&& a.enabled_this_process == b.enabled_this_process
    &&& a.mode == b.mode
    &&& a.state == b.state
    &&& a.revision == b.revision
    &&& a.expires_at == b.expires_at
    &&& a.allowed_topics == b.allowed_topics
}

fn prune_runs(times: &Vec<u64>, now: u64, window: u64) -> (out: Vec<u64>)
    ensures
        out@ == started_within(times@, now, window),
{
    let mut out: Vec<u64> = Vec::new();
    let mut i: usize = 0;
    while i < times.len()
        invariant
            i <= times.len(),
            out@ == started_within(times@.take(i as int), now, window),
        decreases times.len() - i,
    {
        assert(times@.take(i + 1).drop_last() =~= times@.take(i as int));
        let t = times[i];
        let elapsed = if now >= t {
            now - t
        } else {
            0
        };
        if elapsed < window {
            out.push(t);
        }
        i += 1;
    }
    assert(times@.take(times.len() as int) =~= times@);
    out
}

/// Starts a run of the agent at `now_ms` as `run_id`, or says why not. Only
/// one run is active at a time, and at most `MAX_RUNS_PER_BURST` start in a
/// minute and `MAX_RUNS_PER_WINDOW` in an hour; start times older than the
/// hour are forgotten once the limits are checked.
pub fn begin_agent_run(session: &mut AgentSession, run_id: String, now_ms: u64) -> (res: Result<
    (),
    AgentError,
>)
    ensures
        outcome_is(res, refused(run_refusal(*old(session), now_ms))),
        same_settings(*final(session), *old(session)),
        final(session).drafts == old(session).drafts,
        final(session).deliveries == old(session).deliveries,
        final(session).run_times_ms@ == runs_after_attempt(*old(session), now_ms),
        final(session).active_run_id == (if run_refusal(*old(session), now_ms) is None {
            Some(run_id)
        } else {
            old(session).active_run_id
        }),
{
    if !session.enabled_this_process || !str_eq(session.mode.as_str(), "draft") || str_eq(
        session.state.as_str(),
        "paused",
    ) {
        return Err(AgentError::Refused(MEETING_AGENT_RESTART_REQUIRES_REENABLE));
    }
    if session.active_run_id.is_some() {
        return Err(AgentError::Refused(MEETING_AGENT_RUN_ALREADY_ACTIVE));
    }
    let kept = prune_runs(&session.run_times_ms, now_ms, RUN_WINDOW_MS);
    let burst = prune_runs(&kept, now_ms, RUN_BURST_MS);
    let refuse = burst.len() >= MAX_RUNS_PER_BURST || kept.len() >= MAX_RUNS_PER_WINDOW;
    session.run_times_ms = kept;
    if refuse {
        return Err(AgentError::Refused(MEETING_AGENT_LOCAL_RATE_LIMIT));
    }
    session.run_times_ms.push(now_ms);
    session.active_run_id = Some(run_id);
    Ok(())
}

/// The limits this process holds the agent to, as the preflight reports
/// them.
#[derive(Debug)]
pub struct MeetingAgentLocalLimits {
    pub max_active_runs: u32,
    pub max_retrieval_attempts: u32,
    pub trigger_expiry_ms: u64,
    pub max_runs_per_minute: u32,
    pub max_runs_per_hour: u32,
}

/// One active run at a time, three retrieval attempts, triggers that
/// expire after thirty seconds, and the run rate limits `begin_agent_run`
/// enforces.
pub fn meeting_agent_local_limits() -> (res: MeetingAgentLocalLimits)
    ensures
        res.max_active_runs == 1,
        res.max_retrieval_attempts == 3,
        res.trigger_expiry_ms == 30_000,
        res.max_runs_per_minute == MAX_RUNS_PER_BURST,
        res.max_runs_per_hour == MAX_RUNS_PER_WINDOW,
{
    MeetingAgentLocalLimits {
        max_active_runs: 1,
        max_retrieval_attempts: 3,
        trigger_expiry_ms: 30_000,
        max_runs_per_minute: 2,
        max_runs_per_hour: 20,
    }
}

/// The run `run_id` is still the session's active one, and the session can
/// still draft.
pub open spec fn run_still_current(s: AgentSession, run_id: Seq<char>) -> bool {
    may_run(s) && opt_chars(s.active_run_id) == Some(run_id)
}

/// Ends the run `run_id` with its draft: the session keeps the draft (in
/// place of one with the same id) and goes back to `drafting` with no active
/// run. Refused, and the session left as it was, when the run was cancelled
/// meanwhile.
pub fn finish_agent_run(session: &mut AgentSession, run_id: &str, draft: PrivateDraft) -> (res:
    Result<(), AgentError>)
    ensures
        outcome_is(
            res,
            if run_still_current(*old(session), run_id@) {
                None
            } else {
                Some(AgentErrorView::Refused(MEETING_AGENT_RUN_CANCELLED@))
            },
        ),
        run_still_current(*old(session), run_id@) ==> {
            &&& final(session).state@ == "drafting"@
            &&& final(session).active_run_id is None
            &&& final(session).enabled_this_process == old(session).enabled_this_process
            &&& final(session).mode == old(session).mode
            &&& final(session).revision == old(session).revision
            &&& final(session).expires_at == old(session).expires_at
            &&& final(session).allowed_topics == old(session).allowed_topics
            &&& final(session).run_times_ms == old(session).run_times_ms
            &&& final(session).drafts@ == stored(old(session).drafts@, draft)
            &&& final(session).deliveries == old(session).deliveries
        },
        !run_still_current(*old(session), run_id@) ==> *final(session) == *old(session),
{
    let current = match &session.active_run_id {
        Some(active) => str_eq(active.as_str(), run_id),
        None => false,
    };
    if !session.enabled_this_process || !str_eq(session.mode.as_str(), "draft") || str_eq(
        session.state.as_str(),
        "paused",
    ) || !current {
        return Err(AgentError::Refused(MEETING_AGENT_RUN_CANCELLED));
    }
    session.state = copy_string("drafting");
    session.active_run_id = None;
    store_keyed(&mut session.drafts, draft);
    Ok(())
}

/// Lets go of the run `run_id` however its command ended: the session has no
/// active run afterwards if that run was the active one, and is otherwise
/// unchanged.
pub fn release_agent_run(session: &mut AgentSession, run_id: &str)
    ensures
        same_settings(*final(session), *old(session)),
        final(session).run_times_ms == old(session).run_times_ms,
        final(session).drafts == old(session).drafts,
        final(session).deliveries == old(session).deliveries,
        final(session).active_run_id == (if opt_chars(old(session).active_run_id) == Some(run_id@) {
            None
        } else {
            old(session).active_run_id
        }),
{
    let current = match &session.active_run_id {
        Some(active) => str_eq(active.as_str(), run_id),
        None => false,
    };
    if current {
        session.active_run_id = None;
    }
}

/// A run that starts leaves room: before it, fewer than
/// `MAX_RUNS_PER_BURST` runs started in the last minute and fewer than
/// `MAX_RUNS_PER_WINDOW` in the last hour, so afterwards there are at most
/// that many.
pub proof fn law_runs_stay_within_their_limits(s: AgentSession, now: u64)
    requires
        run_refusal(s, now) is None,
    ensures
        runs_after_attempt(s, now).len() <= MAX_RUNS_PER_WINDOW,
        started_within(runs_after_attempt(s, now), now, RUN_BURST_MS).len() <= MAX_RUNS_PER_BURST,
{
    let kept = started_within(s.run_times_ms@, now, RUN_WINDOW_MS);
    let after = kept.push(now);
    assert(after.drop_last() =~= kept);
    assert(elapsed_ms(now, now) == 0);
}

// ---------------------------------------------------------------------------
// Drafts
// ---------------------------------------------------------------------------

/// Where in a document a piece of evidence was found.
#[derive(Debug)]
pub enum CitationLocator {
    TextSpan { start_line: u64, end_line: u64, start_char: u64, end_char: u64 },
    PdfPage { page_number: u64, start_char: u64, end_char: u64 },
    SpreadsheetCellRange { sheet_ref: String, range: String },
    TranscriptRange { recording_id: String, start_ms: i64, end_ms: i64 },
}

/// An excerpt the knowledge search returned for a question.
#[derive(Debug)]
pub struct EvidenceHit {
    pub excerpt: String,
    pub document_id: String,
    pub document_version_id: String,
    pub locator: CitationLocator,
}

/// A citation shown under a draft.
#[derive(Debug)]
pub struct MeetingAgentCitation {
    pub document_id: String,
    pub version_id: String,
    pub locator: String,
    pub label: String,
}

pub struct CitationView {
    pub document_id: Seq<char>,
    pub version_id: Seq<char>,
    pub locator: Seq<char>,
    pub label: Seq<char>,
}

impl View for MeetingAgentCitation {
    type V = CitationView;

    open spec fn view(&self) -> CitationView {
        CitationView {
            document_id: self.document_id@,
            version_id: self.version_id@,
            locator: self.locator@,
            label: self.label@,
        }
    }
}

pub open spec fn citations_view(v: Seq<MeetingAgentCitation>) -> Seq<CitationView> {
    v.map_values(|c: MeetingAgentCitation| c@)
}

/// A private draft answer, before it is stored.
#[derive(Debug)]
pub struct DraftComposition {
    pub draft_id: String,
    pub text: String,
    pub citations: Vec<MeetingAgentCitation>,
}

/// The opening line of every draft.
pub const DRAFT_HEADER: &'static str = "จากเอกสารที่เลือก พบข้อความที่เกี่ยวข้อง:\n\n";
/// At most this many excerpts are quoted.
pub const MAX_DRAFT_EVIDENCE: usize = 8;
/// A draft longer than this, in characters, is refused.
pub const MAX_DRAFT_CHARS: usize = 12_000;

/// How a locator is shown.
pub open spec fn locator_text(l: CitationLocator) -> Seq<char> {
    match l {
        CitationLocator::TextSpan { start_line, end_line, start_char, end_char } => "บรรทัด "@
            + crate::text::decimal(start_line as nat) + "-"@ + crate::text::decimal(end_line as nat)
            + " · อักขระ "@ + crate::text::decimal(start_char as nat) + "-"@ + crate::text::decimal(
            end_char as nat,
        ),
        CitationLocator::PdfPage { page_number, start_char, end_char } => "หน้า "@
            + crate::text::decimal(page_number as nat) + " · อักขระ "@ + crate::text::decimal(
            start_char as nat,
        ) + "-"@ + crate::text::decimal(end_char as nat),
        CitationLocator::SpreadsheetCellRange { sheet_ref, range } => "ชีต "@ + sheet_ref@ + " · "@
            + range@,
        CitationLocator::TranscriptRange { recording_id, start_ms, end_ms } => recording_id@
            + " · "@ + crate::text::signed_decimal(start_ms as int) + "-"@
            + crate::text::signed_decimal(end_ms as int) + " ms"@,
    }
}

/// The first `n` characters of `s`, or all of it.
pub open spec fn prefix_of(s: Seq<char>, n: nat) -> Seq<char> {
    if s.len() <= n {
        s
    } else {
        s.take(n as int)
    }
}

pub open spec fn citation_of(h: EvidenceHit) -> CitationView {
    CitationView {
        document_id: h.document_id@,
        version_id: h.document_version_id@,
        locator: locator_text(h.locator),
        label: "เอกสาร "@ + prefix_of(h.document_id@, 8),
    }
}

/// An excerpt is quoted when it has text once trimmed.
pub open spec fn quotable(h: EvidenceHit) -> bool {
    crate::text::trim_spec(h.excerpt@).len() > 0
}

pub open spec fn quoted(h: EvidenceHit) -> Seq<char> {
    seq!['“'] + crate::text::trim_spec(h.excerpt@) + "”\n\n"@
}

/// The quotes of the excerpts that have text, in order.
pub open spec fn draft_body(hits: Seq<EvidenceHit>) -> Seq<char>
    decreases hits.len(),
{
    if hits.len() == 0 {
        Seq::empty()
    } else if quotable(hits.last()) {
        draft_body(hits.drop_last()) + quoted(hits.last())
    } else {
        draft_body(hits.drop_last())
    }
}

/// The citations of the excerpts that have text, in order.
pub open spec fn draft_citations(hits: Seq<EvidenceHit>) -> Seq<CitationView>
    decreases hits.len(),
{
    if hits.len() == 0 {
        Seq::empty()
    } else if quotable(hits.last()) {
        draft_citations(hits.drop_last()).push(citation_of(hits.last()))
    } else {
        draft_citations(hits.drop_last())
    }
}

/// The hits a draft considers: the first `MAX_DRAFT_EVIDENCE`.
pub open spec fn considered(hits: Seq<EvidenceHit>) -> Seq<EvidenceHit> {
    if hits.len() <= MAX_DRAFT_EVIDENCE {
        hits
    } else {
        hits.take(MAX_DRAFT_EVIDENCE as int)
    }
}

pub open spec fn draft_text(hits: Seq<EvidenceHit>) -> Seq<char> {
    DRAFT_HEADER@ + draft_body(considered(hits))
}

/// A draft's id: `draft-` and the first 32 hexadecimal digits of the SHA-256
/// of the request id, so a repeated request names the same draft.
pub open spec fn draft_id_spec(request_id: Seq<char>) -> Seq<char> {
    "draft-"@ + crate::live_meeting::lower_hex(
        crate::live_meeting::sha256(vstd::utf8::encode_utf8(request_id)),
    ).take(32)
}

fn decimal_chars(n: u64) -> (out: Vec<char>)
    ensures
        out@ == crate::text::decimal(n as nat),
{
    crate::text::u64_decimal(n)
}

fn append_text(v: &mut Vec<char>, s: &str)
    ensures
        final(v)@ == old(v)@ + s@,
{
    let c = crate::text::chars_of(s);
    crate::text::extend_chars(v, &c);
}

/// How a locator is shown.
pub fn locator_label(l: &CitationLocator) -> (res: String)
    ensures
        res@ == locator_text(*l),
{
    let mut out: Vec<char> = Vec::new();
    match l {
        CitationLocator::TextSpan { start_line, end_line, start_char, end_char } => {
            append_text(&mut out, "บรรทัด ");
            crate::text::extend_chars(&mut out, &decimal_chars(*start_line));
            append_text(&mut out, "-");
            crate::text::extend_chars(&mut out, &decimal_chars(*end_line));
            append_text(&mut out, " · อักขระ ");
            crate::text::extend_chars(&mut out, &decimal_chars(*start_char));
            append_text(&mut out, "-");
            crate::text::extend_chars(&mut out, &decimal_chars(*end_char));
        },
        CitationLocator::PdfPage { page_number, start_char, end_char } => {
            append_text(&mut out, "หน้า ");
            crate::text::extend_chars(&mut out, &decimal_chars(*page_number));
            append_text(&mut out, " · อักขระ ");
            crate::text::extend_chars(&mut out, &decimal_chars(*start_char));
            append_text(&mut out, "-");
            crate::text::extend_chars(&mut out, &decimal_chars(*end_char));
        },
        CitationLocator::SpreadsheetCellRange { sheet_ref, range } => {
            append_text(&mut out, "ชีต ");
            append_text(&mut out, sheet_ref.as_str());
            append_text(&mut out, " · ");
            append_text(&mut out, range.as_str());
        },
        CitationLocator::TranscriptRange { recording_id, start_ms, end_ms } => {
            append_text(&mut out, recording_id.as_str());
            append_text(&mut out, " · ");
            crate::text::extend_chars(&mut out, &crate::text::i64_decimal(*start_ms));
            append_text(&mut out, "-");
            crate::text::extend_chars(&mut out, &crate::text::i64_decimal(*end_ms));
            append_text(&mut out, " ms");
        },
    }
    crate::text::string_of(&out)
}

fn cite(h: &EvidenceHit) -> (res: MeetingAgentCitation)
    ensures
        res@ == citation_of(*h),
{
    let doc = crate::text::chars_of(h.document_id.as_str());
    let n = if doc.len() <= 8 {
        doc.len()
    } else {
        8
    };
    let head = crate::text::slice_chars(&doc, 0, n);
    assert(head@ =~= prefix_of(h.document_id@, 8));
    let mut label: Vec<char> = Vec::new();
    append_text(&mut label, "เอกสาร ");
    crate::text::extend_chars(&mut label, &head);
    MeetingAgentCitation {
        document_id: h.document_id.clone(),
        version_id: h.document_version_id.clone(),
        locator: locator_label(&h.locator),
        label: crate::text::string_of(&label),
    }
}

/// The draft's id for a request.
pub fn draft_id_for(request_id: &str) -> (res: String)
    ensures
        res@ == draft_id_spec(request_id@),
{
    let mut bytes: Vec<u8> = Vec::new();
    crate::live_meeting::push_bytes(&mut bytes, request_id.as_bytes());
    assert(bytes@ =~= vstd::utf8::encode_utf8(request_id@));
    let digest = crate::live_meeting::sha256_digest(&bytes);
    let hex = crate::live_meeting::hex_of(&digest);
    proof {
        lemma_lower_hex_len(digest@);
    }
    let head = crate::text::slice_chars(&hex, 0, 32);
    let mut out: Vec<char> = Vec::new();
    append_text(&mut out, "draft-");
    crate::text::extend_chars(&mut out, &head);
    assert(out@ =~= draft_id_spec(request_id@));
    crate::text::string_of(&out)
}

proof fn lemma_lower_hex_len(b: Seq<u8>)
    ensures
        crate::live_meeting::lower_hex(b).len() == 2 * b.len(),
    decreases b.len(),
{
    if b.len() > 0 {
        lemma_lower_hex_len(b.drop_last());
    }
}

/// A private draft answering a question from the evidence found: the
/// header, then each of the first `MAX_DRAFT_EVIDENCE` excerpts that has text
/// once trimmed, quoted, with its citation. Refused when nothing could be
/// quoted or the text runs past `MAX_DRAFT_CHARS`.
pub fn compose_private_draft(request_id: &str, hits: &Vec<EvidenceHit>) -> (res: Result<
    DraftComposition,
    AgentError,
>)
    ensures
        ({
            let text = draft_text(hits@);
            let cites = draft_citations(considered(hits@));
            if cites.len() == 0 || text.len() > MAX_DRAFT_CHARS {
                res matches Err(e) && e@ == AgentErrorView::Refused(MEETING_AGENT_DRAFT_SIZE_INVALID@)
            } else {
                res matches Ok(d) && d.text@ == text && citations_view(d.citations@) == cites
                    && d.draft_id@ == draft_id_spec(request_id@)
            }
        }),
{
    let count = if hits.len() <= MAX_DRAFT_EVIDENCE {
        hits.len()
    } else {
        MAX_DRAFT_EVIDENCE
    };
    let ghost hs = considered(hits@);
    assert(hs =~= hits@.take(count as int));
    let mut body: Vec<char> = Vec::new();
    append_text(&mut body, DRAFT_HEADER);
    let mut citations: Vec<MeetingAgentCitation> = Vec::new();
    let mut i: usize = 0;
    while i < count
        invariant
            i <= count,
            count <= hits.len(),
            hs == hits@.take(count as int),
            body@ == DRAFT_HEADER@ + draft_body(hits@.take(i as int)),
            citations_view(citations@) == draft_citations(hits@.take(i as int)),
        decreases count - i,
    {
        assert(hits@.take(i + 1).drop_last() =~= hits@.take(i as int));
        assert(hits@.take(i + 1).last() == hits@[i as int]);
        let h = &hits[i];
        let excerpt = crate::text::trim(&crate::text::chars_of(h.excerpt.as_str()));
        if excerpt.len() > 0 {
            let ghost before = body@;
            body.push('“');
            crate::text::extend_chars(&mut body, &excerpt);
            append_text(&mut body, "”\n\n");
            assert(body@ =~= before + quoted(*h));
            let ghost cbefore = citations@;
            citations.push(cite(h));
            assert(citations_view(citations@) =~= citations_view(cbefore).push(citation_of(*h)));
        }
        i += 1;
    }
    assert(hits@.take(count as int) =~= hs);
    if citations.len() == 0 || body.len() > MAX_DRAFT_CHARS {
        return Err(AgentError::Refused(MEETING_AGENT_DRAFT_SIZE_INVALID));
    }
    Ok(
        DraftComposition {
            draft_id: draft_id_for(request_id),
            text: crate::text::string_of(&body),
            citations,
        },
    )
}

// ---------------------------------------------------------------------------
// Policy changes
// ---------------------------------------------------------------------------

pub const MEETING_AGENT_MODE_INVALID: &'static str = "MEETING_AGENT_MODE_INVALID";
pub const MEETING_AGENT_PREFLIGHT_BLOCKED: &'static str = "MEETING_AGENT_PREFLIGHT_BLOCKED";
pub const MEETING_AGENT_REVOKE_REASON_INVALID: &'static str = "MEETING_AGENT_REVOKE_REASON_INVALID";
/// The longest revocation reason, in UTF-8 bytes.
pub const MAX_REVOKE_REASON_BYTES: usize = 256;

/// The owner, transcript and knowledge capabilities are all ready.
pub open spec fn all_ready(s: StatusView) -> bool {
    &&& s.local_agent.readiness == "ready"@
    &&& s.transcript_read.readiness == "ready"@
    &&& s.knowledge_read.readiness == "ready"@
}

/// Something blocks the agent beyond a restart or an expired grant, which
/// starting it again clears.
pub open spec fn blocked_beyond_restart(blockers: Seq<Seq<char>>) -> bool {
    exists|i: int|
        0 <= i < blockers.len() && #[trigger] blockers[i] != RESTART_REQUIRES_REENABLE@ && blockers[i]
            != MEETING_AGENT_GRANT_EXPIRED@
}

/// What refuses starting the agent in `mode`, checked in this order.
pub open spec fn start_refusal(mode: Seq<char>, expected_revision: u64, before: StatusView) -> Option<
    AgentErrorView,
> {
    if !(mode == "observe"@ || mode == "draft"@) {
        Some(AgentErrorView::InvalidInput(MEETING_AGENT_MODE_INVALID@))
    } else if expected_revision != before.revision {
        Some(AgentErrorView::Refused(STALE_MEETING_AGENT_REVISION@))
    } else if blocked_beyond_restart(before.blockers) || (mode == "draft"@ && !all_ready(before)) {
        Some(AgentErrorView::Refused(MEETING_AGENT_PREFLIGHT_BLOCKED@))
    } else {
        None
    }
}

/// What refuses setting the agent's policy to `mode`, checked in this order.
pub open spec fn policy_refusal(mode: Seq<char>, expected_revision: u64, before: StatusView) -> Option<
    AgentErrorView,
> {
    if !(mode == "off"@ || mode == "observe"@ || mode == "draft"@) {
        Some(AgentErrorView::InvalidInput(MEETING_AGENT_MODE_INVALID@))
    } else if expected_revision != before.revision {
        Some(AgentErrorView::Refused(STALE_MEETING_AGENT_REVISION@))
    } else if mode == "draft"@ && !all_ready(before) {
        Some(AgentErrorView::Refused(MEETING_AGENT_PREFLIGHT_BLOCKED@))
    } else {
        None
    }
}

/// What refuses revoking the agent, checked in this order: a reason with
/// text, at most `MAX_REVOKE_REASON_BYTES` long, and a current revision.
pub open spec fn revoke_refusal(reason: Seq<char>, expected_revision: u64, before: StatusView) -> Option<
    AgentErrorView,
> {
    if crate::text::trim_spec(reason).len() == 0 || crate::text::byte_len(reason)
        > MAX_REVOKE_REASON_BYTES {
        Some(AgentErrorView::InvalidInput(MEETING_AGENT_REVOKE_REASON_INVALID@))
    } else if expected_revision != before.revision {
        Some(AgentErrorView::Refused(STALE_MEETING_AGENT_REVISION@))
    } else {
        None
    }
}

/// The state an agent in `mode` runs in.
pub open spec fn mode_state(mode: Seq<char>) -> Seq<char> {
    if mode == "observe"@ {
        "observing"@
    } else if mode == "draft"@ {
        "drafting"@
    } else {
        "stopped"@
    }
}

fn all_ready_exec(s: &MeetingAgentStatus) -> (res: bool)
    ensures
        res == all_ready(s@),
{
    str_eq(s.local_agent.readiness.as_str(), "ready") && str_eq(
        s.transcript_read.readiness.as_str(),
        "ready",
    ) && str_eq(s.knowledge_read.readiness.as_str(), "ready")
}

fn blocked_beyond_restart_exec(blockers: &Vec<String>) -> (res: bool)
    ensures
        res == blocked_beyond_restart(strings_view(blockers@)),
{
    let ghost b = strings_view(blockers@);
    let mut i: usize = 0;
    while i < blockers.len()
        invariant
            i <= blockers.len(),
            b == strings_view(blockers@),
            forall|k: int|
                0 <= k < i ==> !(#[trigger] b[k] != RESTART_REQUIRES_REENABLE@ && b[k]
                    != MEETING_AGENT_GRANT_EXPIRED@),
        decreases blockers.len() - i,
    {
        let s = blockers[i].as_str();
        if !str_eq(s, RESTART_REQUIRES_REENABLE) && !str_eq(s, MEETING_AGENT_GRANT_EXPIRED) {
            assert(b[i as int] == blockers@[i as int]@);
            return true;
        }
        i += 1;
    }
    false
}

/// Whether starting the agent in `mode` is refused.
pub fn check_start(mode: &str, expected_revision: u64, before: &MeetingAgentStatus) -> (res: Result<
    (),
    AgentError,
>)
    ensures
        outcome_is(res, start_refusal(mode@, expected_revision, before@)),
{
    if !str_eq(mode, "observe") && !str_eq(mode, "draft") {
        return Err(AgentError::InvalidInput(MEETING_AGENT_MODE_INVALID));
    }
    if expected_revision != before.revision {
        return Err(AgentError::Refused(STALE_MEETING_AGENT_REVISION));
    }
    if blocked_beyond_restart_exec(&before.blockers) || (str_eq(mode, "draft") && !all_ready_exec(
        before,
    )) {
        return Err(AgentError::Refused(MEETING_AGENT_PREFLIGHT_BLOCKED));
    }
    Ok(())
}

/// Whether setting the agent's policy to `mode` is refused.
pub fn check_policy(mode: &str, expected_revision: u64, before: &MeetingAgentStatus) -> (res: Result<
    (),
    AgentError,
>)
    ensures
        outcome_is(res, policy_refusal(mode@, expected_revision, before@)),
{
    if !str_eq(mode, "off") && !str_eq(mode, "observe") && !str_eq(mode, "draft") {
        return Err(AgentError::InvalidInput(MEETING_AGENT_MODE_INVALID));
    }
    if expected_revision != before.revision {
        return Err(AgentError::Refused(STALE_MEETING_AGENT_REVISION));
    }
    if str_eq(mode, "draft") && !all_ready_exec(before) {
        return Err(AgentError::Refused(MEETING_AGENT_PREFLIGHT_BLOCKED));
    }
    Ok(())
}

/// Whether revoking the agent is refused.
pub fn check_revoke(reason: &str, expected_revision: u64, before: &MeetingAgentStatus) -> (res: Result<
    (),
    AgentError,
>)
    ensures
        outcome_is(res, revoke_refusal(reason@, expected_revision, before@)),
{
    let chars = crate::text::chars_of(reason);
    let trimmed = crate::text::trim(&chars);
    if trimmed.len() == 0 || !crate::text::utf8_len_at_most(&chars, MAX_REVOKE_REASON_BYTES) {
        return Err(AgentError::InvalidInput(MEETING_AGENT_REVOKE_REASON_INVALID));
    }
    if expected_revision != before.revision {
        return Err(AgentError::Refused(STALE_MEETING_AGENT_REVISION));
    }
    Ok(())
}

/// The state an agent in `mode` runs in: `observing`, `drafting`, or
/// `stopped`.
pub fn agent_state_for_mode(mode: &str) -> (res: &'static str)
    ensures
        res@ == mode_state(mode@),
{
    if str_eq(mode, "observe") {
        "observing"
    } else if str_eq(mode, "draft") {
        "drafting"
    } else {
        "stopped"
    }
}

/// The grant state a policy stores: `stopped` when turned off, else
/// `active`.
pub fn policy_grant_state(mode: &str) -> (res: &'static str)
    ensures
        res@ == (if mode@ == "off"@ {
            "stopped"@
        } else {
            "active"@
        }),
{
    if str_eq(mode, "off") {
        "stopped"
    } else {
        "active"
    }
}

/// What pausing or stopping keeps of a policy.
#[derive(Debug)]
pub struct RunningChange {
    pub mode: String,
    pub allowed_topics: Vec<String>,
    pub expires_at: Option<String>,
    /// The session stays enabled in this process (paused, not stopped).
    pub enabled: bool,
}

/// Pausing keeps the mode; stopping turns it off. Topics and expiry are
/// kept either way. Refused when the revision is stale.
pub fn running_state_change(
    expected_revision: u64,
    before: &MeetingAgentStatus,
    next_state: &str,
) -> (res: Result<RunningChange, AgentError>)
    ensures
        expected_revision != before.revision ==> (res matches Err(e) && e@
            == AgentErrorView::Refused(STALE_MEETING_AGENT_REVISION@)),
        expected_revision == before.revision ==> (res matches Ok(c) && c.mode@ == (if next_state@
            == "stopped"@ {
            "off"@
        } else {
            before.mode@
        }) && strings_view(c.allowed_topics@) == before@.allowed_topics && opt_chars(c.expires_at)
            == before@.expires_at && c.enabled == (next_state@ == "paused"@)),
{
    if expected_revision != before.revision {
        return Err(AgentError::Refused(STALE_MEETING_AGENT_REVISION));
    }
    let mode = if str_eq(next_state, "stopped") {
        copy_string("off")
    } else {
        before.mode.clone()
    };
    Ok(
        RunningChange {
            mode,
            allowed_topics: copy_strings(&before.allowed_topics),
            expires_at: copy_opt_string(&before.expires_at),
            enabled: str_eq(next_state, "paused"),
        },
    )
}

/// Applies a committed policy to this process's session. No run stays
/// active; a session no longer enabled forgets its drafts, deliveries and
/// run times.
pub fn update_agent_runtime(
    session: &mut AgentSession,
    revision: u64,
    mode: &str,
    state: &str,
    expires_at: Option<String>,
    allowed_topics: Vec<String>,
    enabled: bool,
)
    ensures
        final(session).revision == revision,
        final(session).mode@ == mode@,
        final(session).state@ == state@,
        final(session).expires_at == expires_at,
        final(session).allowed_topics == allowed_topics,
        final(session).enabled_this_process == enabled,
        final(session).active_run_id is None,
        enabled ==> final(session).drafts == old(session).drafts && final(session).deliveries
            == old(session).deliveries && final(session).run_times_ms == old(session).run_times_ms,
        !enabled ==> final(session).drafts@.len() == 0 && final(session).deliveries@.len() == 0
            && final(session).run_times_ms@.len() == 0,
{
    session.revision = revision;
    session.mode = copy_string(mode);
    session.state = copy_string(state);
    session.expires_at = expires_at;
    session.allowed_topics = allowed_topics;
    session.enabled_this_process = enabled;
    session.active_run_id = None;
    if !enabled {
        session.drafts = Vec::new();
        session.deliveries = Vec::new();
        session.run_times_ms = Vec::new();
    }
}

// ---------------------------------------------------------------------------
// Keyed holdings
// ---------------------------------------------------------------------------

/// Something a session holds under a text key.
pub trait Keyed {
    spec fn key(&self) -> Seq<char>;

    fn key_text(&self) -> (r: &str)
        ensures
            r@ == self.key(),
    ;
}

impl Keyed for PrivateDraft {
    open spec fn key(&self) -> Seq<char> {
        self.draft_id@
    }

    fn key_text(&self) -> (r: &str) {
        self.draft_id.as_str()
    }
}

impl Keyed for RuntimeDelivery {
    open spec fn key(&self) -> Seq<char> {
        self.preview.intent_id@
    }

    fn key_text(&self) -> (r: &str) {
        self.preview.intent_id.as_str()
    }
}

/// `i` is the first position holding `id`.
pub open spec fn first_at<T: Keyed>(v: Seq<T>, id: Seq<char>, i: int) -> bool {
    0 <= i < v.len() && v[i].key() == id && forall|k: int| 0 <= k < i ==> #[trigger] v[k].key() != id
}

/// Where `id` is held: its first position.
pub open spec fn index_of_key<T: Keyed>(v: Seq<T>, id: Seq<char>) -> Option<int> {
    if exists|i: int| first_at(v, id, i) {
        Some(choose|i: int| first_at(v, id, i))
    } else {
        None
    }
}

/// `v` with `x` held under its key: in place of what held that key, or
/// added at the end.
pub open spec fn stored<T: Keyed>(v: Seq<T>, x: T) -> Seq<T> {
    match index_of_key(v, x.key()) {
        Some(i) => v.update(i, x),
        None => v.push(x),
    }
}

proof fn lemma_first_at_unique<T: Keyed>(v: Seq<T>, id: Seq<char>, i: int, j: int)
    requires
        first_at(v, id, i),
        first_at(v, id, j),
    ensures
        i == j,
{
    if i < j {
        assert(v[i].key() != id);
    } else if j < i {
        assert(v[j].key() != id);
    }
}

proof fn lemma_index_of_key<T: Keyed>(v: Seq<T>, id: Seq<char>, i: int)
    requires
        first_at(v, id, i),
    ensures
        index_of_key(v, id) == Some(i),
{
    let j = choose|j: int| first_at(v, id, j);
    lemma_first_at_unique(v, id, i, j);
}

fn find_keyed<T: Keyed>(v: &Vec<T>, id: &str) -> (res: Option<usize>)
    ensures
        match res {
            Some(i) => index_of_key(v@, id@) == Some(i as int),
            None => index_of_key(v@, id@) is None,
        },
{
    let mut i: usize = 0;
    while i < v.len()
        invariant
            i <= v.len(),
            forall|k: int| 0 <= k < i ==> #[trigger] v@[k].key() != id@,
        decreases v.len() - i,
    {
        if str_eq(v[i].key_text(), id) {
            proof {
                lemma_index_of_key(v@, id@, i as int);
            }
            return Some(i);
        }
        i += 1;
    }
    assert(!exists|j: int| first_at(v@, id@, j));
    None
}

fn store_keyed<T: Keyed>(v: &mut Vec<T>, x: T)
    ensures
        final(v)@ == stored(old(v)@, x),
{
    let found = find_keyed(v, x.key_text());
    match found {
        Some(i) => {
            v.set(i, x);
        },
        None => {
            v.push(x);
        },
    }
}

/// What is stored under a key is what is found under it afterwards, and
/// what other keys find is unchanged.
pub proof fn law_the_stored_item_is_found<T: Keyed>(v: Seq<T>, x: T, other: Seq<char>)
    ensures
        ({
            let after = stored(v, x);
            &&& index_of_key(after, x.key()) matches Some(j) && after[j] == x
            &&& other != x.key() ==> match index_of_key(v, other) {
                Some(i) => index_of_key(after, other) == Some(i) && after[i] == v[i],
                None => index_of_key(after, other) is None,
            }
        }),
{
    let after = stored(v, x);
    match index_of_key(v, x.key()) {
        Some(i) => {
            let i0 = choose|i: int| first_at(v, x.key(), i);
            assert(first_at(v, x.key(), i0));
            assert(i == i0);
            assert forall|k: int| 0 <= k < i implies #[trigger] after[k].key() != x.key() by {
                assert(after[k] == v[k]);
            }
            assert(first_at(after, x.key(), i));
            lemma_index_of_key(after, x.key(), i);
        },
        None => {
            let n = v.len() as int;
            assert forall|k: int| 0 <= k < n implies #[trigger] after[k].key() != x.key() by {
                assert(after[k] == v[k]);
                if v[k].key() == x.key() {
                    assert forall|m: int| 0 <= m < k implies #[trigger] v[m].key() != x.key() by {
                        if v[m].key() == x.key() {
                            // the smallest position holding the key would be first
                            lemma_some_first(v, x.key(), m);
                        }
                    }
                    assert(first_at(v, x.key(), k));
                }
            }
            assert(first_at(after, x.key(), n));
            lemma_index_of_key(after, x.key(), n);
        },
    }
    if other != x.key() {
        match index_of_key(v, other) {
            Some(i) => {
                let i0 = choose|i: int| first_at(v, other, i);
                assert(first_at(v, other, i0));
                assert forall|k: int| 0 <= k < i implies #[trigger] after[k].key() != other by {
                    if k < v.len() {
                        assert(after[k] == v[k] || after[k] == x);
                    }
                }
                assert(after[i] == v[i]);
                assert(first_at(after, other, i));
                lemma_index_of_key(after, other, i);
            },
            None => {
                assert forall|k: int| 0 <= k < after.len() implies #[trigger] after[k].key() != other by {
                    if k < v.len() && after[k] == v[k] && v[k].key() == other {
                        lemma_some_first(v, other, k);
                    }
                }
                assert(!exists|j: int| first_at(after, other, j));
            },
        }
    }
}

/// A position holding `id` means some position is the first to.
proof fn lemma_some_first<T: Keyed>(v: Seq<T>, id: Seq<char>, k: int)
    requires
        0 <= k < v.len(),
        v[k].key() == id,
    ensures
        index_of_key(v, id) is Some,
    decreases k,
{
    if forall|m: int| 0 <= m < k ==> #[trigger] v[m].key() != id {
        assert(first_at(v, id, k));
    } else {
        let m = choose|m: int| 0 <= m < k && #[trigger] v[m].key() == id;
        lemma_some_first(v, id, m);
    }
}

// ---------------------------------------------------------------------------
// Deliveries
// ---------------------------------------------------------------------------

pub const MEETING_DELIVERY_SCOPE_INVALID: &'static str = "MEETING_DELIVERY_SCOPE_INVALID";
pub const MEETING_DELIVERY_PREFLIGHT_BLOCKED: &'static str = "MEETING_DELIVERY_PREFLIGHT_BLOCKED";
pub const MEETING_AGENT_DRAFT_UNAVAILABLE: &'static str = "MEETING_AGENT_DRAFT_UNAVAILABLE";
pub const MEETING_AGENT_DRAFT_STALE: &'static str = "MEETING_AGENT_DRAFT_STALE";
pub const MEETING_DELIVERY_PREVIEW_CANCELLED: &'static str = "MEETING_DELIVERY_PREVIEW_CANCELLED";
pub const MEETING_DELIVERY_APPROVAL_STALE: &'static str = "MEETING_DELIVERY_APPROVAL_STALE";
pub const MEETING_DELIVERY_PREVIEW_UNAVAILABLE: &'static str = "MEETING_DELIVERY_PREVIEW_UNAVAILABLE";
pub const MEETING_DELIVERY_DRAFT_CHANGED: &'static str = "MEETING_DELIVERY_DRAFT_CHANGED";
pub const MEETING_DELIVERY_APPROVAL_STATE_MISMATCH: &'static str =
    "MEETING_DELIVERY_APPROVAL_STATE_MISMATCH";
/// The only delivery scope there is: a local preview, never sent out.
pub const LOCAL_PREVIEW_SCOPE: &'static str = "local_preview_only";
/// How long a previewed delivery can be approved, in milliseconds.
pub const DELIVERY_APPROVAL_WINDOW_MS: u64 = 300_000;

/// Asks for a preview of delivering a draft.
#[derive(Debug)]
pub struct PreviewRequest {
    pub project_id: String,
    pub recording_id: String,
    pub request_id: String,
    pub scope: String,
    pub expected_revision: u64,
    pub draft_id: String,
    pub draft_revision: u64,
}

/// Approves a previewed delivery, naming the payload the owner saw.
#[derive(Debug)]
pub struct ApprovalRequest {
    pub project_id: String,
    pub recording_id: String,
    pub request_id: String,
    pub scope: String,
    pub expected_revision: u64,
    pub intent_id: String,
    pub approved_payload_hash: String,
}

pub struct PreviewView {
    pub intent_id: Seq<char>,
    pub payload_hash: Seq<char>,
    pub state: Seq<char>,
}

impl View for DeliveryPreview {
    type V = PreviewView;

    open spec fn view(&self) -> PreviewView {
        PreviewView {
            intent_id: self.intent_id@,
            payload_hash: self.payload_hash@,
            state: self.state@,
        }
    }
}

/// The draft held under `id`, when there is one.
pub open spec fn held_draft(s: AgentSession, id: Seq<char>) -> Option<PrivateDraft> {
    match index_of_key(s.drafts@, id) {
        Some(i) => Some(s.drafts@[i]),
        None => None,
    }
}

/// The delivery held under `id`, when there is one.
pub open spec fn held_delivery(s: AgentSession, id: Seq<char>) -> Option<RuntimeDelivery> {
    match index_of_key(s.deliveries@, id) {
        Some(i) => Some(s.deliveries@[i]),
        None => None,
    }
}

/// A draft can still be delivered: it is the revision asked for, still
/// private, and its expiry has not passed (`expiry_passed`).
pub open spec fn draft_current(d: PrivateDraft, revision: u64, expiry_passed: bool) -> bool {
    d.revision == revision && d.state@ == "private"@ && !expiry_passed
}

/// The draft under `id` can still be delivered.
pub open spec fn current_draft(s: AgentSession, id: Seq<char>, revision: u64, expiry_passed: bool) -> bool {
    match held_draft(s, id) {
        Some(d) => draft_current(d, revision, expiry_passed),
        None => false,
    }
}

/// What refuses previewing a delivery, checked in this order.
pub open spec fn preview_refusal(
    req: PreviewRequest,
    status: StatusView,
    session: Option<&AgentSession>,
    expiry_passed: bool,
) -> Option<AgentErrorView> {
    if req.scope@ != LOCAL_PREVIEW_SCOPE@ {
        Some(AgentErrorView::InvalidInput(MEETING_DELIVERY_SCOPE_INVALID@))
    } else if req.expected_revision != status.revision || status.mode != "draft"@
        || status.blockers.len() > 0 {
        Some(AgentErrorView::Refused(MEETING_DELIVERY_PREFLIGHT_BLOCKED@))
    } else {
        match session {
            None => Some(AgentErrorView::Refused(MEETING_AGENT_DRAFT_UNAVAILABLE@)),
            Some(s) => if !s.enabled_this_process {
                Some(AgentErrorView::Refused(MEETING_AGENT_RESTART_REQUIRES_REENABLE@))
            } else if !current_draft(*s, req.draft_id@, req.draft_revision, expiry_passed) {
                Some(AgentErrorView::Refused(MEETING_AGENT_DRAFT_STALE@))
            } else {
                None
            },
        }
    }
}

/// Whether a delivery preview is refused, and otherwise the draft it
/// carries. `expiry_passed` is whether that draft's expiry has passed.
pub fn check_delivery_preview_with<'a>(
    req: &PreviewRequest,
    status: &MeetingAgentStatus,
    session: Option<&'a AgentSession>,
    expiry_passed: bool,
) -> (res: Result<&'a PrivateDraft, AgentError>)
    ensures
        match preview_refusal(*req, status@, session, expiry_passed) {
            Some(e) => res matches Err(x) && x@ == e,
            None => res matches Ok(d) && held_draft(*session.unwrap(), req.draft_id@) == Some(*d),
        },
{
    if !str_eq(req.scope.as_str(), LOCAL_PREVIEW_SCOPE) {
        return Err(AgentError::InvalidInput(MEETING_DELIVERY_SCOPE_INVALID));
    }
    if req.expected_revision != status.revision || !str_eq(status.mode.as_str(), "draft")
        || status.blockers.len() > 0 {
        return Err(AgentError::Refused(MEETING_DELIVERY_PREFLIGHT_BLOCKED));
    }
    let s = match session {
        Some(s) => s,
        None => {
            return Err(AgentError::Refused(MEETING_AGENT_DRAFT_UNAVAILABLE));
        },
    };
    if !s.enabled_this_process {
        return Err(AgentError::Refused(MEETING_AGENT_RESTART_REQUIRES_REENABLE));
    }
    match find_keyed(&s.drafts, req.draft_id.as_str()) {
        Some(i) => {
            let d = &s.drafts[i];
            if d.revision == req.draft_revision && str_eq(d.state.as_str(), "private")
                && !expiry_passed {
                Ok(d)
            } else {
                Err(AgentError::Refused(MEETING_AGENT_DRAFT_STALE))
            }
        },
        None => Err(AgentError::Refused(MEETING_AGENT_DRAFT_STALE)),
    }
}

/// The draft held under `id` has expired at `now`; none held never has.
pub open spec fn held_draft_passed(s: AgentSession, id: Seq<char>, now: (i64, u32)) -> bool {
    match held_draft(s, id) {
        Some(d) => passed_at(d.expires_at@, now),
        None => false,
    }
}

pub open spec fn session_draft_passed(session: Option<&AgentSession>, id: Seq<char>, now: (i64, u32)) -> bool {
    match session {
        Some(s) => held_draft_passed(*s, id, now),
        None => false,
    }
}

/// The draft of the delivery held under `intent_id` has expired at `now`.
pub open spec fn delivery_draft_passed(session: Option<&AgentSession>, intent_id: Seq<char>, now: (i64, u32)) -> bool {
    match session {
        Some(s) => match held_delivery(*s, intent_id) {
            Some(d) => held_draft_passed(*s, d.draft_id@, now),
            None => false,
        },
        None => false,
    }
}

/// Whether the draft held under `id` has expired at `now`; `false` when
/// none is held.
fn held_draft_expired(s: &AgentSession, id: &str, now: (i64, u32)) -> (res: bool)
    ensures
        res == held_draft_passed(*s, id@, now),
{
    match find_keyed(&s.drafts, id) {
        Some(i) => expiry_passed(s.drafts[i].expires_at.as_str(), now),
        None => false,
    }
}

/// Whether a delivery preview is refused, the draft's expiry judged by the
/// clock; otherwise the draft it carries.
pub fn check_delivery_preview<'a>(
    req: &PreviewRequest,
    status: &MeetingAgentStatus,
    session: Option<&'a AgentSession>,
) -> (res: Result<&'a PrivateDraft, AgentError>)
    ensures
        exists|now: (i64, u32)|
            match preview_refusal(
                *req,
                status@,
                session,
                #[trigger] session_draft_passed(session, req.draft_id@, now),
            ) {
                Some(e) => res matches Err(x) && x@ == e,
                None => res matches Ok(d) && held_draft(*session.unwrap(), req.draft_id@) == Some(
                    *d,
                ),
            },
{
    let now = clock_instant();
    let passed = match session {
        Some(s) => held_draft_expired(s, req.draft_id.as_str(), now),
        None => false,
    };
    assert(passed == session_draft_passed(session, req.draft_id@, now));
    let res = check_delivery_preview_with(req, status, session, passed);
    assert(match preview_refusal(*req, status@, session, passed) {
        Some(e) => res matches Err(x) && x@ == e,
        None => res matches Ok(d) && held_draft(*session.unwrap(), req.draft_id@) == Some(*d),
    });
    res
}

/// The session can still take a delivery for the status it was checked
/// against.
pub open spec fn session_current(s: AgentSession, status_revision: u64) -> bool {
    may_run(s) && s.revision == status_revision
}

/// Keeps a previewed delivery once its preview is stored, open for approval
/// for `DELIVERY_APPROVAL_WINDOW_MS` from `now_ms`. Refused when the session
/// moved on meanwhile or the draft is no longer current; the session is then
/// left as it was.
pub fn record_delivery_preview_with(
    session: &mut AgentSession,
    status_revision: u64,
    draft_id: &str,
    draft_revision: u64,
    preview: DeliveryPreview,
    now_ms: u64,
    expiry_passed: bool,
) -> (res: Result<(), AgentError>)
    requires
        now_ms <= u64::MAX - DELIVERY_APPROVAL_WINDOW_MS,
    ensures
        outcome_is(
            res,
            if !session_current(*old(session), status_revision) {
                Some(AgentErrorView::Refused(MEETING_DELIVERY_PREVIEW_CANCELLED@))
            } else if !current_draft(*old(session), draft_id@, draft_revision, expiry_passed) {
                Some(AgentErrorView::Refused(MEETING_AGENT_DRAFT_STALE@))
            } else {
                None
            },
        ),
        res is Err ==> *final(session) == *old(session),
        res is Ok ==> {
            &&& same_settings(*final(session), *old(session))
            &&& final(session).active_run_id == old(session).active_run_id
            &&& final(session).run_times_ms == old(session).run_times_ms
            &&& final(session).drafts == old(session).drafts
            &&& exists|d: RuntimeDelivery|
                {
                    &&& d.preview == preview
                    &&& d.draft_id@ == draft_id@
                    &&& d.draft_revision == draft_revision
                    &&& d.expires_at_ms == now_ms + DELIVERY_APPROVAL_WINDOW_MS
                    &&& final(session).deliveries@ == stored(old(session).deliveries@, d)
                }
        },
{
    if !session.enabled_this_process || !str_eq(session.mode.as_str(), "draft") || str_eq(
        session.state.as_str(),
        "paused",
    ) || session.revision != status_revision {
        return Err(AgentError::Refused(MEETING_DELIVERY_PREVIEW_CANCELLED));
    }
    let current = match find_keyed(&session.drafts, draft_id) {
        Some(i) => session.drafts[i].revision == draft_revision && str_eq(
            session.drafts[i].state.as_str(),
            "private",
        ) && !expiry_passed,
        None => false,
    };
    if !current {
        return Err(AgentError::Refused(MEETING_AGENT_DRAFT_STALE));
    }
    let delivery = RuntimeDelivery {
        preview,
        draft_id: copy_string(draft_id),
        draft_revision,
        expires_at_ms: now_ms + DELIVERY_APPROVAL_WINDOW_MS,
    };
    let ghost d = delivery;
    store_keyed(&mut session.deliveries, delivery);
    assert(session.deliveries@ == stored(old(session).deliveries@, d));
    Ok(())
}

/// A delivery can still be approved: it carries the payload approved, waits
/// for approval, and its window is open at `now_ms`.
pub open spec fn delivery_approvable(d: RuntimeDelivery, payload_hash: Seq<char>, now_ms: u64) -> bool {
    d.preview.payload_hash@ == payload_hash && d.preview.state@ == "awaiting_approval"@
        && d.expires_at_ms > now_ms
}

/// What refuses approving a delivery, checked in this order;
/// `draft_expiry_passed` is whether the delivery's draft has expired.
pub open spec fn approval_refusal(
    req: ApprovalRequest,
    status: StatusView,
    owner_ready: bool,
    session: Option<&AgentSession>,
    now_ms: u64,
    draft_expiry_passed: bool,
) -> Option<AgentErrorView> {
    if req.scope@ != LOCAL_PREVIEW_SCOPE@ {
        Some(AgentErrorView::InvalidInput(MEETING_DELIVERY_SCOPE_INVALID@))
    } else if req.expected_revision != status.revision || status.mode != "draft"@ {
        Some(AgentErrorView::Refused(MEETING_DELIVERY_APPROVAL_STALE@))
    } else if !owner_ready {
        Some(AgentErrorView::Refused(LOCAL_OWNER_LOCKED@))
    } else {
        match session {
            None => Some(AgentErrorView::Refused(MEETING_DELIVERY_PREVIEW_UNAVAILABLE@)),
            Some(s) => if !session_current(*s, status.revision) {
                Some(AgentErrorView::Refused(MEETING_DELIVERY_APPROVAL_STALE@))
            } else {
                match held_delivery(*s, req.intent_id@) {
                    Some(d) => if !delivery_approvable(d, req.approved_payload_hash@, now_ms) {
                        Some(AgentErrorView::Refused(MEETING_DELIVERY_APPROVAL_STALE@))
                    } else if !current_draft(*s, d.draft_id@, d.draft_revision, draft_expiry_passed) {
                        Some(AgentErrorView::Refused(MEETING_DELIVERY_DRAFT_CHANGED@))
                    } else {
                        None
                    },
                    None => Some(AgentErrorView::Refused(MEETING_DELIVERY_APPROVAL_STALE@)),
                }
            },
        }
    }
}

/// Whether approving a delivery is refused, and otherwise the preview being
/// approved.
pub fn check_delivery_approval_with<'a>(
    req: &ApprovalRequest,
    status: &MeetingAgentStatus,
    owner_ready: bool,
    session: Option<&'a AgentSession>,
    now_ms: u64,
    draft_expiry_passed: bool,
) -> (res: Result<&'a DeliveryPreview, AgentError>)
    ensures
        match approval_refusal(*req, status@, owner_ready, session, now_ms, draft_expiry_passed) {
            Some(e) => res matches Err(x) && x@ == e,
            None => res matches Ok(p) && held_delivery(*session.unwrap(), req.intent_id@) matches Some(
                d,
            ) && d.preview == *p,
        },
{
    if !str_eq(req.scope.as_str(), LOCAL_PREVIEW_SCOPE) {
        return Err(AgentError::InvalidInput(MEETING_DELIVERY_SCOPE_INVALID));
    }
    if req.expected_revision != status.revision || !str_eq(status.mode.as_str(), "draft") {
        return Err(AgentError::Refused(MEETING_DELIVERY_APPROVAL_STALE));
    }
    if !owner_ready {
        return Err(AgentError::Refused(LOCAL_OWNER_LOCKED));
    }
    let s = match session {
        Some(s) => s,
        None => {
            return Err(AgentError::Refused(MEETING_DELIVERY_PREVIEW_UNAVAILABLE));
        },
    };
    if !s.enabled_this_process || !str_eq(s.mode.as_str(), "draft") || str_eq(
        s.state.as_str(),
        "paused",
    ) || s.revision != status.revision {
        return Err(AgentError::Refused(MEETING_DELIVERY_APPROVAL_STALE));
    }
    let i = match find_keyed(&s.deliveries, req.intent_id.as_str()) {
        Some(i) => i,
        None => {
            return Err(AgentError::Refused(MEETING_DELIVERY_APPROVAL_STALE));
        },
    };
    let d = &s.deliveries[i];
    if !str_eq(d.preview.payload_hash.as_str(), req.approved_payload_hash.as_str()) || !str_eq(
        d.preview.state.as_str(),
        "awaiting_approval",
    ) || d.expires_at_ms <= now_ms {
        return Err(AgentError::Refused(MEETING_DELIVERY_APPROVAL_STALE));
    }
    let current = match find_keyed(&s.drafts, d.draft_id.as_str()) {
        Some(j) => s.drafts[j].revision == d.draft_revision && str_eq(
            s.drafts[j].state.as_str(),
            "private",
        ) && !draft_expiry_passed,
        None => false,
    };
    if !current {
        return Err(AgentError::Refused(MEETING_DELIVERY_DRAFT_CHANGED));
    }
    Ok(&d.preview)
}

/// A copy of a preview.
pub fn copy_preview(p: &DeliveryPreview) -> (res: DeliveryPreview)
    ensures
        res@ == p@,
{
    DeliveryPreview {
        intent_id: p.intent_id.clone(),
        payload_hash: p.payload_hash.clone(),
        state: p.state.clone(),
    }
}

/// What refuses marking a delivery approved once the approval is stored,
/// checked in this order; `grant_passed` is whether the session's grant has
/// expired.
pub open spec fn approve_refusal(
    s: AgentSession,
    status_revision: u64,
    intent_id: Seq<char>,
    payload_hash: Seq<char>,
    now_ms: u64,
    grant_passed: bool,
) -> Option<AgentErrorView> {
    if !session_current(s, status_revision) || (s.expires_at is Some && grant_passed) {
        Some(AgentErrorView::Refused(MEETING_DELIVERY_APPROVAL_STALE@))
    } else {
        match held_delivery(s, intent_id) {
            None => Some(AgentErrorView::Refused(MEETING_DELIVERY_PREVIEW_UNAVAILABLE@)),
            Some(d) => if d.preview.payload_hash@ != payload_hash || d.expires_at_ms <= now_ms {
                Some(AgentErrorView::Refused(MEETING_DELIVERY_APPROVAL_STALE@))
            } else {
                None
            },
        }
    }
}

/// What marking a delivery approved did: refused with the session left as
/// it was, or the delivery's preview marked approved for local use only and
/// returned, nothing else changed.
pub open spec fn approve_outcome(
    before: AgentSession,
    after: AgentSession,
    res: Result<DeliveryPreview, AgentError>,
    status_revision: u64,
    intent_id: Seq<char>,
    payload_hash: Seq<char>,
    now_ms: u64,
    grant_passed: bool,
) -> bool {
    match approve_refusal(before, status_revision, intent_id, payload_hash, now_ms, grant_passed) {
        Some(e) => res matches Err(x) && x@ == e && after == before,
        None => {
            let i = index_of_key(before.deliveries@, intent_id).unwrap();
            let d = before.deliveries@[i];
            &&& res matches Ok(p) && p@ == p_view_approved(d.preview@)
            &&& same_settings(after, before)
            &&& after.active_run_id == before.active_run_id
            &&& after.run_times_ms == before.run_times_ms
            &&& after.drafts == before.drafts
            &&& after.deliveries@.len() == before.deliveries@.len()
            &&& forall|k: int|
                0 <= k < before.deliveries@.len() && k != i ==> #[trigger] after.deliveries@[k]
                    == before.deliveries@[k]
            &&& after.deliveries@[i].preview@ == p_view_approved(d.preview@)
            &&& after.deliveries@[i].draft_id == d.draft_id
            &&& after.deliveries@[i].draft_revision == d.draft_revision
            &&& after.deliveries@[i].expires_at_ms == d.expires_at_ms
        },
    }
}

/// Marks the delivery `intent_id` approved for local use only, and returns
/// its preview as approved. Refused, with the session left as it was, when
/// anything moved on since the approval was checked.
pub fn approve_delivery_with(
    session: &mut AgentSession,
    status_revision: u64,
    intent_id: &str,
    payload_hash: &str,
    now_ms: u64,
    grant_passed: bool,
) -> (res: Result<DeliveryPreview, AgentError>)
    ensures
        approve_outcome(
            *old(session),
            *final(session),
            res,
            status_revision,
            intent_id@,
            payload_hash@,
            now_ms,
            grant_passed,
        ),
{
    if !session.enabled_this_process || !str_eq(session.mode.as_str(), "draft") || str_eq(
        session.state.as_str(),
        "paused",
    ) || session.revision != status_revision || (session.expires_at.is_some() && grant_passed) {
        return Err(AgentError::Refused(MEETING_DELIVERY_APPROVAL_STALE));
    }
    let i = match find_keyed(&session.deliveries, intent_id) {
        Some(i) => i,
        None => {
            return Err(AgentError::Refused(MEETING_DELIVERY_PREVIEW_UNAVAILABLE));
        },
    };
    if !str_eq(session.deliveries[i].preview.payload_hash.as_str(), payload_hash)
        || session.deliveries[i].expires_at_ms <= now_ms {
        return Err(AgentError::Refused(MEETING_DELIVERY_APPROVAL_STALE));
    }
    let ghost before = session.deliveries@;
    let mut d = session.deliveries.remove(i);
    d.preview.state = copy_string("approved_local_only");
    let approved = copy_preview(&d.preview);
    session.deliveries.insert(i, d);
    assert forall|k: int| 0 <= k < before.len() && k != i implies #[trigger] session.deliveries@[k]
        == before[k] by {
        if k < i {
            assert(session.deliveries@[k] == before.remove(i as int)[k]);
        } else {
            assert(session.deliveries@[k] == before.remove(i as int)[k - 1]);
        }
    }
    Ok(approved)
}

pub open spec fn p_view_approved(p: PreviewView) -> PreviewView {
    PreviewView { state: "approved_local_only"@, ..p }
}

/// The stored approval and this process's agree on the intent, payload and
/// state.
pub fn check_persisted_approval(persisted: &DeliveryPreview, runtime: &DeliveryPreview) -> (res:
    Result<(), AgentError>)
    ensures
        outcome_is(
            res,
            if persisted@ == runtime@ {
                None
            } else {
                Some(AgentErrorView::Refused(MEETING_DELIVERY_APPROVAL_STATE_MISMATCH@))
            },
        ),
{
    if !str_eq(persisted.intent_id.as_str(), runtime.intent_id.as_str()) || !str_eq(
        persisted.payload_hash.as_str(),
        runtime.payload_hash.as_str(),
    ) || !str_eq(persisted.state.as_str(), runtime.state.as_str()) {
        return Err(AgentError::Refused(MEETING_DELIVERY_APPROVAL_STATE_MISMATCH));
    }
    Ok(())
}

/// Whether approving a delivery is refused, the draft's expiry judged by
/// the clock; otherwise the preview being approved.
pub fn check_delivery_approval<'a>(
    req: &ApprovalRequest,
    status: &MeetingAgentStatus,
    owner_ready: bool,
    session: Option<&'a AgentSession>,
    now_ms: u64,
) -> (res: Result<&'a DeliveryPreview, AgentError>)
    ensures
        exists|now: (i64, u32)|
            match approval_refusal(
                *req,
                status@,
                owner_ready,
                session,
                now_ms,
                #[trigger] delivery_draft_passed(session, req.intent_id@, now),
            ) {
                Some(e) => res matches Err(x) && x@ == e,
                None => res matches Ok(p) && held_delivery(*session.unwrap(), req.intent_id@) matches Some(
                    d,
                ) && d.preview == *p,
            },
{
    let now = clock_instant();
    let passed = match session {
        Some(s) => match find_keyed(&s.deliveries, req.intent_id.as_str()) {
            Some(i) => held_draft_expired(s, s.deliveries[i].draft_id.as_str(), now),
            None => false,
        },
        None => false,
    };
    assert(passed == delivery_draft_passed(session, req.intent_id@, now));
    let res = check_delivery_approval_with(req, status, owner_ready, session, now_ms, passed);
    assert(match approval_refusal(*req, status@, owner_ready, session, now_ms, passed) {
        Some(e) => res matches Err(x) && x@ == e,
        None => res matches Ok(p) && held_delivery(*session.unwrap(), req.intent_id@) matches Some(d)
            && d.preview == *p,
    });
    res
}

/// Marks the delivery `intent_id` approved for local use only, the
/// session's grant judged by the clock.
pub fn approve_delivery(
    session: &mut AgentSession,
    status_revision: u64,
    intent_id: &str,
    payload_hash: &str,
    now_ms: u64,
) -> (res: Result<DeliveryPreview, AgentError>)
    ensures
        exists|now: (i64, u32)|
            approve_outcome(
                *old(session),
                *final(session),
                res,
                status_revision,
                intent_id@,
                payload_hash@,
                now_ms,
                #[trigger] opt_passed_at(opt_chars(old(session).expires_at), now),
            ),
{
    let now = clock_instant();
    let passed = opt_expiry_passed(&session.expires_at, now);
    approve_delivery_with(session, status_revision, intent_id, payload_hash, now_ms, passed)
}

} // verus!
