use vstd::prelude::*;

pub mod text;
pub mod paths;
pub mod live_transcript;
pub mod local_diarization;
pub mod local_api;
pub mod worker;
pub mod dotenv;
pub mod meeting_agent;
pub mod transcript;
pub mod jobs;
pub mod projects;
pub mod detailed;
pub mod coordinator;
pub mod catch_up;
pub mod media_fetch;
pub mod live_meeting;

verus! {

/// The current UTC time as RFC 3339 text (`chrono::Utc::now` formatted by
/// `to_rfc3339`). It depends on the clock, so nothing is promised of it.
#[verifier::external_body]
pub(crate) fn now() -> String {
    chrono::Utc::now().to_rfc3339()
}

} // verus!
