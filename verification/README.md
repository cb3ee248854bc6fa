# fung

The decision logic of the FUNG desktop recorder, written in Verus and
proved against its contracts.

- `src/` is the verified library:
  - `live_meeting` cuts the capture stream into durable slices, names and
    reads them back, keeps each track's coverage ledger, gathers, plans and
    settles transcript revisions, and decides which slices still need text;
  - `live_transcript` schedules rolling decode windows and tracks
    provisional hypotheses until they are stable enough to commit;
  - `local_api` frames HTTP requests, routes them, serves byte ranges,
    stitches WAV slices and lists recordings;
  - `local_diarization` projects diarization turns from a concatenated file
    back onto the recording's timeline;
  - `meeting_agent` derives the meeting agent's status and checks every
    command it takes: asking, runs and their rate limits, drafts, policy
    changes, delivery previews and approvals;
  - `coordinator` decides what each capture event of a live session sets in
    motion (the ledger first, transcription after it, a failed transcriber
    only degrading the session); `catch_up` walks the audio still without a
    transcript once a revisioned meeting ends; `detailed` turns a second,
    slower transcription into proposals for the segments it changes;
  - `transcript` orders a recording's segments for display and plans manual
    corrections and their proposal and audit rows; `jobs` lists background jobs and records status changes;
    `projects` places a new project's files and renames placeholders;
  - `worker`, `media_fetch`, `dotenv`, `paths` and `text` hold the runtime
    paths, readiness rules and the text helpers.
  Each module states its laws as public proof functions named `law_*`.
- `tests/` runs the library on concrete values.
- `app/` is the ordinary Rust around it: environment, sockets, files, WAV
  I/O, the JSON shapes exchanged with the UI and the workers, and the loops
  that carry out the coordinator's and the catch-up pass's actions.
