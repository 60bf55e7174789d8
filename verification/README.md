# ragent

Building blocks of a voice agent, written in Verus with their behaviour
stated in contracts and proved.

`src/` is the verified library:

- `timeline`, `diarization`, `live`, `intake`, `transcripts`: where audio sits
  on the source timeline, which speaker label a transcript span gets, the live
  diarizer's turn protocol and pacing, and the pipeline's audio intake.
- `turns`, `fusion`, `unknown`, `gallery`, `store`: the identity session's
  bookkeeping: replay protection and session scoping, when acoustic evidence
  may commit an identity, unknown voices offered for enrollment, the enrolled
  gallery and its snapshot location.
- `text`, `text_patterns`, `commands`, `chat`, `events`, `routing`, `json`:
  the agent's streamed call language, speech splitting, conversation history,
  event names and descriptions, and which events the agent acts on.
- `wav`, `audio_buffer`, `remote`, `memory`, `asset`: small formats and
  helpers.

`app/` holds what the library leaves to its host: floating-point audio and
score arithmetic, the async pipeline tasks, HTTP and websocket clients, and the
profile store on disk. `tests/` exercises the library.
