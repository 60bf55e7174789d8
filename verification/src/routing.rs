//! What the agent does with the events it sees: which of its own outputs
//! are voiced or sung, and which inputs enter its conversation.
use crate::chat::ImageThrottle;
use crate::text::{chars_of, push_char};
use vstd::prelude::*;

verus! {

/// The kind of an event the agent itself produced.
#[derive(Clone, Copy, Debug, PartialEq, Eq, Structural)]
pub enum OutputKind {
    Speak,
    Sing,
    Other,
}

/// What the agent does with one of its output events.
#[derive(Clone, Copy, Debug, PartialEq, Eq, Structural)]
pub enum OutputAction {
    Ignore,
    /// Forward the speech and synthesize it with the agent's voice.
    Synthesize,
    /// Play the named song.
    PlaySong,
}

/// An output event is acted on only when its response context (if it has
/// one) is still running and the agent itself produced it.
pub open spec fn spec_route_output(from_self: bool, context_running: Option<bool>, kind: OutputKind) -> OutputAction {
    if context_running == Some(false) || !from_self {
        OutputAction::Ignore
    } else {
        match kind {
            OutputKind::Speak => OutputAction::Synthesize,
            OutputKind::Sing => OutputAction::PlaySong,
            OutputKind::Other => OutputAction::Ignore,
        }
    }
}

pub fn route_output(from_self: bool, context_running: Option<bool>, kind: OutputKind) -> (r: OutputAction)
    ensures
        r == spec_route_output(from_self, context_running, kind),
{
    if context_running == Some(false) || !from_self {
        return OutputAction::Ignore;
    }
    match kind {
        OutputKind::Speak => OutputAction::Synthesize,
        OutputKind::Sing => OutputAction::PlaySong,
        OutputKind::Other => OutputAction::Ignore,
    }
}

/// Synthesized speech is played only when it has audio and its response is
/// still running.
pub fn deliver_speech(asset_empty: bool, context_running: bool) -> (r: bool)
    ensures
        r == (!asset_empty && context_running),
{
    !asset_empty && context_running
}

/// Where a song's audio lives: spaces in its name become underscores.
pub open spec fn spec_song_path(name: Seq<char>) -> Seq<char> {
    "assets/songs/"@ + Seq::new(name.len(), |i: int| if name[i] == ' ' { '_' } else { name[i] })
        + "_anatra.wav"@
}

pub fn song_path(song_name: &str) -> (r: String)
    ensures
        r@ == spec_song_path(song_name@),
{
    let v = chars_of(song_name);
    let mut s = String::from_str("assets/songs/");
    let ghost base = s@;
    let mut i: usize = 0;
    while i < v.len()
        invariant
            i <= v@.len(),
            v@ == song_name@,
            s@ == base + Seq::new(i as nat, |k: int| if v@[k] == ' ' { '_' } else { v@[k] }),
        decreases v@.len() - i,
    {
        let c = if v[i] == ' ' {
            '_'
        } else {
            v[i]
        };
        push_char(&mut s, c);
        i = i + 1;
        assert(s@ =~= base + Seq::new(i as nat, |k: int| if v@[k] == ' ' { '_' } else { v@[k] }));
    }
    s.append("_anatra.wav");
    s
}

/// What the agent does with an input event.
#[derive(Clone, Copy, Debug, PartialEq, Eq, Structural)]
pub enum InputAction {
    Ignore,
    /// Add the image to the conversation without answering.
    AddImage,
    /// Add the event's description to the conversation and answer.
    AddTextAndRespond,
}

/// Inputs from the agent itself are ignored; images are taken at most
/// every thirty seconds; other events only when they name a task the agent
/// knows.
pub fn route_input(
    from_self: bool,
    is_image: bool,
    known_task: bool,
    throttle: &mut ImageThrottle,
    now_ns: u64,
) -> (r: InputAction)
    ensures
        from_self ==> r == InputAction::Ignore && final(throttle).last() == old(throttle).last(),
        !from_self && is_image ==> {
            let taken = !(old(throttle).last() matches Some(t) && crate::fusion::elapsed(now_ns, t)
                < crate::chat::IMAGE_INTERVAL_NS);
            &&& r == (if taken {
                InputAction::AddImage
            } else {
                InputAction::Ignore
            })
            &&& final(throttle).last() == (if taken {
                Some(now_ns)
            } else {
                old(throttle).last()
            })
        },
        !from_self && !is_image ==> final(throttle).last() == old(throttle).last() && r == (if known_task {
            InputAction::AddTextAndRespond
        } else {
            InputAction::Ignore
        }),
{
    if from_self {
        return InputAction::Ignore;
    }
    if is_image {
        if throttle.take_image(now_ns) {
            InputAction::AddImage
        } else {
            InputAction::Ignore
        }
    } else if known_task {
        InputAction::AddTextAndRespond
    } else {
        InputAction::Ignore
    }
}

/// The text of a space transcript: the diarizer's speaker, or the marker
/// `Uknown` when there is none, in brackets before the words. A transcript
/// of one user's own microphone is passed as it is.
pub open spec fn spec_transcript_line(for_user: bool, speaker: Option<Seq<char>>, transcript: Seq<char>) -> Seq<char> {
    if for_user {
        transcript
    } else {
        "[Speaker:"@ + match speaker {
            Some(s) => s,
            None => "Uknown"@,
        } + "] "@ + transcript
    }
}

pub fn transcript_line(for_user: bool, speaker: Option<&str>, transcript: &str) -> (r: String)
    ensures
        r@ == spec_transcript_line(
            for_user,
            match speaker {
                Some(s) => Some(s@),
                None => None,
            },
            transcript@,
        ),
{
    if for_user {
        return String::from_str(transcript);
    }
    let mut s = String::from_str("[Speaker:");
    match speaker {
        Some(x) => s.append(x),
        None => s.append("Uknown"),
    }
    s.append("] ");
    s.append(transcript);
    s
}

/// Where a space sends audio a participant spoke.
#[derive(Clone, Copy, Debug, PartialEq, Eq, Structural)]
pub enum AudioRoute {
    /// Transcription is off: the audio is dropped.
    Drop,
    /// To the transcriber of the speaking user (started on first use).
    UserTranscriber,
    /// To the space's own transcriber, when the speaker is not known.
    SpaceTranscriber,
}

pub fn route_audio(use_transcribers: bool, speaker_known: bool) -> (r: AudioRoute)
    ensures
        r == (if !use_transcribers {
            AudioRoute::Drop
        } else if speaker_known {
            AudioRoute::UserTranscriber
        } else {
            AudioRoute::SpaceTranscriber
        }),
{
    if !use_transcribers {
        AudioRoute::Drop
    } else if speaker_known {
        AudioRoute::UserTranscriber
    } else {
        AudioRoute::SpaceTranscriber
    }
}

} // verus!
