use ragent::chat::ImageThrottle;
use ragent::routing::{
    deliver_speech, route_audio, route_input, route_output, song_path, transcript_line, AudioRoute,
    InputAction, OutputAction, OutputKind,
};

#[test]
fn only_own_running_outputs_are_voiced() {
    assert_eq!(route_output(true, None, OutputKind::Speak), OutputAction::Synthesize);
    assert_eq!(route_output(true, Some(true), OutputKind::Sing), OutputAction::PlaySong);
    assert_eq!(route_output(true, Some(false), OutputKind::Speak), OutputAction::Ignore);
    assert_eq!(route_output(false, Some(true), OutputKind::Speak), OutputAction::Ignore);
    assert_eq!(route_output(true, Some(true), OutputKind::Other), OutputAction::Ignore);
    assert!(deliver_speech(false, true));
    assert!(!deliver_speech(true, true));
    assert!(!deliver_speech(false, false));
}

#[test]
fn song_names_become_asset_paths() {
    assert_eq!(song_path("never gonna give"), "assets/songs/never_gonna_give_anatra.wav");
    assert_eq!(song_path(""), "assets/songs/_anatra.wav");
}

#[test]
fn inputs_enter_the_conversation_by_kind() {
    let mut t = ImageThrottle::new();
    assert_eq!(route_input(true, true, true, &mut t, 0), InputAction::Ignore);
    assert_eq!(route_input(false, true, false, &mut t, 0), InputAction::AddImage);
    assert_eq!(route_input(false, true, false, &mut t, 1), InputAction::Ignore);
    assert_eq!(route_input(false, false, true, &mut t, 1), InputAction::AddTextAndRespond);
    assert_eq!(route_input(false, false, false, &mut t, 1), InputAction::Ignore);
}

#[test]
fn space_transcripts_name_their_speaker() {
    assert_eq!(transcript_line(false, Some("2"), "hello"), "[Speaker:2] hello");
    assert_eq!(transcript_line(false, None, "hello"), "[Speaker:Uknown] hello");
    assert_eq!(transcript_line(true, Some("2"), "hello"), "hello");
    assert_eq!(route_audio(false, true), AudioRoute::Drop);
    assert_eq!(route_audio(true, true), AudioRoute::UserTranscriber);
    assert_eq!(route_audio(true, false), AudioRoute::SpaceTranscriber);
}
