use ragent::text_patterns::{
    command_name, find_sentences, is_speakable_sentence, split_sentences, split_speech,
};

#[test]
fn command_prefix_preserves_streaming_and_unicode_boundaries() {
    for (text, expected) in [
        ("speak(\"hello\")", Some("speak")),
        ("speak(\"unfinished", Some("speak")),
        ("\nspeak(", Some("speak")),
        ("first\nsecond(", Some("second")),
        (" first(another(", Some(" first")),
        ("話す(\"こんにちは\")", Some("話す")),
        ("(", Some("")),
        ("unfinished", None),
    ] {
        assert_eq!(command_name(text), expected, "{text:?}");
    }
}

#[test]
fn sentences_leave_unterminated_stream_tail_unmatched() {
    let text = "Hello!世界。 Really?\r\nYes. unfinished";
    let sentences = find_sentences(text);
    assert_eq!(sentences, ["Hello!", "世界。 Really?", "\r\n", "Yes."]);
    assert_eq!(find_sentences("unfinished").len(), 0);
}

#[test]
fn sentence_split_preserves_unicode_and_exact_tail() {
    let text = "你好!Café? final tail";
    let (sentences, tail) = split_sentences(text);
    assert_eq!(sentences, ["你好!", "Café?"]);
    assert_eq!(tail, " final tail");
}

#[test]
fn complete_speech_flushes_unpunctuated_tail() {
    let (sentences, tail) = split_speech("Hello there", true);
    assert_eq!(sentences, ["Hello there"]);
    assert_eq!(tail, "");
}

#[test]
fn streaming_speech_retains_unpunctuated_tail() {
    let (sentences, tail) = split_speech("Hello wor", false);
    assert!(sentences.is_empty());
    assert_eq!(tail, "Hello wor");
}

#[test]
fn crlf_is_one_delimiter_and_whitespace_is_not_speakable() {
    let (sentences, tail) = split_sentences("Hello\r\nworld");
    assert_eq!(sentences, ["Hello\r\n"]);
    assert_eq!(tail, "world");
    assert!(!is_speakable_sentence(" \r\n "));
}

#[test]
fn apostrophes_and_unicode_sentence_punctuation_are_preserved() {
    let (sentences, tail) = split_speech("HERE'S a poem!こんにちは。次です！", true);
    assert_eq!(sentences, ["HERE'S a poem!", "こんにちは。", "次です！"]);
    assert_eq!(tail, "");
}

#[test]
fn whitespace_tail_is_not_flushed() {
    let (sentences, tail) = split_speech("Done. \n", true);
    assert_eq!(sentences, ["Done.", " \n"]);
    assert_eq!(tail, "");
    let (sentences, tail) = split_speech("Done.  ", true);
    assert_eq!(sentences, ["Done."]);
    assert_eq!(tail, "  ");
}

#[test]
fn punctuation_only_sentences_are_not_speakable() {
    assert!(!is_speakable_sentence(" ... "));
    assert!(!is_speakable_sentence("？！"));
    assert!(is_speakable_sentence(" Hi. "));
    assert!(is_speakable_sentence(". , ."));
}

#[test]
fn full_width_stop_before_text_closes_sentence() {
    assert_eq!(find_sentences("はい。いいえ"), ["はい。"]);
    assert_eq!(find_sentences("はい。 いいえ。"), ["はい。 いいえ。"]);
    assert_eq!(find_sentences("a\rb"), ["a\r"]);
}

#[test]
fn splitting_keeps_the_text_exactly() {
    for input in ["Hello!世界。 Really?\r\nYes. unfinished", "no stop at all", "", "a.b.c.", "x\r\ny\n"] {
        let (sentences, tail) = split_sentences(input);
        let mut joined: String = sentences.concat();
        joined.push_str(tail);
        assert_eq!(joined, input);
    }
}

#[test]
fn full_width_exclamation_and_question_close_before_whitespace() {
    let (sentences, tail) = split_sentences("a！ b");
    assert_eq!(sentences, ["a！"]);
    assert_eq!(tail, " b");
    let (sentences, tail) = split_sentences("本当？ はい");
    assert_eq!(sentences, ["本当？"]);
    assert_eq!(tail, " はい");
}
