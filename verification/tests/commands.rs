use ragent::commands::{
    get_commands, parse_arguments, plan_output_tasks, process_speech, try_parse_arguments, Call, SpeechPrefix,
};

fn strings(v: &[&str]) -> Vec<String> {
    v.iter().map(|s| s.to_string()).collect()
}

fn call(c: &Call) -> (String, Vec<String>) {
    (c.name.clone(), c.args.clone())
}

#[test]
fn complete_calls_and_dangling_text_are_separated() {
    let (tasks, dangling) = get_commands("speak(\"Hello!\") emote(\"happy\") speak(\"unfin");
    assert_eq!(tasks, strings(&["speak(\"Hello!\")", "emote(\"happy\")"]));
    assert_eq!(dangling, "speak(\"unfin");
}

#[test]
fn parentheses_inside_quotes_do_not_close_a_call() {
    let (tasks, dangling) = get_commands("speak(\"a (b) c\") ");
    assert_eq!(tasks, strings(&["speak(\"a (b) c\")"]));
    assert_eq!(dangling, "");
}

#[test]
fn leading_whitespace_and_parenthesis_are_ignored() {
    let (tasks, dangling) = get_commands("  (emote(\"sad\")");
    assert_eq!(tasks, strings(&["emote(\"sad\")"]));
    assert_eq!(dangling, "");
}

#[test]
fn arguments_are_split_on_unquoted_commas_and_trimmed() {
    assert_eq!(
        parse_arguments("\"a\", 'b, c', d"),
        strings(&["a", "b, c", "d"])
    );
    assert_eq!(parse_arguments("\"x\""), strings(&["x"]));
    assert_eq!(parse_arguments(""), Vec::<String>::new());
}

#[test]
fn unreadable_argument_lists_are_refused() {
    assert_eq!(try_parse_arguments(",x"), None);
    assert_eq!(try_parse_arguments(","), None);
    assert_eq!(try_parse_arguments("\"a\" ','"), Some(strings(&["a ,"])));
    assert_eq!(try_parse_arguments("',"), None);
}

#[test]
fn speech_is_spoken_sentence_by_sentence() {
    let (calls, rest) = process_speech(&"speak".to_string(), &strings(&["Hello there. How are"]));
    assert_eq!(
        calls.iter().map(call).collect::<Vec<_>>(),
        vec![("speak".to_string(), strings(&["Hello there."]))]
    );
    assert_eq!(rest, "speak(\"How are");
}

#[test]
fn voice_speech_keeps_its_other_arguments() {
    let (calls, rest) =
        process_speech(&"voice".to_string(), &strings(&["alice", "happy", "Hi! Bye"]));
    assert_eq!(
        calls.iter().map(call).collect::<Vec<_>>(),
        vec![("voice".to_string(), strings(&["alice", "happy", "Hi!"]))]
    );
    assert_eq!(rest, "voice(\"alice\", \"happy\", \"Bye");
}

#[test]
fn punctuation_only_sentences_are_not_spoken() {
    let (calls, rest) = process_speech(&"speak".to_string(), &strings(&["... ok"]));
    assert!(calls.is_empty());
    assert_eq!(rest, "speak(\"... ok");
}

#[test]
fn output_plan_calls_tasks_and_speaks_dangling_speech() {
    let (calls, kept) = plan_output_tasks(
        "emote(\"happy\") speak(\"Hello. Wor",
        false,
        SpeechPrefix::Quoted,
    );
    assert_eq!(
        calls.iter().map(call).collect::<Vec<_>>(),
        vec![
            ("emote".to_string(), strings(&["happy"])),
            ("speak".to_string(), strings(&["Hello."])),
        ]
    );
    assert_eq!(kept.as_deref(), Some("speak(\"Wor"));
}

#[test]
fn output_end_closes_the_last_call() {
    let (calls, kept) = plan_output_tasks("emote(\"x\"", true, SpeechPrefix::Quoted);
    assert_eq!(
        calls.iter().map(call).collect::<Vec<_>>(),
        vec![("emote".to_string(), strings(&["x"]))]
    );
    assert_eq!(kept.as_deref(), Some(""));
}

#[test]
fn bare_text_with_a_space_becomes_speech() {
    let (calls, kept) = plan_output_tasks("\n Hello there friend", false, SpeechPrefix::Quoted);
    assert!(calls.is_empty());
    assert_eq!(kept.as_deref(), Some("speak(\"Hello there friend"));
    let (_, kept) = plan_output_tasks("Hello there", false, SpeechPrefix::Bare);
    assert_eq!(kept.as_deref(), Some("speak(\"Hello there"));
    let (calls, kept) = plan_output_tasks("Hi there. more", false, SpeechPrefix::Defaulted);
    assert_eq!(
        calls.iter().map(call).collect::<Vec<_>>(),
        vec![("speak".to_string(), strings(&["default", "default", "Hi there."]))]
    );
    assert_eq!(kept.as_deref(), Some("speak(\"default\", \"default\", \"more"));
}

#[test]
fn empty_output_plans_nothing() {
    let (calls, kept) = plan_output_tasks("", true, SpeechPrefix::Quoted);
    assert!(calls.is_empty());
    assert_eq!(kept.as_deref(), Some(""));
}

#[test]
fn speech_without_arguments_cannot_be_read() {
    let (calls, kept) = plan_output_tasks("emote(\"a\") speak() emote(\"b\")", false, SpeechPrefix::Quoted);
    assert_eq!(
        calls.iter().map(call).collect::<Vec<_>>(),
        vec![("emote".to_string(), strings(&["a"]))]
    );
    assert_eq!(kept, None);
}

#[test]
fn streamed_responses_are_read_chunk_by_chunk() {
    let mut s = ragent::commands::ResponseStream::new(SpeechPrefix::Quoted);
    let (calls, ok) = s.feed("emote(\"ha");
    assert!(ok && calls.is_empty());
    let (calls, ok) = s.feed("ppy\") speak(\"One. Tw");
    assert!(ok);
    assert_eq!(
        calls.iter().map(call).collect::<Vec<_>>(),
        vec![
            ("emote".to_string(), strings(&["happy"])),
            ("speak".to_string(), strings(&["One."])),
        ]
    );
    let (calls, ok) = s.feed("o.\"");
    assert!(ok);
    assert_eq!(calls.iter().map(call).collect::<Vec<_>>(), vec![("speak".to_string(), strings(&["Two."]))]);
    let (calls, ok) = s.finish();
    assert!(ok);
    assert!(calls.is_empty());
}
