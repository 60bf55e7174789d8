use ragent::events::{
    camel_to_snake, event_description, get_event_name_from_type_name, get_function_prompt,
    get_task_configs_description, snake_from_flags, TaskSummary,
};

#[test]
fn event_names_drop_path_and_suffix_words() {
    assert_eq!(get_event_name_from_type_name("ragent::tasks::SpeakEventArgs"), "speak");
    assert_eq!(get_event_name_from_type_name("ragent::tasks::SpeakResultEventArgs"), "speak_result");
    assert_eq!(get_event_name_from_type_name("VoiceEventArgs"), "voice");
    assert_eq!(get_event_name_from_type_name("a::SpeakEvent"), "speak");
    assert_eq!(get_event_name_from_type_name("a::b::ImageResultEvent"), "image_result");
}

#[test]
fn camel_case_becomes_snake_case() {
    assert_eq!(camel_to_snake("SpeakResult"), "speak_result");
    assert_eq!(camel_to_snake("wait"), "wait");
    assert_eq!(camel_to_snake("ABC"), "a_b_c");
    assert_eq!(camel_to_snake(""), "");
    assert_eq!(camel_to_snake("ÉtéX"), "été_x");
}

#[test]
fn snake_case_from_case_facts() {
    let cs = vec!['A', 'b', 'C'];
    assert_eq!(snake_from_flags(&cs, &vec![true, false, true], &vec!['a', 'b', 'c']), "ab_c");
    assert_eq!(snake_from_flags(&cs, &vec![false, false, false], &vec!['x', 'y', 'z']), "xyz");
}

#[test]
fn events_are_described_as_calls() {
    assert_eq!(
        event_description("voice", &vec![Some("alice".into()), None, Some("Hi".into())]),
        "voice(\"alice\", \"\", \"Hi\")"
    );
    assert_eq!(event_description("wait", &vec![]), "wait()");
}

fn task(name: &str, params: &[&str], description: &str, is_available: bool) -> TaskSummary {
    TaskSummary {
        name: name.into(),
        description: description.into(),
        parameters: params.iter().map(|p| p.to_string()).collect(),
        is_available,
    }
}

#[test]
fn tasks_are_described_one_paragraph_each() {
    let ts = vec![
        task("speak", &["text"], "Speaks text", true),
        task("voice", &["voice_name", "emotion", "text"], "Speaks with a voice", true),
    ];
    assert_eq!(
        get_task_configs_description(&ts),
        "speak(<text>) - Speaks text\n\nvoice(<voice_name>, <emotion>, <text>) - Speaks with a voice"
    );
    assert_eq!(get_task_configs_description(&vec![]), "");
}

#[test]
fn the_prompt_lists_available_tasks_first() {
    let ts = vec![
        task("wait", &[], "Waits", true),
        task("speak_result", &["asset_id"], "Audio", false),
    ];
    let p = get_function_prompt(&ts);
    assert!(p.starts_with("\n# You are an agent that has the following functions available:\n\nwait() - Waits\n\n# When you call a function"));
    assert!(p.ends_with("the following functions:\n\nspeak_result(<asset_id>) - Audio"));
}
