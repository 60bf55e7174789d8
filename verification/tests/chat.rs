use ragent::chat::{new_message, ChatMessage, ChatRole, MessageContent, Role};

fn texts(ms: &[ChatMessage]) -> Vec<(ChatRole, String)> {
    ms.iter()
        .map(|m| match &m.content {
            MessageContent::Text(t) => (m.role, format!("text:{t}")),
            MessageContent::ImageUrl(u) => (m.role, format!("image:{u}")),
        })
        .collect()
}

#[test]
fn consecutive_text_from_one_speaker_merges() {
    let mut ms = vec![];
    new_message(&mut ms, Role::Human, MessageContent::Text("hi".into()));
    new_message(&mut ms, Role::Human, MessageContent::Text("there".into()));
    new_message(&mut ms, Role::Agent, MessageContent::Text("hello".into()));
    assert_eq!(
        texts(&ms),
        vec![
            (ChatRole::User, "text:hi\nthere".to_string()),
            (ChatRole::Assistant, "text:hello".to_string()),
        ]
    );
}

#[test]
fn only_the_latest_image_is_kept() {
    let mut ms = vec![];
    new_message(&mut ms, Role::Human, MessageContent::Text("look".into()));
    new_message(&mut ms, Role::Human, MessageContent::ImageUrl("a.png".into()));
    new_message(&mut ms, Role::Agent, MessageContent::Text("nice".into()));
    new_message(&mut ms, Role::Human, MessageContent::ImageUrl("b.png".into()));
    assert_eq!(
        texts(&ms),
        vec![
            (ChatRole::User, "text:look".to_string()),
            (ChatRole::Assistant, "text:nice".to_string()),
            (ChatRole::User, "image:b.png".to_string()),
        ]
    );
}

#[test]
fn text_after_an_image_merges_with_the_last_text() {
    let mut ms = vec![];
    new_message(&mut ms, Role::Agent, MessageContent::Text("a".into()));
    new_message(&mut ms, Role::Agent, MessageContent::ImageUrl("x".into()));
    new_message(&mut ms, Role::Agent, MessageContent::Text("b".into()));
    assert_eq!(
        texts(&ms),
        vec![
            (ChatRole::Assistant, "text:a\nb".to_string()),
            (ChatRole::Assistant, "image:x".to_string()),
        ]
    );
}

#[test]
fn histories_start_with_the_system_prompt() {
    let mut ms = ragent::chat::initial_history("You are Aura.".into());
    new_message(&mut ms, Role::Human, MessageContent::Text("hi".into()));
    assert_eq!(
        texts(&ms),
        vec![
            (ChatRole::System, "text:You are Aura.".to_string()),
            (ChatRole::User, "text:hi".to_string()),
        ]
    );
}

#[test]
fn camera_images_are_throttled() {
    let mut t = ragent::chat::ImageThrottle::new();
    assert!(t.take_image(0));
    assert!(!t.take_image(29_999_999_999));
    assert!(t.take_image(30_000_000_000));
    assert!(!t.take_image(30_000_000_001));
}

#[test]
fn images_are_sent_as_jpeg_data_urls() {
    assert_eq!(ragent::chat::jpeg_data_url(&b"hello".to_vec()), "data:image/jpeg;base64,aGVsbG8=");
    assert_eq!(ragent::chat::jpeg_data_url(&vec![]), "data:image/jpeg;base64,");
    assert_eq!(ragent::chat::jpeg_data_url_from("QQ=="), "data:image/jpeg;base64,QQ==");
}
