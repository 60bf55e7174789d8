//! The agent's conversation history: consecutive text from one speaker is
//! kept as one message, and at most the latest image stays in context.
use crate::fusion::elapsed;
use crate::text::push_char;
use base64::Engine;
use vstd::prelude::*;

verus! {

/// Who said something, as the agent sees it.
#[derive(Clone, Copy, Debug, PartialEq, Eq, Structural)]
pub enum Role {
    Human,
    Agent,
}

/// The role a message has in the chat-completion history.
#[derive(Clone, Copy, Debug, PartialEq, Eq, Structural)]
pub enum ChatRole {
    System,
    Assistant,
    User,
}

/// What a message holds.
#[derive(Clone, Debug)]
pub enum MessageContent {
    Text(String),
    ImageUrl(String),
}

/// One message of the history.
#[derive(Clone, Debug)]
pub struct ChatMessage {
    pub role: ChatRole,
    pub content: MessageContent,
}

/// A message as (role, whether it is text, its text or image URL).
pub type MessageView = (ChatRole, bool, Seq<char>);

pub open spec fn content_view(c: MessageContent) -> (bool, Seq<char>) {
    match c {
        MessageContent::Text(t) => (true, t@),
        MessageContent::ImageUrl(u) => (false, u@),
    }
}

pub open spec fn message_view(m: ChatMessage) -> MessageView {
    (m.role, content_view(m.content).0, content_view(m.content).1)
}

pub open spec fn history_view(ms: Seq<ChatMessage>) -> Seq<MessageView> {
    ms.map_values(|m: ChatMessage| message_view(m))
}

pub open spec fn chat_role(r: Role) -> ChatRole {
    match r {
        Role::Agent => ChatRole::Assistant,
        Role::Human => ChatRole::User,
    }
}

/// Index of the last text message among the first `n`.
pub open spec fn last_text(ms: Seq<MessageView>, n: int) -> Option<int>
    decreases n,
{
    if n <= 0 {
        None
    } else if ms[n - 1].1 {
        Some(n - 1)
    } else {
        last_text(ms, n - 1)
    }
}

/// The text messages, in order.
pub open spec fn text_only(ms: Seq<MessageView>) -> Seq<MessageView>
    decreases ms.len(),
{
    if ms.len() == 0 {
        Seq::empty()
    } else if ms.last().1 {
        text_only(ms.drop_last()).push(ms.last())
    } else {
        text_only(ms.drop_last())
    }
}

/// Adding a message: text from the speaker of the last text message is
/// appended to that message on a new line; other text is a new message.
/// An image drops every earlier image and is added last.
pub open spec fn spec_new_message(ms: Seq<MessageView>, role: Role, content: (bool, Seq<char>)) -> Seq<
    MessageView,
> {
    let r = chat_role(role);
    if content.0 {
        match last_text(ms, ms.len() as int) {
            Some(i) => if ms[i].0 == r {
                ms.update(i, (r, true, ms[i].2 + seq!['\n'] + content.1))
            } else {
                ms.push((r, true, content.1))
            },
            None => ms.push((r, true, content.1)),
        }
    } else {
        text_only(ms).push((r, false, content.1))
    }
}

proof fn lemma_last_text(ms: Seq<MessageView>, n: int)
    requires
        n <= ms.len(),
    ensures
        last_text(ms, n) matches Some(i) ==> 0 <= i < n && ms[i].1,
    decreases n,
{
    if n > 0 && !ms[n - 1].1 {
        lemma_last_text(ms, n - 1);
    }
}

fn last_text_index(ms: &Vec<ChatMessage>) -> (r: Option<usize>)
    ensures
        match r {
            Some(i) => last_text(history_view(ms@), ms@.len() as int) == Some(i as int) && i
                < ms@.len(),
            None => last_text(history_view(ms@), ms@.len() as int) is None,
        },
{
    let ghost h = history_view(ms@);
    let mut n = ms.len();
    while n > 0
        invariant
            n <= ms@.len(),
            h == history_view(ms@),
            last_text(h, ms@.len() as int) == last_text(h, n as int),
        decreases n,
    {
        let is_text = match &ms[n - 1].content {
            MessageContent::Text(_) => true,
            MessageContent::ImageUrl(_) => false,
        };
        assert(h[n - 1] == message_view(ms@[n - 1]));
        if is_text {
            return Some(n - 1);
        }
        n = n - 1;
    }
    None
}

/// Adds a message to the history.
pub fn new_message(messages: &mut Vec<ChatMessage>, role: Role, content: MessageContent)
    ensures
        history_view(final(messages)@) == spec_new_message(
            history_view(old(messages)@),
            role,
            content_view(content),
        ),
{
    let r = match role {
        Role::Agent => ChatRole::Assistant,
        Role::Human => ChatRole::User,
    };
    let ghost h = history_view(messages@);
    match content {
        MessageContent::Text(text) => {
            match last_text_index(messages) {
                Some(i) => {
                    proof {
                        lemma_last_text(h, h.len() as int);
                        assert(h[i as int] == message_view(messages@[i as int]));
                    }
                    if messages[i].role == r {
                        let mut merged = match &messages[i].content {
                            MessageContent::Text(t) => t.clone(),
                            MessageContent::ImageUrl(u) => u.clone(),
                        };
                        assert(merged@ == h[i as int].2);
                        push_char(&mut merged, '\n');
                        merged.append(text.as_str());
                        assert(merged@ =~= h[i as int].2 + seq!['\n'] + text@);
                        messages.set(i, ChatMessage { role: r, content: MessageContent::Text(merged) });
                        assert(history_view(messages@) =~= h.update(
                            i as int,
                            (r, true, h[i as int].2 + seq!['\n'] + text@),
                        ));
                        return;
                    }
                },
                None => {},
            }
            let ghost t = text@;
            messages.push(ChatMessage { role: r, content: MessageContent::Text(text) });
            assert(history_view(messages@) =~= h.push((r, true, t)));
        },
        MessageContent::ImageUrl(url) => {
            let mut kept: Vec<ChatMessage> = Vec::new();
            let mut i: usize = 0;
            while i < messages.len()
                invariant
                    i <= messages@.len(),
                    h == history_view(messages@),
                    history_view(kept@) == text_only(h.take(i as int)),
                decreases messages@.len() - i,
            {
                assert(h.take(i + 1).drop_last() =~= h.take(i as int));
                assert(h.take(i + 1).last() == message_view(messages@[i as int]));
                let is_text = match &messages[i].content {
                    MessageContent::Text(_) => true,
                    MessageContent::ImageUrl(_) => false,
                };
                if is_text {
                    let m = messages[i].clone_message();
                    let ghost before = kept@;
                    kept.push(m);
                    assert(history_view(kept@) =~= history_view(before).push(h[i as int]));
                }
                i = i + 1;
            }
            assert(h.take(i as int) =~= h);
            let ghost u = url@;
            kept.push(ChatMessage { role: r, content: MessageContent::ImageUrl(url) });
            assert(history_view(kept@) =~= text_only(h).push((r, false, u)));
            *messages = kept;
        },
    }
}

impl ChatMessage {
    pub fn clone_message(&self) -> (r: ChatMessage)
        ensures
            message_view(r) == message_view(*self),
    {
        let content = match &self.content {
            MessageContent::Text(t) => MessageContent::Text(t.clone()),
            MessageContent::ImageUrl(u) => MessageContent::ImageUrl(u.clone()),
        };
        ChatMessage { role: self.role, content }
    }
}

/// How many image messages the history holds.
pub open spec fn image_count(ms: Seq<MessageView>) -> nat
    decreases ms.len(),
{
    if ms.len() == 0 {
        0
    } else {
        image_count(ms.drop_last()) + if ms.last().1 {
            0nat
        } else {
            1nat
        }
    }
}

proof fn lemma_text_only_no_images(ms: Seq<MessageView>)
    ensures
        image_count(text_only(ms)) == 0,
    decreases ms.len(),
{
    if ms.len() > 0 {
        lemma_text_only_no_images(ms.drop_last());
        if ms.last().1 {
            assert(text_only(ms).drop_last() =~= text_only(ms.drop_last()));
        }
    }
}

proof fn lemma_update_text_keeps_count(ms: Seq<MessageView>, i: int, m: MessageView)
    requires
        0 <= i < ms.len(),
        ms[i].1,
        m.1,
    ensures
        image_count(ms.update(i, m)) == image_count(ms),
    decreases ms.len(),
{
    if i < ms.len() - 1 {
        assert(ms.update(i, m).drop_last() =~= ms.drop_last().update(i, m));
        lemma_update_text_keeps_count(ms.drop_last(), i, m);
    } else {
        assert(ms.update(i, m).drop_last() =~= ms.drop_last());
    }
}

/// The history keeps at most one image: adding an image leaves exactly
/// that one, as the last message, and adding text never adds an image.
pub proof fn lemma_at_most_one_image(ms: Seq<MessageView>, role: Role, content: (bool, Seq<char>))
    requires
        image_count(ms) <= 1,
    ensures
        image_count(spec_new_message(ms, role, content)) <= 1,
        !content.0 ==> image_count(spec_new_message(ms, role, content)) == 1 && spec_new_message(
            ms,
            role,
            content,
        ).last() == (chat_role(role), false, content.1),
        content.0 ==> image_count(spec_new_message(ms, role, content)) == image_count(ms),
{
    let r = chat_role(role);
    if content.0 {
        lemma_last_text(ms, ms.len() as int);
        match last_text(ms, ms.len() as int) {
            Some(i) => if ms[i].0 == r {
                lemma_update_text_keeps_count(ms, i, (r, true, ms[i].2 + seq!['\n'] + content.1));
            } else {
                assert(ms.push((r, true, content.1)).drop_last() =~= ms);
            },
            None => {
                assert(ms.push((r, true, content.1)).drop_last() =~= ms);
            },
        }
    } else {
        lemma_text_only_no_images(ms);
        assert(text_only(ms).push((r, false, content.1)).drop_last() =~= text_only(ms));
    }
}

/// Consecutive text from one speaker stays one message: when the last text
/// message is that speaker's, adding text grows it instead of the history.
pub proof fn lemma_same_speaker_merges(ms: Seq<MessageView>, role: Role, text: Seq<char>)
    requires
        last_text(ms, ms.len() as int) matches Some(i) && ms[i].0 == chat_role(role),
    ensures
        spec_new_message(ms, role, (true, text)).len() == ms.len(),
        ({
            let i = last_text(ms, ms.len() as int).unwrap();
            spec_new_message(ms, role, (true, text))[i].2 == ms[i].2 + seq!['\n'] + text
        }),
{
    lemma_last_text(ms, ms.len() as int);
}

/// A space's history starts with the agent's description as the system
/// message.
pub fn initial_history(system_prompt: String) -> (r: Vec<ChatMessage>)
    ensures
        history_view(r@) == seq![(ChatRole::System, true, system_prompt@)],
{
    let ghost p = system_prompt@;
    let mut v: Vec<ChatMessage> = Vec::new();
    v.push(ChatMessage { role: ChatRole::System, content: MessageContent::Text(system_prompt) });
    assert(history_view(v@) =~= seq![(ChatRole::System, true, p)]);
    v
}

/// Images from the camera are taken at most every thirty seconds (in
/// nanoseconds).
pub const IMAGE_INTERVAL_NS: u64 = 30_000_000_000;

/// When the last image was taken into the conversation.
pub struct ImageThrottle {
    last_ns: Option<u64>,
}

impl ImageThrottle {
    pub closed spec fn last(&self) -> Option<u64> {
        self.last_ns
    }

    pub fn new() -> (r: ImageThrottle)
        ensures
            r.last() is None,
    {
        ImageThrottle { last_ns: None }
    }

    /// Whether an image arriving at `now_ns` is taken; if so, it becomes
    /// the last one.
    pub fn take_image(&mut self, now_ns: u64) -> (r: bool)
        ensures
            r == !(old(self).last() matches Some(t) && elapsed(now_ns, t) < IMAGE_INTERVAL_NS),
            final(self).last() == if r {
                Some(now_ns)
            } else {
                old(self).last()
            },
    {
        match self.last_ns {
            Some(t) => {
                if now_ns.saturating_sub(t) < IMAGE_INTERVAL_NS {
                    return false;
                }
            },
            None => {},
        }
        self.last_ns = Some(now_ns);
        true
    }
}

/// The standard base64 text of `data` (with padding), as the `base64`
/// crate's standard engine writes it.
pub uninterp spec fn base64_standard(data: Seq<u8>) -> Seq<char>;

/// `base64::engine::general_purpose::STANDARD.encode`.
#[verifier::external_body]
fn encode_base64(data: &[u8]) -> (r: String)
    ensures
        r@ == base64_standard(data@),
{
    base64::engine::general_purpose::STANDARD.encode(data)
}

pub open spec fn jpeg_data_prefix() -> Seq<char> {
    "data:image/jpeg;base64,"@
}

/// A JPEG data URL from the base64 text of the image.
pub fn jpeg_data_url_from(encoded: &str) -> (r: String)
    ensures
        r@ == jpeg_data_prefix() + encoded@,
{
    let mut s = String::from_str("data:image/jpeg;base64,");
    s.append(encoded);
    s
}

/// The data URL a camera image is sent to the model as.
pub fn jpeg_data_url(image: &Vec<u8>) -> (r: String)
    ensures
        r@ == jpeg_data_prefix() + base64_standard(image@),
{
    let encoded = encode_base64(image.as_slice());
    jpeg_data_url_from(encoded.as_str())
}

} // verus!
