//! The agent's streamed command language: model output is a run of calls
//! such as `speak("Hello!") emote("happy")`, possibly cut off mid-call.
//! These functions split it into complete calls and a dangling remainder,
//! and parse a call's argument list.
use crate::text::{
    char_slice, char_slice_window, chars_of, in_class, push_char, push_chars, spec_is_whitespace,
    strip, strip_back, strip_front, strip_front_window, strip_window, string_of, CharClass,
};
use crate::text_patterns::{command_name, lemma_command_name_shorter, spec_command_name};
use vstd::utf8::encode_utf8;
use vstd::prelude::*;

verus! {

/// Where the command scanner stands after some characters.
pub struct CmdScan {
    pub tasks: Seq<Seq<char>>,
    pub current: Seq<char>,
    pub depth: int,
    pub dangling: Seq<char>,
    pub in_quotes: bool,
}

pub open spec fn cmd_start() -> CmdScan {
    CmdScan {
        tasks: Seq::empty(),
        current: Seq::empty(),
        depth: 0,
        dangling: Seq::empty(),
        in_quotes: false,
    }
}

/// One character of the command scanner. Parentheses inside double quotes
/// are text; a `)` that closes the outermost call ends a task, which is kept
/// without its leading whitespace, and clears the dangling text. The closing
/// parentheses of nested calls are not part of the dangling text.
pub open spec fn cmd_step(st: CmdScan, c: char) -> CmdScan {
    if c == '"' {
        CmdScan {
            in_quotes: !st.in_quotes,
            current: st.current.push(c),
            dangling: st.dangling.push(c),
            ..st
        }
    } else if c == '(' && !st.in_quotes {
        CmdScan {
            depth: st.depth + 1,
            current: st.current.push(c),
            dangling: st.dangling.push(c),
            ..st
        }
    } else if c == ')' && !st.in_quotes {
        if st.depth - 1 > 0 {
            CmdScan { depth: st.depth - 1, current: st.current.push(c), ..st }
        } else {
            CmdScan {
                depth: st.depth - 1,
                tasks: st.tasks.push(strip_front(st.current.push(c), CharClass::Whitespace)),
                current: Seq::empty(),
                dangling: Seq::empty(),
                ..st
            }
        }
    } else {
        CmdScan { current: st.current.push(c), dangling: st.dangling.push(c), ..st }
    }
}

pub open spec fn cmd_scan(s: Seq<char>) -> CmdScan
    decreases s.len(),
{
    if s.len() == 0 {
        cmd_start()
    } else {
        cmd_step(cmd_scan(s.drop_last()), s.last())
    }
}

/// The text the scanner reads: leading whitespace, then leading `(`, removed.
pub open spec fn command_source(input: Seq<char>) -> Seq<char> {
    strip_front(strip_front(input, CharClass::Whitespace), CharClass::Only('('))
}

/// The complete calls, in order, and the dangling text after the last one
/// (without its leading whitespace).
pub open spec fn spec_get_commands(input: Seq<char>) -> (Seq<Seq<char>>, Seq<char>) {
    let st = cmd_scan(command_source(input));
    (st.tasks, strip_front(st.dangling, CharClass::Whitespace))
}

pub open spec fn strings_view(v: Seq<String>) -> Seq<Seq<char>> {
    v.map_values(|s: String| s@)
}

pub fn get_commands(input: &str) -> (r: (Vec<String>, String))
    requires
        input@.len() <= i32::MAX,
    ensures
        (strings_view(r.0@), r.1@) == spec_get_commands(input@),
{
    let v = chars_of(input);
    let n = v.len();
    let a0 = strip_front_window(&v, 0, n, CharClass::Whitespace);
    let a = strip_front_window(&v, a0, n, CharClass::Only('('));
    assert(v@.subrange(0, n as int) =~= input@);
    let ghost src = v@.subrange(a as int, n as int);
    assert(src == command_source(input@));
    let mut tasks: Vec<String> = Vec::new();
    let mut current: Vec<char> = Vec::new();
    let mut dangling: Vec<char> = Vec::new();
    let mut depth: i32 = 0;
    let mut in_quotes = false;
    let mut i = a;
    while i < n
        invariant
            a <= i <= n == v@.len() <= i32::MAX,
            src == v@.subrange(a as int, n as int),
            -(i - a) <= depth <= i - a,
            ({
                let st = cmd_scan(src.take(i - a));
                &&& strings_view(tasks@) == st.tasks
                &&& current@ == st.current
                &&& depth == st.depth
                &&& dangling@ == st.dangling
                &&& in_quotes == st.in_quotes
            }),
        decreases n - i,
    {
        let c = v[i];
        let ghost prev = src.take(i - a);
        assert(src.take(i + 1 - a).drop_last() =~= prev);
        assert(src.take(i + 1 - a).last() == c);
        if c == '"' {
            in_quotes = !in_quotes;
            current.push(c);
            dangling.push(c);
        } else if c == '(' && !in_quotes {
            depth = depth + 1;
            current.push(c);
            dangling.push(c);
        } else if c == ')' && !in_quotes {
            depth = depth - 1;
            current.push(c);
            if depth <= 0 {
                let k = strip_front_window(&current, 0, current.len(), CharClass::Whitespace);
                assert(current@.subrange(0, current@.len() as int) =~= current@);
                let task = string_of(&current, k, current.len());
                let ghost before = tasks@;
                tasks.push(task);
                assert(strings_view(tasks@) =~= strings_view(before).push(task@));
                current = Vec::new();
                dangling = Vec::new();
            }
        } else {
            current.push(c);
            dangling.push(c);
        }
        i = i + 1;
    }
    assert(src.take(n - a) =~= src);
    let k = strip_front_window(&dangling, 0, dangling.len(), CharClass::Whitespace);
    assert(dangling@.subrange(0, dangling@.len() as int) =~= dangling@);
    (tasks, string_of(&dangling, k, dangling.len()))
}

/// Where the argument parser stands after some characters; `fault` marks an
/// argument list the parser cannot read (a `,` or quoted `'` before any
/// argument has begun).
pub struct ArgScan {
    pub args: Seq<Seq<char>>,
    pub current: Option<Seq<char>>,
    pub in_quotes: bool,
    pub in_single: bool,
    pub fault: bool,
}

pub open spec fn arg_start() -> ArgScan {
    ArgScan { args: Seq::empty(), current: None, in_quotes: false, in_single: false, fault: false }
}

/// One character of the argument parser: `"` toggles quoting and begins an
/// argument; `'` opens or closes single quotes (inside double quotes it is
/// text); an unquoted `,` ends the current argument, trimmed; any other
/// character is text.
pub open spec fn arg_step(st: ArgScan, c: char) -> ArgScan {
    if st.fault {
        st
    } else if c == '"' {
        let q = !st.in_quotes;
        ArgScan {
            in_quotes: q,
            current: if q && st.current is None {
                Some(Seq::empty())
            } else {
                st.current
            },
            ..st
        }
    } else if c == '\'' && !st.in_quotes {
        ArgScan { in_single: true, in_quotes: true, ..st }
    } else if c == '\'' && st.in_single {
        ArgScan { in_quotes: false, in_single: false, ..st }
    } else if c == '\'' || (c == ',' && st.in_quotes) {
        match st.current {
            None => ArgScan { fault: true, ..st },
            Some(a) => ArgScan { current: Some(a.push(c)), ..st },
        }
    } else if c == ',' {
        match st.current {
            None => ArgScan { fault: true, ..st },
            Some(a) => ArgScan {
                args: st.args.push(strip(a, CharClass::Whitespace)),
                current: Some(Seq::empty()),
                ..st
            },
        }
    } else {
        ArgScan {
            current: Some(
                match st.current {
                    Some(a) => a,
                    None => Seq::empty(),
                }.push(c),
            ),
            ..st
        }
    }
}

pub open spec fn arg_scan(s: Seq<char>) -> ArgScan
    decreases s.len(),
{
    if s.len() == 0 {
        arg_start()
    } else {
        arg_step(arg_scan(s.drop_last()), s.last())
    }
}

/// The arguments of a call's argument text, each trimmed of whitespace;
/// `None` when the text cannot be read.
pub open spec fn spec_parse_arguments(input: Seq<char>) -> Option<Seq<Seq<char>>> {
    let st = arg_scan(input);
    if st.fault {
        None
    } else {
        match st.current {
            Some(a) => Some(st.args.push(strip(a, CharClass::Whitespace))),
            None => Some(st.args),
        }
    }
}

fn trimmed_string(v: &Vec<char>) -> (r: String)
    ensures
        r@ == strip(v@, CharClass::Whitespace),
{
    let (x, y) = strip_window(v, 0, v.len(), CharClass::Whitespace);
    assert(v@.subrange(0, v@.len() as int) =~= v@);
    string_of(v, x, y)
}

/// Parses an argument list such as `"a", 'b, c', d`, the arguments in
/// order, each trimmed of whitespace. The text must be readable: a `,` or a
/// quoted `'` before any argument has begun cannot be parsed.
pub fn parse_arguments(input: &str) -> (r: Vec<String>)
    requires
        !arg_scan(input@).fault,
    ensures
        spec_parse_arguments(input@) == Some(strings_view(r@)),
{
    match try_parse_arguments(input) {
        Some(v) => v,
        None => {
            assert(false);
            Vec::new()
        },
    }
}

/// Parses an argument list as `parse_arguments` does; `None` when the text
/// cannot be read.
pub fn try_parse_arguments(input: &str) -> (r: Option<Vec<String>>)
    ensures
        match r {
            Some(v) => spec_parse_arguments(input@) == Some(strings_view(v@)),
            None => spec_parse_arguments(input@) is None,
        },
{
    let v = chars_of(input);
    let n = v.len();
    let mut args: Vec<String> = Vec::new();
    let mut current: Option<Vec<char>> = None;
    let mut in_quotes = false;
    let mut in_single = false;
    let mut i: usize = 0;
    while i < n
        invariant
            i <= n == v@.len(),
            v@ == input@,
            ({
                let st = arg_scan(v@.take(i as int));
                &&& !st.fault
                &&& strings_view(args@) == st.args
                &&& match current {
                    Some(c) => st.current == Some(c@),
                    None => st.current is None,
                }
                &&& in_quotes == st.in_quotes
                &&& in_single == st.in_single
            }),
        decreases n - i,
    {
        let c = v[i];
        assert(v@.take(i + 1).drop_last() =~= v@.take(i as int));
        if c == '"' {
            in_quotes = !in_quotes;
            if in_quotes && current.is_none() {
                current = Some(Vec::new());
            }
        } else if c == '\'' && !in_quotes {
            in_single = true;
            in_quotes = true;
        } else if c == '\'' && in_single {
            in_quotes = false;
            in_single = false;
        } else if c == '\'' || (c == ',' && in_quotes) {
            match current {
                None => {
                    assert(arg_scan(v@.take(i + 1)).fault);
                    proof {
                        lemma_fault_sticks(v@, i as int + 1);
                    }
                    return None;
                },
                Some(mut a) => {
                    a.push(c);
                    current = Some(a);
                },
            }
        } else if c == ',' {
            match current {
                None => {
                    assert(arg_scan(v@.take(i + 1)).fault);
                    proof {
                        lemma_fault_sticks(v@, i as int + 1);
                    }
                    return None;
                },
                Some(a) => {
                    let t = trimmed_string(&a);
                    let ghost before = args@;
                    args.push(t);
                    assert(strings_view(args@) =~= strings_view(before).push(t@));
                    current = Some(Vec::new());
                },
            }
        } else {
            let mut a = match current {
                Some(a) => a,
                None => Vec::new(),
            };
            a.push(c);
            current = Some(a);
        }
        i = i + 1;
    }
    assert(v@.take(n as int) =~= v@);
    match current {
        Some(a) => {
            let t = trimmed_string(&a);
            let ghost before = args@;
            args.push(t);
            assert(strings_view(args@) =~= strings_view(before).push(t@));
            Some(args)
        },
        None => Some(args),
    }
}

proof fn lemma_fault_sticks(s: Seq<char>, k: int)
    requires
        0 <= k <= s.len(),
        arg_scan(s.take(k)).fault,
    ensures
        arg_scan(s).fault,
    decreases s.len() - k,
{
    if k < s.len() {
        assert(s.take(k + 1).drop_last() =~= s.take(k));
        lemma_fault_sticks(s, k + 1);
    } else {
        assert(s.take(k) =~= s);
    }
}

/// The event name of the plain speech task.
pub open spec fn speak_name() -> Seq<char> {
    seq!['s', 'p', 'e', 'a', 'k']
}

/// The event name of the speech task with a voice and an emotion.
pub open spec fn voice_name() -> Seq<char> {
    seq!['v', 'o', 'i', 'c', 'e']
}

pub open spec fn is_speech_task(n: Seq<char>) -> bool {
    n == speak_name() || n == voice_name()
}

fn word(w: &Vec<char>) -> (r: String)
    ensures
        r@ == w@,
{
    string_of(w, 0, w.len())
}

fn speak_string() -> (r: String)
    ensures
        r@ == speak_name(),
{
    let mut s = String::new();
    push_char(&mut s, 's');
    push_char(&mut s, 'p');
    push_char(&mut s, 'e');
    push_char(&mut s, 'a');
    push_char(&mut s, 'k');
    assert(s@ =~= speak_name());
    s
}

fn voice_string() -> (r: String)
    ensures
        r@ == voice_name(),
{
    let mut s = String::new();
    push_char(&mut s, 'v');
    push_char(&mut s, 'o');
    push_char(&mut s, 'i');
    push_char(&mut s, 'c');
    push_char(&mut s, 'e');
    assert(s@ =~= voice_name());
    s
}

/// Characters that end a sentence of speech.
pub open spec fn is_speech_stop(c: char) -> bool {
    c == '\n' || c == '\r' || c == '.' || c == '?' || c == '!'
}

/// The sentences of speech text, each running through its stop character.
pub open spec fn speech_ranges(s: Seq<char>, start: int, d: int) -> Seq<(int, int)>
    decreases s.len() - d,
{
    if d < 0 || d >= s.len() {
        Seq::empty()
    } else if is_speech_stop(s[d]) {
        seq![(start, d + 1)] + speech_ranges(s, d + 1, d + 1)
    } else {
        speech_ranges(s, start, d + 1)
    }
}

/// A sentence is spoken unless it is only `.`, `,`, `!`, `?` (stripped from
/// the ends in that order) or a lone double quote.
pub open spec fn is_spoken(sentence: Seq<char>) -> bool {
    strip(
        strip(
            strip(strip(sentence, CharClass::Only('.')), CharClass::Only(',')),
            CharClass::Only('!'),
        ),
        CharClass::Only('?'),
    ).len() > 0 && sentence != seq!['"']
}

/// A call of a task: its name and arguments.
pub type CallView = (Seq<char>, Seq<Seq<char>>);

/// For each spoken sentence (of the first ranges given), one call of the
/// speech task with the sentence as its last argument; and the spoken text.
pub open spec fn speech_calls(
    name: Seq<char>,
    args: Seq<Seq<char>>,
    text: Seq<char>,
    ranges: Seq<(int, int)>,
) -> (Seq<CallView>, Seq<char>)
    decreases ranges.len(),
{
    if ranges.len() == 0 {
        (Seq::empty(), Seq::empty())
    } else {
        let (calls, spoken) = speech_calls(name, args, text, ranges.drop_last());
        let sentence = text.subrange(ranges.last().0, ranges.last().1);
        if is_spoken(sentence) {
            (calls.push((name, args.update(args.len() - 1, sentence))), spoken + sentence)
        } else {
            (calls, spoken)
        }
    }
}

/// `"a", "b", "c` : each argument opened by a quote, all but the last
/// closed by a quote and followed by a comma and a space.
pub open spec fn render_args(args: Seq<Seq<char>>) -> Seq<char>
    decreases args.len(),
{
    if args.len() == 0 {
        Seq::empty()
    } else if args.len() == 1 {
        seq!['"'] + args[0]
    } else {
        seq!['"'] + args[0] + seq!['"', ',', ' '] + render_args(args.drop_first())
    }
}

/// Speaking the last argument of a speech task: the calls for its complete
/// sentences, and the call text that remains to be completed by later
/// output. The remaining text starts after as many characters as the spoken
/// text has UTF-8 bytes, and is trimmed.
pub open spec fn spec_process_speech(name: Seq<char>, args: Seq<Seq<char>>) -> (
    Seq<CallView>,
    Seq<char>,
) {
    let text = args.last();
    let (calls, spoken) = speech_calls(name, args, text, speech_ranges(text, 0, 0));
    let rest = strip(
        char_slice(
            text,
            (encode_utf8(spoken).len() as usize) as int,
            (encode_utf8(text).len() as usize) as int,
        ),
        CharClass::Whitespace,
    );
    (calls, name + seq!['('] + render_args(args.update(args.len() - 1, rest)))
}

/// A call the agent makes.
pub struct Call {
    pub name: String,
    pub args: Vec<String>,
}

impl Call {
    pub open spec fn view_call(&self) -> CallView {
        (self.name@, strings_view(self.args@))
    }
}

pub open spec fn calls_view(v: Seq<Call>) -> Seq<CallView> {
    v.map_values(|c: Call| c.view_call())
}

fn clone_strings(v: &Vec<String>) -> (r: Vec<String>)
    ensures
        strings_view(r@) == strings_view(v@),
{
    let mut r: Vec<String> = Vec::new();
    let mut i: usize = 0;
    while i < v.len()
        invariant
            i <= v@.len(),
            strings_view(r@) == strings_view(v@).take(i as int),
        decreases v@.len() - i,
    {
        let s = v[i].clone();
        let ghost before = r@;
        r.push(s);
        assert(strings_view(r@) =~= strings_view(before).push(s@));
        i = i + 1;
        assert(strings_view(v@).take(i as int) =~= strings_view(v@).take(i - 1).push(v@[i - 1]@));
    }
    assert(strings_view(v@).take(i as int) =~= strings_view(v@));
    r
}

fn render_into(out: &mut String, args: &Vec<String>)
    ensures
        final(out)@ == old(out)@ + render_args(strings_view(args@)),
{
    let n = args.len();
    let mut i: usize = 0;
    assert(strings_view(args@).skip(0) =~= strings_view(args@));
    while i < n
        invariant
            i <= n == args@.len(),
            out@ + render_args(strings_view(args@).skip(i as int)) == old(out)@ + render_args(
                strings_view(args@),
            ),
        decreases n - i,
    {
        let ghost rest = strings_view(args@).skip(i as int);
        assert(rest.drop_first() =~= strings_view(args@).skip(i + 1));
        push_char(out, '"');
        out.append(args[i].as_str());
        if i + 1 < n {
            push_char(out, '"');
            push_char(out, ',');
            push_char(out, ' ');
            assert(render_args(rest) == seq!['"'] + rest[0] + seq!['"', ',', ' '] + render_args(
                rest.drop_first(),
            ));
        }
        i = i + 1;
    }
    assert(strings_view(args@).skip(n as int).len() == 0);
}

/// Speaks the complete sentences of a speech task's last argument.
pub fn process_speech(name: &String, args: &Vec<String>) -> (r: (Vec<Call>, String))
    requires
        args@.len() >= 1,
    ensures
        (calls_view(r.0@), r.1@) == spec_process_speech(name@, strings_view(args@)),
{
    let last = args.len() - 1;
    let text = &args[last];
    let v = chars_of(text.as_str());
    let n = v.len();
    let ghost sargs = strings_view(args@);
    assert(sargs.last() == v@);
    let mut calls: Vec<Call> = Vec::new();
    let mut spoken = String::new();
    let mut start: usize = 0;
    let mut d: usize = 0;
    let ghost mut done: Seq<(int, int)> = Seq::empty();
    while d < n
        invariant
            n == v@.len(),
            start <= d <= n,
            last + 1 == args@.len(),
            sargs == strings_view(args@),
            sargs.last() == v@,
            speech_ranges(v@, 0, 0) == done + speech_ranges(v@, start as int, d as int),
            (calls_view(calls@), spoken@) == speech_calls(name@, sargs, v@, done),
        decreases n - d,
    {
        let c = v[d];
        if c == '\n' || c == '\r' || c == '.' || c == '?' || c == '!' {
            let e = d + 1;
            let ghost before = done;
            proof {
                done = done.push((start as int, e as int));
                assert(done.drop_last() == before);
                assert(before + speech_ranges(v@, start as int, d as int) =~= done
                    + speech_ranges(v@, e as int, e as int));
            }
            let sentence = string_of(&v, start, e);
            let (x1, y1) = strip_window(&v, start, e, CharClass::Only('.'));
            let (x2, y2) = strip_window(&v, x1, y1, CharClass::Only(','));
            let (x3, y3) = strip_window(&v, x2, y2, CharClass::Only('!'));
            let (x4, y4) = strip_window(&v, x3, y3, CharClass::Only('?'));
            let lone_quote = e - start == 1 && v[start] == '"';
            assert(lone_quote == (v@.subrange(start as int, e as int) == seq!['"'])) by {
                if v@.subrange(start as int, e as int) == seq!['"'] {
                    assert(v@.subrange(start as int, e as int)[0] == v@[start as int]);
                }
            }
            if x4 < y4 && !lone_quote {
                let mut call_args = clone_strings(args);
                let ghost ca = call_args@;
                call_args.set(last, string_of(&v, start, e));
                assert(strings_view(call_args@) =~= sargs.update(
                    last as int,
                    v@.subrange(start as int, e as int),
                ));
                let ghost cbefore = calls@;
                calls.push(Call { name: name.clone(), args: call_args });
                assert(calls_view(calls@) =~= calls_view(cbefore).push(calls@.last().view_call()));
                spoken.append(sentence.as_str());
            }
            start = e;
            d = e;
        } else {
            d = d + 1;
        }
    }
    assert(done =~= speech_ranges(v@, 0, 0));
    let total = text.as_str().len();
    let used = spoken.as_str().len();
    let (a, b) = char_slice_window(n, used, total);
    let (ta, tb) = strip_window(&v, a, b, CharClass::Whitespace);
    let rest = string_of(&v, ta, tb);
    let mut call_args = clone_strings(args);
    call_args.set(last, rest);
    let mut speech = name.clone();
    push_char(&mut speech, '(');
    render_into(&mut speech, &call_args);
    assert(strings_view(call_args@) =~= sargs.update(sargs.len() - 1, rest@));
    (calls, speech)
}


/// How dangling text that names no call, but holds a space, is read as the
/// start of a speech call.
#[derive(Clone, Copy, Debug, PartialEq, Eq, Structural)]
pub enum SpeechPrefix {
    /// `speak("` before the text, which loses its leading newlines,
    /// whitespace and double quotes.
    Quoted,
    /// `speak(` before the text as it is.
    Bare,
    /// `speak("default", "default", ` before the text as it is.
    Defaulted,
}

pub open spec fn default_word() -> Seq<char> {
    seq!['d', 'e', 'f', 'a', 'u', 'l', 't']
}

pub open spec fn prefix_text(p: SpeechPrefix) -> Seq<char> {
    match p {
        SpeechPrefix::Quoted => speak_name() + seq!['(', '"'],
        SpeechPrefix::Bare => speak_name() + seq!['('],
        SpeechPrefix::Defaulted => speak_name() + seq!['(', '"'] + default_word() + seq![
            '"',
            ',',
            ' ',
            '"',
        ] + default_word() + seq!['"', ',', ' '],
    }
}

pub open spec fn prefixed_body(p: SpeechPrefix, d: Seq<char>) -> Seq<char> {
    match p {
        SpeechPrefix::Quoted => strip_front(
            strip_front(strip_front(d, CharClass::Only('\n')), CharClass::Whitespace),
            CharClass::Only('"'),
        ),
        _ => d,
    }
}

/// The calls that one complete task makes, and whether it could be read
/// at all (`false` where its arguments cannot be parsed, or where a speech
/// task has no argument to speak).
pub open spec fn task_calls(task: Seq<char>) -> (Seq<CallView>, bool) {
    match spec_command_name(task) {
        None => (Seq::empty(), true),
        Some(name) => match spec_parse_arguments(
            char_slice(task, name.len() + 1 as int, task.len() - 1),
        ) {
            None => (Seq::empty(), false),
            Some(args) => if !is_speech_task(name) {
                (seq![(name, args)], true)
            } else if args.len() == 0 {
                (Seq::empty(), false)
            } else {
                (spec_process_speech(name, args).0, true)
            },
        },
    }
}

/// The calls of the tasks in order, up to the first that cannot be read.
pub open spec fn plan_tasks(tasks: Seq<Seq<char>>) -> (Seq<CallView>, bool)
    decreases tasks.len(),
{
    if tasks.len() == 0 {
        (Seq::empty(), true)
    } else {
        let (calls, ok) = plan_tasks(tasks.drop_last());
        if !ok {
            (calls, false)
        } else {
            let (more, ok2) = task_calls(tasks.last());
            (calls + more, ok2)
        }
    }
}

/// Whether dangling text is read as the start of a speech call.
pub open spec fn read_as_speech(d: Seq<char>) -> bool {
    spec_command_name(d) is None && strip_front(
        strip_front(d, CharClass::Only('\n')),
        CharClass::Whitespace,
    ).contains(' ')
}

/// Whether an unfinished speech call has text worth speaking yet: its text
/// argument exists and is not a lone quote mark.
pub open spec fn speech_ready(n: Seq<char>, args: Seq<Seq<char>>) -> bool {
    ||| (n == voice_name() && args.len() > 2 && args[2] != seq!['"'] && args[2] != seq!['\''])
    ||| (n == speak_name() && args.len() > 0 && args[0] != seq!['"'] && args[0] != seq!['\''])
}

/// The calls made for the dangling text, and the text kept for the next
/// chunk of output (`None` where its arguments cannot be parsed).
pub open spec fn dangling_plan(d: Seq<char>, p: SpeechPrefix) -> (Seq<CallView>, Option<Seq<char>>) {
    let d2 = if read_as_speech(d) {
        prefix_text(p) + prefixed_body(p, d)
    } else {
        d
    };
    match spec_command_name(d2) {
        Some(n) => if is_speech_task(n) {
            match spec_parse_arguments(char_slice(d2, n.len() + 1 as int, d2.len() as int)) {
                None => (Seq::empty(), None),
                Some(args) => if speech_ready(n, args) {
                    let r = spec_process_speech(n, args);
                    (r.0, Some(r.1))
                } else {
                    (Seq::empty(), Some(d2))
                },
            }
        } else {
            (Seq::empty(), Some(d2))
        },
        None => (Seq::empty(), Some(d2)),
    }
}

/// What a chunk of model output asks for: the calls to make, in order, and
/// the text to keep for the next chunk. At the end of the output a closing
/// `)` completes the last call. `None` in place of the kept text means the
/// output could not be read past the calls listed.
pub open spec fn spec_plan_output(input: Seq<char>, is_end: bool, p: SpeechPrefix) -> (
    Seq<CallView>,
    Option<Seq<char>>,
) {
    if input.len() == 0 {
        (Seq::empty(), Some(Seq::empty()))
    } else {
        let cmd = if is_end {
            input.push(')')
        } else {
            input
        };
        let (tasks, dangling) = spec_get_commands(cmd);
        let (calls, ok) = plan_tasks(tasks);
        if !ok {
            (calls, None)
        } else {
            let (more, end) = dangling_plan(dangling, p);
            (calls + more, end)
        }
    }
}

fn chars_equal(a: &Vec<char>, b: &Vec<char>) -> (r: bool)
    ensures
        r == (a@ == b@),
{
    if a.len() != b.len() {
        return false;
    }
    let mut i: usize = 0;
    while i < a.len()
        invariant
            i <= a@.len() == b@.len(),
            a@.take(i as int) == b@.take(i as int),
        decreases a@.len() - i,
    {
        if a[i] != b[i] {
            assert(a@[i as int] != b@[i as int]);
            return false;
        }
        assert(a@.take(i + 1) =~= a@.take(i as int).push(a@[i as int]));
        assert(b@.take(i + 1) =~= b@.take(i as int).push(b@[i as int]));
        i = i + 1;
    }
    assert(a@.take(i as int) =~= a@);
    assert(b@.take(i as int) =~= b@);
    true
}

fn speak_chars() -> (r: Vec<char>)
    ensures
        r@ == speak_name(),
{
    let v = vec!['s', 'p', 'e', 'a', 'k'];
    assert(v@ =~= speak_name());
    v
}

fn voice_chars() -> (r: Vec<char>)
    ensures
        r@ == voice_name(),
{
    let v = vec!['v', 'o', 'i', 'c', 'e'];
    assert(v@ =~= voice_name());
    v
}

/// Whether `s` is a lone `"` or a lone `'`.
fn is_quote_mark(s: &String) -> (r: bool)
    ensures
        r == (s@ == seq!['"'] || s@ == seq!['\'']),
{
    let v = chars_of(s.as_str());
    if v.len() == 1 {
        let r = v[0] == '"' || v[0] == '\'';
        assert(r ==> (v@ =~= seq!['"'] || v@ =~= seq!['\'']));
        r
    } else {
        false
    }
}

fn prefix_string(p: SpeechPrefix) -> (r: String)
    ensures
        r@ == prefix_text(p),
{
    let v = match p {
        SpeechPrefix::Quoted => vec!['s', 'p', 'e', 'a', 'k', '(', '"'],
        SpeechPrefix::Bare => vec!['s', 'p', 'e', 'a', 'k', '('],
        SpeechPrefix::Defaulted => vec![
            's', 'p', 'e', 'a', 'k', '(', '"', 'd', 'e', 'f', 'a', 'u', 'l', 't', '"', ',', ' ',
            '"', 'd', 'e', 'f', 'a', 'u', 'l', 't', '"', ',', ' ',
        ],
    };
    assert(v@ =~= prefix_text(p));
    string_of(&v, 0, v.len())
}

fn is_speech_name(n: &Vec<char>) -> (r: (bool, bool))
    ensures
        r.0 == (n@ == speak_name()),
        r.1 == (n@ == voice_name()),
{
    let sp = speak_chars();
    let vo = voice_chars();
    (chars_equal(n, &sp), chars_equal(n, &vo))
}

/// The calls one complete task makes; `false` where it cannot be read.
fn plan_task(task: &String) -> (r: (Vec<Call>, bool))
    ensures
        (calls_view(r.0@), r.1) == task_calls(task@),
{
    match command_name(task.as_str()) {
        None => (Vec::new(), true),
        Some(name) => {
            let v = chars_of(task.as_str());
            let nv = chars_of(name);
            let nlen = nv.len();
            proof {
                lemma_command_name_shorter(task@);
            }
            let end = if v.len() == 0 {
                0
            } else {
                v.len() - 1
            };
            let (a, b) = char_slice_window(v.len(), nlen + 1, end);
            assert(char_slice(v@, nlen + 1 as int, end as int) == v@.subrange(a as int, b as int));
            assert(char_slice(v@, nlen + 1 as int, end as int) == char_slice(
                task@,
                nlen + 1 as int,
                task@.len() - 1,
            ));
            let args_text = string_of(&v, a, b);
            match try_parse_arguments(args_text.as_str()) {
                None => (Vec::new(), false),
                Some(args) => {
                    let (is_speak, is_voice) = is_speech_name(&nv);
                    let name_s = string_of(&nv, 0, nv.len());
                    assert(nv@.subrange(0, nv@.len() as int) =~= nv@);
                    if !(is_speak || is_voice) {
                        let mut calls: Vec<Call> = Vec::new();
                        calls.push(Call { name: name_s, args });
                        assert(calls_view(calls@) =~= seq![(name@, strings_view(args@))]);
                        (calls, true)
                    } else if args.len() == 0 {
                        (Vec::new(), false)
                    } else {
                        let (calls, _) = process_speech(&name_s, &args);
                        (calls, true)
                    }
                },
            }
        },
    }
}

proof fn lemma_plan_fault_sticks(tasks: Seq<Seq<char>>, k: int)
    requires
        0 <= k <= tasks.len(),
        !plan_tasks(tasks.take(k)).1,
    ensures
        plan_tasks(tasks) == plan_tasks(tasks.take(k)),
    decreases tasks.len() - k,
{
    if k < tasks.len() {
        assert(tasks.take(k + 1).drop_last() =~= tasks.take(k));
        lemma_plan_fault_sticks(tasks, k + 1);
    } else {
        assert(tasks.take(k) =~= tasks);
    }
}

fn append_calls(calls: &mut Vec<Call>, more: Vec<Call>)
    ensures
        calls_view(final(calls)@) == calls_view(old(calls)@) + calls_view(more@),
{
    let ghost extra = more@;
    let mut more = more;
    let ghost before = calls@;
    calls.append(&mut more);
    assert(calls_view(calls@) =~= calls_view(before) + calls_view(extra)) by {
        assert(calls@ =~= before + extra);
    }
}

/// The calls of complete tasks in order; `false` where one cannot be read,
/// in which case the calls are those of the tasks before it.
fn plan_all_tasks(tasks: &Vec<String>) -> (r: (Vec<Call>, bool))
    ensures
        (calls_view(r.0@), r.1) == plan_tasks(strings_view(tasks@)),
{
    let ghost ts = strings_view(tasks@);
    let mut calls: Vec<Call> = Vec::new();
    let mut i: usize = 0;
    while i < tasks.len()
        invariant
            i <= tasks@.len(),
            ts == strings_view(tasks@),
            (calls_view(calls@), true) == plan_tasks(ts.take(i as int)),
        decreases tasks@.len() - i,
    {
        assert(ts.take(i + 1).drop_last() =~= ts.take(i as int));
        assert(ts.take(i + 1).last() == tasks@[i as int]@);
        let (more, ok) = plan_task(&tasks[i]);
        append_calls(&mut calls, more);
        if !ok {
            proof {
                lemma_plan_fault_sticks(ts, i + 1);
            }
            return (calls, false);
        }
        i = i + 1;
    }
    assert(ts.take(i as int) =~= ts);
    (calls, true)
}

pub open spec fn opt_string_view(o: Option<String>) -> Option<Seq<char>> {
    match o {
        Some(s) => Some(s@),
        None => None,
    }
}

fn read_as_speech_exec(d: &String) -> (r: bool)
    ensures
        r == read_as_speech(d@),
{
    if command_name(d.as_str()).is_some() {
        return false;
    }
    let v = chars_of(d.as_str());
    let n = v.len();
    let a = strip_front_window(&v, 0, n, CharClass::Only('\n'));
    assert(v@.subrange(0, n as int) =~= d@);
    let b = strip_front_window(&v, a, n, CharClass::Whitespace);
    let ghost rest = v@.subrange(b as int, n as int);
    let mut i = b;
    while i < n
        invariant
            b <= i <= n == v@.len(),
            rest == v@.subrange(b as int, n as int),
            rest == strip_front(strip_front(d@, CharClass::Only('\n')), CharClass::Whitespace),
            spec_command_name(d@) is None,
            forall|j: int| 0 <= j < i - b ==> rest[j] != ' ',
        decreases n - i,
    {
        if v[i] == ' ' {
            assert(rest[i - b] == ' ');
            assert(rest.contains(' '));
            return true;
        }
        i = i + 1;
    }
    false
}

/// The calls made for dangling text and the text kept for the next chunk;
/// `None` where the text cannot be read.
fn plan_dangling(d: String, p: SpeechPrefix) -> (r: (Vec<Call>, Option<String>))
    ensures
        (calls_view(r.0@), opt_string_view(r.1)) == dangling_plan(d@, p),
{
    let d2 = if read_as_speech_exec(&d) {
        let mut t = prefix_string(p);
        match p {
            SpeechPrefix::Quoted => {
                let v = chars_of(d.as_str());
                let n = v.len();
                let a = strip_front_window(&v, 0, n, CharClass::Only('\n'));
                assert(v@.subrange(0, n as int) =~= d@);
                let b = strip_front_window(&v, a, n, CharClass::Whitespace);
                let c = strip_front_window(&v, b, n, CharClass::Only('"'));
                push_chars(&mut t, &v, c, n);
            },
            _ => {
                let v = chars_of(d.as_str());
                push_chars(&mut t, &v, 0, v.len());
                assert(v@.subrange(0, v@.len() as int) =~= d@);
            },
        }
        t
    } else {
        d
    };
    let name_chars: Option<Vec<char>> = match command_name(d2.as_str()) {
        Some(n) => Some(chars_of(n)),
        None => None,
    };
    match name_chars {
        None => (Vec::new(), Some(d2)),
        Some(nv) => {
            let (is_speak, is_voice) = is_speech_name(&nv);
            if !(is_speak || is_voice) {
                return (Vec::new(), Some(d2));
            }
            let v = chars_of(d2.as_str());
            proof {
                lemma_command_name_shorter(d2@);
            }
            let (a, b) = char_slice_window(v.len(), nv.len() + 1, v.len());
            assert(char_slice(v@, nv@.len() + 1 as int, v@.len() as int) == v@.subrange(
                a as int,
                b as int,
            ));
            let args_text = string_of(&v, a, b);
            match try_parse_arguments(args_text.as_str()) {
                None => (Vec::new(), None),
                Some(args) => {
                    let ready = if is_voice {
                        args.len() > 2 && !is_quote_mark(&args[2])
                    } else {
                        args.len() > 0 && !is_quote_mark(&args[0])
                    };
                    proof {
                        let sargs = strings_view(args@);
                        if args@.len() > 2 {
                            assert(sargs[2] == args@[2]@);
                        }
                        if args@.len() > 0 {
                            assert(sargs[0] == args@[0]@);
                        }
                    }
                    if ready {
                        let name_s = string_of(&nv, 0, nv.len());
                        assert(nv@.subrange(0, nv@.len() as int) =~= nv@);
                        let (calls, rest) = process_speech(&name_s, &args);
                        (calls, Some(rest))
                    } else {
                        (Vec::new(), Some(d2))
                    }
                },
            }
        },
    }
}

/// Reads a chunk of streamed model output: returns the calls it asks for,
/// in order, and the text to keep for the next chunk. `is_end` marks the
/// last chunk, whose final call is completed by a closing `)`. The kept
/// text is `None` where the output cannot be read past the listed calls.
pub fn plan_output_tasks(temp_commands: &str, is_end: bool, prefix: SpeechPrefix) -> (r: (
    Vec<Call>,
    Option<String>,
))
    requires
        temp_commands@.len() < i32::MAX,
    ensures
        (calls_view(r.0@), opt_string_view(r.1)) == spec_plan_output(
            temp_commands@,
            is_end,
            prefix,
        ),
{
    let v = chars_of(temp_commands);
    if v.len() == 0 {
        let empty = String::new();
        return (Vec::new(), Some(empty));
    }
    let mut cmd = string_of(&v, 0, v.len());
    assert(v@.subrange(0, v@.len() as int) =~= temp_commands@);
    if is_end {
        push_char(&mut cmd, ')');
    }
    let (tasks, dangling) = get_commands(cmd.as_str());
    let (mut calls, ok) = plan_all_tasks(&tasks);
    if !ok {
        return (calls, None);
    }
    let (more, end) = plan_dangling(dangling, prefix);
    append_calls(&mut calls, more);
    (calls, end)
}

/// A streamed model response being read chunk by chunk: the text not yet
/// read as calls is kept for the next chunk.
pub struct ResponseStream {
    pending: String,
    prefix: SpeechPrefix,
}

impl ResponseStream {
    pub closed spec fn pending_view(&self) -> Seq<char> {
        self.pending@
    }

    pub closed spec fn prefix_view(&self) -> SpeechPrefix {
        self.prefix
    }

    pub fn new(prefix: SpeechPrefix) -> (r: ResponseStream)
        ensures
            r.pending_view() == Seq::<char>::empty(),
            r.prefix_view() == prefix,
    {
        ResponseStream { pending: String::new(), prefix }
    }

    /// The text kept for the next chunk.
    pub fn pending(&self) -> (r: &String)
        ensures
            r@ == self.pending_view(),
    {
        &self.pending
    }

    /// Reads the next chunk after the kept text: returns the calls it
    /// completes, and `false` when the text cannot be read past them.
    pub fn feed(&mut self, chunk: &str) -> (r: (Vec<Call>, bool))
        requires
            old(self).pending_view().len() + chunk@.len() < i32::MAX,
        ensures
            ({
                let (calls, kept) = spec_plan_output(
                    old(self).pending_view() + chunk@,
                    false,
                    old(self).prefix_view(),
                );
                &&& calls_view(r.0@) == calls
                &&& r.1 == kept is Some
                &&& final(self).pending_view() == match kept {
                    Some(k) => k,
                    None => Seq::empty(),
                }
                &&& final(self).prefix_view() == old(self).prefix_view()
            }),
    {
        let mut text = String::new();
        std::mem::swap(&mut text, &mut self.pending);
        text.append(chunk);
        let (calls, kept) = plan_output_tasks(text.as_str(), false, self.prefix);
        match kept {
            Some(k) => {
                self.pending = k;
                (calls, true)
            },
            None => (calls, false),
        }
    }

    /// Reads what is kept once the response has ended: its last call is
    /// completed by a closing `)`.
    pub fn finish(&mut self) -> (r: (Vec<Call>, bool))
        requires
            old(self).pending_view().len() < i32::MAX,
        ensures
            ({
                let (calls, kept) = spec_plan_output(old(self).pending_view(), true, old(self).prefix_view());
                &&& calls_view(r.0@) == calls
                &&& r.1 == kept is Some
                &&& final(self).pending_view() == Seq::<char>::empty()
                &&& final(self).prefix_view() == old(self).prefix_view()
            }),
    {
        let mut text = String::new();
        std::mem::swap(&mut text, &mut self.pending);
        let (calls, kept) = plan_output_tasks(text.as_str(), true, self.prefix);
        (calls, kept.is_some())
    }
}

proof fn lemma_speech_calls_shape(
    name: Seq<char>,
    args: Seq<Seq<char>>,
    text: Seq<char>,
    ranges: Seq<(int, int)>,
)
    requires
        args.len() >= 1,
    ensures
        forall|k: int|
            0 <= k < speech_calls(name, args, text, ranges).0.len() ==> {
                let c = #[trigger] speech_calls(name, args, text, ranges).0[k];
                &&& c.0 == name
                &&& c.1.len() == args.len()
                &&& forall|j: int| 0 <= j < args.len() - 1 ==> c.1[j] == args[j]
            },
    decreases ranges.len(),
{
    if ranges.len() > 0 {
        lemma_speech_calls_shape(name, args, text, ranges.drop_last());
        let (calls, spoken) = speech_calls(name, args, text, ranges.drop_last());
        let sentence = text.subrange(ranges.last().0, ranges.last().1);
        if is_spoken(sentence) {
            let c = (name, args.update(args.len() - 1, sentence));
            let all = calls.push(c);
            assert(speech_calls(name, args, text, ranges).0 == all);
            assert forall|k: int| 0 <= k < all.len() implies {
                let d = #[trigger] all[k];
                &&& d.0 == name
                &&& d.1.len() == args.len()
                &&& forall|j: int| 0 <= j < args.len() - 1 ==> d.1[j] == args[j]
            } by {
                if k < calls.len() {
                    assert(all[k] == calls[k]);
                }
            }
        }
    }
}

/// Speaking never changes what is called: every call made for the
/// sentences of a speech task names that task and keeps its other
/// arguments; only the text argument becomes the sentence.
pub proof fn lemma_speech_keeps_call(name: Seq<char>, args: Seq<Seq<char>>)
    requires
        args.len() >= 1,
    ensures
        forall|k: int|
            0 <= k < spec_process_speech(name, args).0.len() ==> {
                let c = #[trigger] spec_process_speech(name, args).0[k];
                &&& c.0 == name
                &&& c.1.len() == args.len()
                &&& forall|j: int| 0 <= j < args.len() - 1 ==> c.1[j] == args[j]
            },
{
    let text = args.last();
    lemma_speech_calls_shape(name, args, text, speech_ranges(text, 0, 0));
}

proof fn lemma_strip_front_shape(s: Seq<char>, cls: CharClass)
    ensures
        strip_front(s, cls).len() <= s.len(),
        strip_front(s, cls) == s.skip(s.len() - strip_front(s, cls).len()),
        strip_front(s, cls).len() > 0 ==> !in_class(cls, strip_front(s, cls)[0]),
        s.len() > 0 && !in_class(cls, s.last()) ==> strip_front(s, cls).len() > 0,
    decreases s.len(),
{
    if s.len() > 0 && in_class(cls, s[0]) {
        lemma_strip_front_shape(s.drop_first(), cls);
        let r = strip_front(s.drop_first(), cls);
        assert(s.drop_first().skip(s.drop_first().len() - r.len()) =~= s.skip(s.len() - r.len()));
        if s.len() > 1 {
            assert(s.drop_first().last() == s.last());
        }
    } else {
        assert(s.skip(0) =~= s);
    }
}

proof fn lemma_tasks_trimmed(s: Seq<char>)
    ensures
        forall|k: int|
            0 <= k < cmd_scan(s).tasks.len() ==> {
                let t = #[trigger] cmd_scan(s).tasks[k];
                &&& t.len() > 0
                &&& t.last() == ')'
                &&& !spec_is_whitespace(t[0])
            },
    decreases s.len(),
{
    if s.len() > 0 {
        lemma_tasks_trimmed(s.drop_last());
        let st = cmd_scan(s.drop_last());
        let c = s.last();
        if c == ')' && !st.in_quotes && !(st.depth - 1 > 0) {
            let raw = st.current.push(c);
            lemma_strip_front_shape(raw, CharClass::Whitespace);
            let t = strip_front(raw, CharClass::Whitespace);
            assert(raw.last() == ')');
            assert(t.last() == raw.last()) by {
                assert(t == raw.skip(raw.len() - t.len()));
            }
            let all = st.tasks.push(t);
            assert(cmd_scan(s).tasks == all);
            assert forall|k: int| 0 <= k < all.len() implies {
                let u = #[trigger] all[k];
                &&& u.len() > 0
                &&& u.last() == ')'
                &&& !spec_is_whitespace(u[0])
            } by {
                if k < st.tasks.len() {
                    assert(all[k] == st.tasks[k]);
                }
            }
        } else {
            assert(cmd_scan(s).tasks == st.tasks);
        }
    }
}

/// Every complete call `get_commands` returns is one call and nothing
/// around it: it does not begin with whitespace (a line break included) and
/// it ends with the `)` that closes it.
pub proof fn lemma_commands_are_trimmed_calls(input: Seq<char>)
    ensures
        forall|k: int|
            0 <= k < spec_get_commands(input).0.len() ==> {
                let t = #[trigger] spec_get_commands(input).0[k];
                &&& t.len() > 0
                &&& t.last() == ')'
                &&& !spec_is_whitespace(t[0])
            },
{
    lemma_tasks_trimmed(command_source(input));
}

proof fn lemma_scan_inside_quotes(t: Seq<char>, k: int)
    requires
        0 <= k <= t.len(),
        forall|j: int| 0 <= j < t.len() ==> t[j] != '"' && t[j] != '\'',
    ensures
        arg_scan(seq!['"'] + t.take(k)) == (ArgScan {
            args: Seq::empty(),
            current: Some(t.take(k)),
            in_quotes: true,
            in_single: false,
            fault: false,
        }),
    decreases k,
{
    let s = seq!['"'] + t.take(k);
    assert(arg_scan(s) == arg_step(arg_scan(s.drop_last()), s.last()));
    if k == 0 {
        assert(s.drop_last() =~= Seq::<char>::empty());
        assert(arg_scan(s.drop_last()) == arg_start());
        assert(t.take(0) =~= Seq::<char>::empty());
        assert(s.last() == '"');
    } else {
        lemma_scan_inside_quotes(t, k - 1);
        assert(s.drop_last() =~= seq!['"'] + t.take(k - 1));
        let c = t[k - 1];
        assert(s.last() == c);
        assert(t.take(k - 1).push(c) =~= t.take(k));
        assert(c != '"' && c != '\'');
    }
}

/// A comma inside double quotes never splits an argument: a single
/// double-quoted argument whose text holds no quote marks is read as that
/// text, trimmed, commas and all.
pub proof fn lemma_quoted_argument_is_one(t: Seq<char>)
    requires
        forall|j: int| 0 <= j < t.len() ==> t[j] != '"' && t[j] != '\'',
    ensures
        spec_parse_arguments(seq!['"'] + t + seq!['"']) == Some(seq![strip(t, CharClass::Whitespace)]),
{
    lemma_scan_inside_quotes(t, t.len() as int);
    let s = seq!['"'] + t + seq!['"'];
    assert(t.take(t.len() as int) =~= t);
    assert(s.drop_last() =~= seq!['"'] + t.take(t.len() as int));
    assert(s.last() == '"');
    assert(Seq::<Seq<char>>::empty().push(strip(t, CharClass::Whitespace)) =~= seq![
        strip(t, CharClass::Whitespace),
    ]);
}

/// Unfinished speech is spoken as soon as its text argument has begun: a
/// dangling `voice` call with at least three arguments whose third is not a
/// lone quote mark, or a dangling `speak` call with at least one argument
/// that is not a lone quote mark, makes exactly the sentence calls of
/// `process_speech` on those arguments, and keeps the call text it leaves.
/// With fewer arguments, or a lone quote mark, nothing is spoken and the
/// dangling call is kept as it is.
pub proof fn lemma_dangling_speech_is_spoken(d: Seq<char>, p: SpeechPrefix, args: Seq<Seq<char>>)
    requires
        spec_command_name(d) == Some(voice_name()) || spec_command_name(d) == Some(speak_name()),
        spec_parse_arguments(char_slice(d, spec_command_name(d).unwrap().len() + 1 as int, d.len() as int))
            == Some(args),
    ensures
        ({
            let n = spec_command_name(d).unwrap();
            let k: int = if n == voice_name() {
                2
            } else {
                0
            };
            if args.len() >= k + 1 && args[k] != seq!['"'] && args[k] != seq!['\''] {
                dangling_plan(d, p) == (spec_process_speech(n, args).0, Some(
                    spec_process_speech(n, args).1,
                ))
            } else {
                dangling_plan(d, p) == (Seq::<CallView>::empty(), Some(d))
            }
        }),
{
    assert(!read_as_speech(d));
    assert(speak_name() != voice_name()) by {
        assert(speak_name()[0] != voice_name()[0]);
    }
}

/// A sentence of speech as the original pattern reads it: it runs up to
/// and through the first line break, `.`, `?` or `!`.
pub open spec fn is_sentence(t: Seq<char>) -> bool {
    &&& t.len() > 0
    &&& (t.last() == '\n' || t.last() == '\r' || t.last() == '.' || t.last() == '?' || t.last() == '!')
    &&& forall|j: int|
        0 <= j < t.len() - 1 ==> !(t[j] == '\n' || t[j] == '\r' || t[j] == '.' || t[j] == '?'
            || t[j] == '!')
}

/// `r` cuts `s[start..]` into consecutive sentences, and what follows the
/// last of them ends no sentence.
pub open spec fn sentence_cuts(s: Seq<char>, r: Seq<(int, int)>, start: int) -> bool {
    &&& forall|k: int|
        0 <= k < r.len() ==> start <= (#[trigger] r[k]).0 < r[k].1 <= s.len() && is_sentence(
            s.subrange(r[k].0, r[k].1),
        )
    &&& r.len() > 0 ==> r[0].0 == start
    &&& forall|k: int| 0 < k < r.len() ==> (#[trigger] r[k]).0 == r[k - 1].1
    &&& forall|j: int|
        (if r.len() == 0 {
            start
        } else {
            r.last().1
        }) <= j < s.len() ==> !(s[j] == '\n' || s[j] == '\r' || s[j] == '.' || s[j] == '?' || s[j]
            == '!')
}

proof fn lemma_speech_ranges_cut(s: Seq<char>, start: int, d: int)
    requires
        0 <= start <= d <= s.len(),
        forall|j: int|
            start <= j < d ==> !(s[j] == '\n' || s[j] == '\r' || s[j] == '.' || s[j] == '?' || s[j]
                == '!'),
    ensures
        sentence_cuts(s, speech_ranges(s, start, d), start),
    decreases s.len() - d,
{
    if d < s.len() {
        if is_speech_stop(s[d]) {
            lemma_speech_ranges_cut(s, d + 1, d + 1);
            let rest = speech_ranges(s, d + 1, d + 1);
            let r = seq![(start, d + 1)] + rest;
            assert(speech_ranges(s, start, d) == r);
            let t = s.subrange(start, d + 1);
            assert(is_sentence(t)) by {
                assert(t.last() == s[d]);
                assert forall|j: int| 0 <= j < t.len() - 1 implies !(t[j] == '\n' || t[j] == '\r'
                    || t[j] == '.' || t[j] == '?' || t[j] == '!') by {
                    assert(t[j] == s[start + j]);
                }
            }
            assert forall|k: int| 0 <= k < r.len() implies start <= (#[trigger] r[k]).0 < r[k].1
                <= s.len() && is_sentence(s.subrange(r[k].0, r[k].1)) by {
                if k > 0 {
                    assert(r[k] == rest[k - 1]);
                }
            }
            assert forall|k: int| 0 < k < r.len() implies (#[trigger] r[k]).0 == r[k - 1].1 by {
                assert(r[k] == rest[k - 1]);
                if k > 1 {
                    assert(r[k - 1] == rest[k - 2]);
                }
            }
            if rest.len() > 0 {
                assert(r.last() == rest.last());
            }
        } else {
            lemma_speech_ranges_cut(s, start, d + 1);
        }
    }
}

/// The last arguments of `calls`, one after another.
pub open spec fn last_args(calls: Seq<CallView>) -> Seq<char>
    decreases calls.len(),
{
    if calls.len() == 0 {
        Seq::empty()
    } else {
        last_args(calls.drop_last()) + calls.last().1.last()
    }
}

proof fn lemma_last_args_push(calls: Seq<CallView>, c: CallView)
    ensures
        last_args(calls.push(c)) == last_args(calls) + c.1.last(),
{
    assert(calls.push(c).drop_last() =~= calls);
}

proof fn lemma_speech_calls_are_sentences(
    name: Seq<char>,
    args: Seq<Seq<char>>,
    text: Seq<char>,
    r: Seq<(int, int)>,
)
    requires
        args.len() >= 1,
        forall|k: int|
            0 <= k < r.len() ==> 0 <= (#[trigger] r[k]).0 < r[k].1 <= text.len() && is_sentence(
                text.subrange(r[k].0, r[k].1),
            ),
    ensures
        last_args(speech_calls(name, args, text, r).0) == speech_calls(name, args, text, r).1,
        forall|j: int|
            0 <= j < speech_calls(name, args, text, r).0.len() ==> is_sentence(
                (#[trigger] speech_calls(name, args, text, r).0[j]).1.last(),
            ),
    decreases r.len(),
{
    if r.len() > 0 {
        let p = r.drop_last();
        assert forall|k: int| 0 <= k < p.len() implies 0 <= (#[trigger] p[k]).0 < p[k].1
            <= text.len() && is_sentence(text.subrange(p[k].0, p[k].1)) by {
            assert(p[k] == r[k]);
        }
        lemma_speech_calls_are_sentences(name, args, text, p);
        let (calls, spoken) = speech_calls(name, args, text, p);
        let sentence = text.subrange(r.last().0, r.last().1);
        assert(is_sentence(sentence)) by {
            assert(r.last() == r[r.len() - 1]);
        }
        if is_spoken(sentence) {
            let c = (name, args.update(args.len() - 1, sentence));
            assert(c.1.last() == sentence);
            lemma_last_args_push(calls, c);
            let all = calls.push(c);
            assert forall|j: int| 0 <= j < all.len() implies is_sentence((#[trigger] all[j]).1.last()) by {
                if j < calls.len() {
                    assert(all[j] == calls[j]);
                }
            }
        }
    }
}

proof fn lemma_strip_front_keeps(s: Seq<char>, cls: CharClass, i: int)
    requires
        0 <= i < s.len(),
        !in_class(cls, s[i]),
    ensures
        strip_front(s, cls).len() <= s.len(),
        s.len() - strip_front(s, cls).len() <= i,
        strip_front(s, cls) == s.skip(s.len() - strip_front(s, cls).len()),
    decreases s.len(),
{
    lemma_strip_front_shape(s, cls);
    if s.len() > 0 && in_class(cls, s[0]) {
        assert(s.drop_first()[i - 1] == s[i]);
        lemma_strip_front_keeps(s.drop_first(), cls, i - 1);
    }
}

proof fn lemma_strip_back_keeps(s: Seq<char>, cls: CharClass, i: int)
    requires
        0 <= i < s.len(),
        !in_class(cls, s[i]),
    ensures
        i < strip_back(s, cls).len() <= s.len(),
        strip_back(s, cls) == s.take(strip_back(s, cls).len() as int),
    decreases s.len(),
{
    if s.len() > 0 && in_class(cls, s.last()) {
        assert(s.drop_last()[i] == s[i]);
        lemma_strip_back_keeps(s.drop_last(), cls, i);
        let r = strip_back(s.drop_last(), cls);
        assert(s.drop_last().take(r.len() as int) =~= s.take(r.len() as int));
    } else {
        assert(s.take(s.len() as int) =~= s);
    }
}

/// A character outside the class survives trimming.
proof fn lemma_strip_keeps(s: Seq<char>, cls: CharClass, x: char)
    requires
        s.contains(x),
        !in_class(cls, x),
    ensures
        strip(s, cls).contains(x),
{
    let i = choose|i: int| 0 <= i < s.len() && s[i] == x;
    lemma_strip_front_keeps(s, cls, i);
    let f = strip_front(s, cls);
    let m = s.len() - f.len();
    assert(f == s.skip(m));
    assert(s.skip(m)[i - m] == s[i]);
    assert(f[i - m] == x);
    lemma_strip_back_keeps(f, cls, i - m);
    let b = strip_back(f, cls);
    assert(b[i - m] == f[i - m]);
}

/// A sentence with a character that is no stop and no comma is spoken.
proof fn lemma_sentence_spoken(t: Seq<char>, x: char)
    requires
        t.len() >= 2,
        t.contains(x),
        !(x == '\n' || x == '\r' || x == '.' || x == '?' || x == '!' || x == ','),
    ensures
        is_spoken(t),
{
    lemma_strip_keeps(t, CharClass::Only('.'), x);
    let a = strip(t, CharClass::Only('.'));
    lemma_strip_keeps(a, CharClass::Only(','), x);
    let b = strip(a, CharClass::Only(','));
    lemma_strip_keeps(b, CharClass::Only('!'), x);
    let c = strip(b, CharClass::Only('!'));
    lemma_strip_keeps(c, CharClass::Only('?'), x);
    assert(t != seq!['"']);
}

proof fn lemma_all_spoken_is_prefix(
    name: Seq<char>,
    args: Seq<Seq<char>>,
    s: Seq<char>,
    r: Seq<(int, int)>,
)
    requires
        args.len() >= 1,
        forall|k: int|
            0 <= k < r.len() ==> 0 <= (#[trigger] r[k]).0 < r[k].1 <= s.len() && is_spoken(
                s.subrange(r[k].0, r[k].1),
            ),
        r.len() > 0 ==> r[0].0 == 0,
        forall|k: int| 0 < k < r.len() ==> (#[trigger] r[k]).0 == r[k - 1].1,
    ensures
        speech_calls(name, args, s, r).1 == s.take(
            if r.len() == 0 {
                0
            } else {
                r.last().1
            },
        ),
    decreases r.len(),
{
    if r.len() > 0 {
        let p = r.drop_last();
        assert forall|k: int| 0 <= k < p.len() implies 0 <= (#[trigger] p[k]).0 < p[k].1
            <= s.len() && is_spoken(s.subrange(p[k].0, p[k].1)) by {
            assert(p[k] == r[k]);
        }
        assert forall|k: int| 0 < k < p.len() implies (#[trigger] p[k]).0 == p[k - 1].1 by {
            assert(p[k] == r[k] && p[k - 1] == r[k - 1]);
        }
        lemma_all_spoken_is_prefix(name, args, s, p);
        let last = r[r.len() - 1];
        assert(r.last() == last);
        let e: int = if p.len() == 0 {
            0
        } else {
            p.last().1
        };
        assert(last.0 == e) by {
            if p.len() > 0 {
                assert(p.last() == r[r.len() - 2]);
            }
        }
        assert(s.take(e) + s.subrange(e, last.1) =~= s.take(last.1));
    }
}

/// Every line break, `.`, `?` or `!` in `s` follows a character that is
/// none of these and no comma.
pub open spec fn stops_follow_words(s: Seq<char>) -> bool {
    forall|j: int|
        0 <= j < s.len() && (#[trigger] s[j] == '\n' || s[j] == '\r' || s[j] == '.' || s[j] == '?'
            || s[j] == '!') ==> j > 0 && !(s[j - 1] == '\n' || s[j - 1] == '\r' || s[j - 1] == '.'
            || s[j - 1] == '?' || s[j - 1] == '!' || s[j - 1] == ',')
}

/// Speech is spoken sentence by sentence, where a sentence ends at a line
/// break, `.`, `?` or `!`. Every call `process_speech` makes carries one
/// whole sentence as its last argument; and when every sentence has a word
/// before its stop (no stop follows a stop or a comma, and the text does
/// not start with one), the calls' sentences, one after another, are the
/// text up to its last stop, and nothing after them ends a sentence.
pub proof fn lemma_speech_by_sentences(name: Seq<char>, args: Seq<Seq<char>>)
    requires
        args.len() >= 1,
    ensures
        ({
            let s = args.last();
            let calls = spec_process_speech(name, args).0;
            let p = last_args(calls).len() as int;
            &&& forall|j: int| 0 <= j < calls.len() ==> is_sentence((#[trigger] calls[j]).1.last())
            &&& stops_follow_words(s) ==> {
                &&& p <= s.len()
                &&& last_args(calls) == s.take(p)
                &&& (p == 0 || s[p - 1] == '\n' || s[p - 1] == '\r' || s[p - 1] == '.' || s[p - 1]
                    == '?' || s[p - 1] == '!')
                &&& forall|j: int|
                    p <= j < s.len() ==> !(s[j] == '\n' || s[j] == '\r' || s[j] == '.' || s[j]
                        == '?' || s[j] == '!')
            }
        }),
{
    let s = args.last();
    let r = speech_ranges(s, 0, 0);
    lemma_speech_ranges_cut(s, 0, 0);
    lemma_speech_calls_are_sentences(name, args, s, r);
    let calls = speech_calls(name, args, s, r).0;
    assert(spec_process_speech(name, args).0 == calls);
    if stops_follow_words(s) {
        assert forall|k: int| 0 <= k < r.len() implies 0 <= (#[trigger] r[k]).0 < r[k].1 <= s.len()
            && is_spoken(s.subrange(r[k].0, r[k].1)) by {
            let (a, b) = r[k];
            let t = s.subrange(a, b);
            assert(is_sentence(t));
            assert(t.last() == s[b - 1]);
            let j = b - 1;
            assert(j > 0);
            if a == j {
                if k == 0 {
                    assert(r[0].0 == 0);
                } else {
                    assert(r[k].0 == r[k - 1].1);
                    let u = s.subrange(r[k - 1].0, r[k - 1].1);
                    assert(is_sentence(u));
                    assert(u.last() == s[a - 1]);
                }
            }
            assert(t[t.len() - 2] == s[j - 1]);
            assert(t.len() >= 2);
            assert(t.contains(s[j - 1]));
            lemma_sentence_spoken(t, s[j - 1]);
        }
        lemma_all_spoken_is_prefix(name, args, s, r);
        let e: int = if r.len() == 0 {
            0
        } else {
            r.last().1
        };
        assert(s.take(e).len() == e);
        if r.len() > 0 {
            assert(r.last() == r[r.len() - 1]);
            let u = s.subrange(r.last().0, r.last().1);
            assert(is_sentence(u));
            assert(u.last() == s[e - 1]);
        }
    }
}

proof fn lemma_ascii_utf8_len(chars: Seq<char>)
    requires
        forall|j: int| 0 <= j < chars.len() ==> (#[trigger] chars[j] as u32) < 128,
    ensures
        encode_utf8(chars).len() == chars.len(),
    decreases chars.len(),
{
    if chars.len() > 0 {
        let t = chars.drop_first();
        assert forall|j: int| 0 <= j < t.len() implies (#[trigger] t[j] as u32) < 128 by {
            assert(t[j] == chars[j + 1]);
        }
        lemma_ascii_utf8_len(t);
        assert((chars[0] as u32) < 128);
    }
}

/// What is left of ASCII speech whose every sentence has a word before its
/// stop: the call text kept for later names the same task with the same
/// arguments, its text argument being the text after the last stop,
/// trimmed of whitespace.
pub proof fn lemma_speech_keeps_unfinished_text(name: Seq<char>, args: Seq<Seq<char>>)
    requires
        args.len() >= 1,
        args.last().len() < usize::MAX,
        forall|j: int| 0 <= j < args.last().len() ==> (#[trigger] args.last()[j] as u32) < 128,
        stops_follow_words(args.last()),
    ensures
        ({
            let s = args.last();
            let p = last_args(spec_process_speech(name, args).0).len() as int;
            spec_process_speech(name, args).1 == name + seq!['('] + render_args(
                args.update(args.len() - 1, strip(s.subrange(p, s.len() as int), CharClass::Whitespace)),
            )
        }),
{
    let s = args.last();
    lemma_speech_by_sentences(name, args);
    let r = speech_ranges(s, 0, 0);
    let (calls, spoken) = speech_calls(name, args, s, r);
    lemma_speech_ranges_cut(s, 0, 0);
    lemma_speech_calls_are_sentences(name, args, s, r);
    let p = last_args(calls).len() as int;
    assert(spoken == s.take(p));
    assert forall|j: int| 0 <= j < spoken.len() implies (#[trigger] spoken[j] as u32) < 128 by {
        assert(spoken[j] == s[j]);
    }
    lemma_ascii_utf8_len(spoken);
    lemma_ascii_utf8_len(s);
    assert(char_slice(s, p, s.len() as int) == s.subrange(p, s.len() as int) || p == s.len());
    if p == s.len() {
        assert(char_slice(s, p, s.len() as int) =~= s.subrange(p, s.len() as int));
    }
}

/// The pieces joined by commas.
pub open spec fn comma_join(ps: Seq<Seq<char>>) -> Seq<char>
    decreases ps.len(),
{
    if ps.len() == 0 {
        Seq::empty()
    } else if ps.len() == 1 {
        ps[0]
    } else {
        comma_join(ps.drop_last()) + seq![','] + ps.last()
    }
}

pub open spec fn plain_text(q: Seq<char>) -> bool {
    forall|j: int| 0 <= j < q.len() ==> q[j] != '"' && q[j] != '\'' && q[j] != ','
}

proof fn lemma_scan_plain(x: Seq<char>, q: Seq<char>)
    requires
        plain_text(q),
        !arg_scan(x).fault,
        !arg_scan(x).in_quotes,
        !arg_scan(x).in_single,
        arg_scan(x).current is Some || q.len() > 0,
    ensures
        arg_scan(x + q) == (ArgScan {
            current: Some(
                match arg_scan(x).current {
                    Some(c) => c,
                    None => Seq::empty(),
                } + q,
            ),
            ..arg_scan(x)
        }),
    decreases q.len(),
{
    let st = arg_scan(x);
    let c0 = match st.current {
        Some(c) => c,
        None => Seq::<char>::empty(),
    };
    if q.len() == 0 {
        assert(x + q =~= x);
        assert(c0 + q =~= c0);
    } else {
        let q1 = q.drop_last();
        assert(plain_text(q1)) by {
            assert forall|j: int| 0 <= j < q1.len() implies q1[j] != '"' && q1[j] != '\'' && q1[j]
                != ',' by {
                assert(q1[j] == q[j]);
            }
        }
        let c = q.last();
        assert(c == q[q.len() - 1]);
        assert((x + q).drop_last() =~= x + q1);
        assert((x + q).last() == c);
        if q1.len() == 0 {
            assert(x + q1 =~= x);
            assert(c0.push(c) =~= c0 + q);
        } else {
            lemma_scan_plain(x, q1);
            assert((c0 + q1).push(c) =~= c0 + q);
        }
    }
}

proof fn lemma_scan_comma_join(ps: Seq<Seq<char>>)
    requires
        ps.len() >= 1,
        ps[0].len() > 0,
        forall|k: int| 0 <= k < ps.len() ==> plain_text(#[trigger] ps[k]),
    ensures
        arg_scan(comma_join(ps)) == (ArgScan {
            args: ps.drop_last().map_values(|a: Seq<char>| strip(a, CharClass::Whitespace)),
            current: Some(ps.last()),
            in_quotes: false,
            in_single: false,
            fault: false,
        }),
    decreases ps.len(),
{
    if ps.len() == 1 {
        lemma_scan_plain(Seq::empty(), ps[0]);
        assert(Seq::<char>::empty() + ps[0] =~= ps[0]);
        assert(arg_scan(Seq::<char>::empty()) == arg_start());
        assert(ps.drop_last().map_values(|a: Seq<char>| strip(a, CharClass::Whitespace)) =~= Seq::<
            Seq<char>,
        >::empty());
    } else {
        let pre = ps.drop_last();
        assert(pre[0] == ps[0]);
        assert forall|k: int| 0 <= k < pre.len() implies plain_text(#[trigger] pre[k]) by {
            assert(pre[k] == ps[k]);
        }
        lemma_scan_comma_join(pre);
        let x = comma_join(pre);
        let xc = x + seq![','];
        assert(xc.drop_last() =~= x);
        assert(xc.last() == ',');
        let st = arg_scan(xc);
        assert(st.args == pre.drop_last().map_values(|a: Seq<char>| strip(a, CharClass::Whitespace))
            .push(strip(pre.last(), CharClass::Whitespace)));
        assert(st.args =~= ps.drop_last().map_values(|a: Seq<char>| strip(a, CharClass::Whitespace)));
        assert(st.current == Some(Seq::<char>::empty()));
        assert(plain_text(ps.last())) by {
            assert(ps.last() == ps[ps.len() - 1]);
        }
        lemma_scan_plain(xc, ps.last());
        assert(comma_join(ps) == xc + ps.last());
        assert(Seq::<char>::empty() + ps.last() =~= ps.last());
    }
}

/// Outside quotes, every comma ends an argument: a list of unquoted
/// pieces without commas, the first not empty, is read as those pieces,
/// each trimmed of whitespace, in order.
pub proof fn lemma_unquoted_arguments_split_at_commas(ps: Seq<Seq<char>>)
    requires
        ps.len() >= 1,
        ps[0].len() > 0,
        forall|k: int| 0 <= k < ps.len() ==> plain_text(#[trigger] ps[k]),
    ensures
        spec_parse_arguments(comma_join(ps)) == Some(
            ps.map_values(|a: Seq<char>| strip(a, CharClass::Whitespace)),
        ),
{
    lemma_scan_comma_join(ps);
    assert(ps.drop_last().map_values(|a: Seq<char>| strip(a, CharClass::Whitespace)).push(
        strip(ps.last(), CharClass::Whitespace),
    ) =~= ps.map_values(|a: Seq<char>| strip(a, CharClass::Whitespace)));
}

} // verus!
