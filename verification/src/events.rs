//! Event names as the model sees them: a task type's name without its
//! module path and its `EventArgs`/`Event` suffix words, in snake case.
use crate::text::{chars_of, push_char};
use vstd::prelude::*;

verus! {

/// Whether `c` has the Unicode Uppercase property (`char::is_uppercase`).
pub uninterp spec fn char_is_upper(c: char) -> bool;

/// The first character of the lowercase mapping of `c`
/// (`char::to_lowercase`).
pub uninterp spec fn char_lower_first(c: char) -> char;

/// `char::is_uppercase`.
#[verifier::external_body]
fn is_uppercase(c: char) -> (r: bool)
    ensures
        r == char_is_upper(c),
{
    c.is_uppercase()
}

/// `char::to_lowercase`: the first character of the mapping, which always
/// has at least one.
#[verifier::external_body]
fn lower_first(c: char) -> (r: char)
    ensures
        r == char_lower_first(c),
{
    c.to_lowercase().next().unwrap()
}

/// Snake case from the characters of a name, whether each is uppercase,
/// and the lowercase of each: an underscore goes before every uppercase
/// character but the first, and every character is lowered.
pub open spec fn snake_from(cs: Seq<char>, upper: Seq<bool>, lower: Seq<char>) -> Seq<char>
    decreases cs.len(),
{
    if cs.len() == 0 {
        Seq::empty()
    } else {
        let n = cs.len() - 1;
        let r = snake_from(cs.drop_last(), upper.take(n), lower.take(n));
        (if upper[n] && n > 0 {
            r.push('_')
        } else {
            r
        }).push(lower[n])
    }
}

/// `camel_to_snake` of a name.
pub open spec fn snake_case(s: Seq<char>) -> Seq<char> {
    snake_from(
        s,
        Seq::new(s.len(), |i: int| char_is_upper(s[i])),
        Seq::new(s.len(), |i: int| char_lower_first(s[i])),
    )
}

/// Snake case from a name's characters and their case facts (as
/// `char::is_uppercase` and `char::to_lowercase` report them).
pub fn snake_from_flags(cs: &Vec<char>, upper: &Vec<bool>, lower: &Vec<char>) -> (r: String)
    requires
        upper@.len() == cs@.len(),
        lower@.len() == cs@.len(),
    ensures
        r@ == snake_from(cs@, upper@, lower@),
{
    let mut s = String::new();
    let mut i: usize = 0;
    while i < cs.len()
        invariant
            i <= cs@.len() == upper@.len() == lower@.len(),
            s@ == snake_from(cs@.take(i as int), upper@.take(i as int), lower@.take(i as int)),
        decreases cs@.len() - i,
    {
        assert(cs@.take(i + 1).drop_last() =~= cs@.take(i as int));
        assert(upper@.take(i + 1).take(i as int) =~= upper@.take(i as int));
        assert(lower@.take(i + 1).take(i as int) =~= lower@.take(i as int));
        if upper[i] && i != 0 {
            push_char(&mut s, '_');
        }
        push_char(&mut s, lower[i]);
        i = i + 1;
    }
    assert(cs@.take(i as int) =~= cs@);
    assert(upper@.take(i as int) =~= upper@);
    assert(lower@.take(i as int) =~= lower@);
    s
}

/// `s` in snake case: `SpeakResult` becomes `speak_result`.
pub fn camel_to_snake(s: &str) -> (r: String)
    ensures
        r@ == snake_case(s@),
{
    let cs = chars_of(s);
    let mut upper: Vec<bool> = Vec::new();
    let mut lower: Vec<char> = Vec::new();
    let mut i: usize = 0;
    while i < cs.len()
        invariant
            i <= cs@.len(),
            cs@ == s@,
            upper@ == Seq::new(i as nat, |k: int| char_is_upper(s@[k])),
            lower@ == Seq::new(i as nat, |k: int| char_lower_first(s@[k])),
        decreases cs@.len() - i,
    {
        let u = is_uppercase(cs[i]);
        let l = lower_first(cs[i]);
        upper.push(u);
        lower.push(l);
        i = i + 1;
        assert(upper@ =~= Seq::new(i as nat, |k: int| char_is_upper(s@[k])));
        assert(lower@ =~= Seq::new(i as nat, |k: int| char_lower_first(s@[k])));
    }
    snake_from_flags(&cs, &upper, &lower)
}

/// Whether `pat` occurs in `s` at position `i`.
pub open spec fn occurs_at(s: Seq<char>, pat: Seq<char>, i: int) -> bool {
    0 <= i && i + pat.len() <= s.len() && s.subrange(i, i + pat.len() as int) == pat
}

/// `s` with every occurrence of `pat`, taken left to right without
/// overlap, removed (`str::replace(pat, "")`).
pub open spec fn remove_all(s: Seq<char>, pat: Seq<char>) -> Seq<char>
    decreases s.len(),
{
    if s.len() == 0 || pat.len() == 0 {
        s
    } else if occurs_at(s, pat, 0) {
        remove_all(s.skip(pat.len() as int), pat)
    } else {
        seq![s[0]] + remove_all(s.drop_first(), pat)
    }
}

/// The part after the last `::`, or all of `s`.
pub open spec fn after_last_path_sep(s: Seq<char>) -> Seq<char> {
    if exists|i: int| occurs_at(s, seq![':', ':'], i) {
        let i = choose|i: int|
            occurs_at(s, seq![':', ':'], i) && forall|j: int|
                occurs_at(s, seq![':', ':'], j) ==> j <= i;
        s.skip(i + 2)
    } else {
        s
    }
}

pub open spec fn event_args_word() -> Seq<char> {
    seq!['E', 'v', 'e', 'n', 't', 'A', 'r', 'g', 's']
}

pub open spec fn event_word() -> Seq<char> {
    seq!['E', 'v', 'e', 'n', 't']
}

/// The event name of a task type named `type_path`.
pub open spec fn spec_event_name(type_path: Seq<char>) -> Seq<char> {
    snake_case(
        remove_all(remove_all(after_last_path_sep(type_path), event_args_word()), event_word()),
    )
}

fn occurs_at_exec(v: &Vec<char>, pat: &Vec<char>, i: usize) -> (r: bool)
    ensures
        r == occurs_at(v@, pat@, i as int),
{
    if i > v.len() || pat.len() > v.len() - i {
        return false;
    }
    let mut k: usize = 0;
    while k < pat.len()
        invariant
            k <= pat@.len(),
            i + pat@.len() <= v@.len(),
            v@.len() == v.len(),
            forall|j: int| 0 <= j < k ==> v@[i + j] == pat@[j],
        decreases pat@.len() - k,
    {
        if v[i + k] != pat[k] {
            assert(v@.subrange(i as int, i + pat@.len())[k as int] != pat@[k as int]);
            return false;
        }
        k = k + 1;
    }
    assert(v@.subrange(i as int, i + pat@.len()) =~= pat@);
    true
}

fn remove_all_exec(v: &Vec<char>, pat: &Vec<char>) -> (r: Vec<char>)
    ensures
        r@ == remove_all(v@, pat@),
{
    if pat.len() == 0 {
        let mut out: Vec<char> = Vec::new();
        let mut k: usize = 0;
        while k < v.len()
            invariant
                k <= v@.len(),
                out@ == v@.take(k as int),
            decreases v@.len() - k,
        {
            out.push(v[k]);
            k = k + 1;
            assert(out@ =~= v@.take(k as int));
        }
        assert(v@.take(k as int) =~= v@);
        return out;
    }
    let mut out: Vec<char> = Vec::new();
    let mut i: usize = 0;
    assert(v@.skip(0) =~= v@);
    assert(out@ + remove_all(v@, pat@) =~= remove_all(v@, pat@));
    while i < v.len()
        invariant
            i <= v@.len(),
            pat@.len() > 0,
            out@ + remove_all(v@.skip(i as int), pat@) == remove_all(v@, pat@),
        decreases v@.len() - i,
    {
        let ghost rest = v@.skip(i as int);
        if occurs_at_exec(v, pat, i) {
            assert(occurs_at(rest, pat@, 0)) by {
                assert(rest.subrange(0, pat@.len() as int) =~= v@.subrange(
                    i as int,
                    i + pat@.len(),
                ));
            }
            assert(rest.skip(pat@.len() as int) =~= v@.skip(i + pat@.len()));
            i = i + pat.len();
        } else {
            assert(!occurs_at(rest, pat@, 0)) by {
                if rest.len() >= pat@.len() {
                    assert(rest.subrange(0, pat@.len() as int) =~= v@.subrange(
                        i as int,
                        i + pat@.len(),
                    ));
                }
            }
            assert(rest.drop_first() =~= v@.skip(i + 1));
            assert(out@.push(v@[i as int]) + remove_all(v@.skip(i + 1), pat@) =~= out@ + (seq![
                rest[0],
            ] + remove_all(rest.drop_first(), pat@)));
            out.push(v[i]);
            i = i + 1;
        }
    }
    assert(v@.skip(i as int).len() == 0);
    assert(out@ + remove_all(v@.skip(i as int), pat@) =~= out@);
    out
}

/// The event name of a task type from its type path:
/// `ragent::tasks::SpeakResultEventArgs` becomes `speak_result`.
pub fn get_event_name_from_type_name(type_path: &str) -> (r: String)
    ensures
        r@ == spec_event_name(type_path@),
{
    let v = chars_of(type_path);
    let n = v.len();
    let sep = vec![':', ':'];
    let mut start: usize = 0;
    let mut i: usize = 0;
    let mut found = false;
    while i < n
        invariant
            i <= n == v@.len(),
            v@ == type_path@,
            sep@ == seq![':', ':'],
            found ==> occurs_at(v@, sep@, start - 2) && start >= 2,
            forall|j: int| 0 <= j < i && occurs_at(v@, sep@, j) ==> found && j <= start - 2,
            !found ==> start == 0,
        decreases n - i,
    {
        if occurs_at_exec(&v, &sep, i) {
            found = true;
            start = i + 2;
        }
        i = i + 1;
    }
    proof {
        assert forall|j: int| occurs_at(v@, sep@, j) implies 0 <= j < n by {}
        if found {
            let k = start - 2;
            assert(occurs_at(v@, sep@, k) && forall|j: int| occurs_at(v@, sep@, j) ==> j <= k);
            let c = choose|c: int|
                occurs_at(v@, sep@, c) && forall|j: int| occurs_at(v@, sep@, j) ==> j <= c;
            assert(c == k);
        }
    }
    let mut tail: Vec<char> = Vec::new();
    let mut k = start;
    while k < n
        invariant
            start <= k <= n == v@.len(),
            tail@ == v@.subrange(start as int, k as int),
        decreases n - k,
    {
        tail.push(v[k]);
        k = k + 1;
        assert(tail@ =~= v@.subrange(start as int, k as int));
    }
    assert(tail@ =~= after_last_path_sep(type_path@));
    let args_word = vec!['E', 'v', 'e', 'n', 't', 'A', 'r', 'g', 's'];
    let event_w = vec!['E', 'v', 'e', 'n', 't'];
    assert(args_word@ =~= event_args_word());
    assert(event_w@ =~= event_word());
    let a = remove_all_exec(&tail, &args_word);
    let b = remove_all_exec(&a, &event_w);
    let mut upper: Vec<bool> = Vec::new();
    let mut lower: Vec<char> = Vec::new();
    let mut j: usize = 0;
    while j < b.len()
        invariant
            j <= b@.len(),
            upper@ == Seq::new(j as nat, |x: int| char_is_upper(b@[x])),
            lower@ == Seq::new(j as nat, |x: int| char_lower_first(b@[x])),
        decreases b@.len() - j,
    {
        let u = is_uppercase(b[j]);
        let l = lower_first(b[j]);
        upper.push(u);
        lower.push(l);
        j = j + 1;
        assert(upper@ =~= Seq::new(j as nat, |x: int| char_is_upper(b@[x])));
        assert(lower@ =~= Seq::new(j as nat, |x: int| char_lower_first(b@[x])));
    }
    snake_from_flags(&b, &upper, &lower)
}

/// `parts` joined by `sep`.
pub open spec fn join(parts: Seq<Seq<char>>, sep: Seq<char>) -> Seq<char>
    decreases parts.len(),
{
    if parts.len() == 0 {
        Seq::empty()
    } else if parts.len() == 1 {
        parts[0]
    } else {
        join(parts.drop_last(), sep) + sep + parts.last()
    }
}

fn append_joined(out: &mut String, parts: &Vec<String>, sep: &str)
    ensures
        final(out)@ == old(out)@ + join(parts@.map_values(|p: String| p@), sep@),
{
    let ghost ps = parts@.map_values(|p: String| p@);
    let mut i: usize = 0;
    while i < parts.len()
        invariant
            i <= parts@.len(),
            ps == parts@.map_values(|p: String| p@),
            out@ == old(out)@ + join(ps.take(i as int), sep@),
        decreases parts@.len() - i,
    {
        assert(ps.take(i + 1).drop_last() =~= ps.take(i as int));
        assert(ps.take(i + 1).last() == parts@[i as int]@);
        if i > 0 {
            out.append(sep);
        }
        out.append(parts[i].as_str());
        i = i + 1;
        assert(out@ =~= old(out)@ + join(ps.take(i as int), sep@)) by {
            if i == 1 {
                assert(ps.take(1)[0] == parts@[0]@);
            }
        }
    }
    assert(ps.take(i as int) =~= ps);
}

/// A field as the model sees it: quoted, empty when it is not text.
pub open spec fn quoted(f: Option<Seq<char>>) -> Seq<char> {
    seq!['"'] + match f {
        Some(s) => s,
        None => Seq::empty(),
    } + seq!['"']
}

pub open spec fn opt_strings_view(v: Seq<Option<String>>) -> Seq<Option<Seq<char>>> {
    v.map_values(|f: Option<String>| match f {
        Some(s) => Some(s@),
        None => None,
    })
}

/// An event as the model sees it: `name("field", "", ...)`.
pub open spec fn spec_event_description(name: Seq<char>, fields: Seq<Option<Seq<char>>>) -> Seq<char> {
    name + seq!['('] + join(fields.map_values(|f: Option<Seq<char>>| quoted(f)), ", "@) + seq![')']
}

/// Describes an event by its name and its fields (`None` for a field that
/// is not text).
pub fn event_description(name: &str, fields: &Vec<Option<String>>) -> (r: String)
    ensures
        r@ == spec_event_description(name@, opt_strings_view(fields@)),
{
    let mut parts: Vec<String> = Vec::new();
    let mut i: usize = 0;
    while i < fields.len()
        invariant
            i <= fields@.len(),
            parts@.map_values(|p: String| p@) == opt_strings_view(fields@).take(i as int).map_values(
                |f: Option<Seq<char>>| quoted(f),
            ),
        decreases fields@.len() - i,
    {
        let mut q = String::new();
        push_char(&mut q, '"');
        match &fields[i] {
            Some(s) => q.append(s.as_str()),
            None => {},
        }
        push_char(&mut q, '"');
        let ghost before = parts@;
        let ghost qv = q@;
        assert(opt_strings_view(fields@)[i as int] == match fields@[i as int] {
            Some(s) => Some(s@),
            None => None::<Seq<char>>,
        });
        assert(qv =~= quoted(opt_strings_view(fields@)[i as int]));
        parts.push(q);
        assert(parts@.map_values(|p: String| p@) =~= opt_strings_view(fields@).take(i + 1).map_values(
            |f: Option<Seq<char>>| quoted(f),
        )) by {
            assert(before.map_values(|p: String| p@) =~= opt_strings_view(fields@).take(
                i as int,
            ).map_values(|f: Option<Seq<char>>| quoted(f)));
            assert(parts@.map_values(|p: String| p@) =~= before.map_values(|p: String| p@).push(qv));
        }
        i = i + 1;
    }
    assert(opt_strings_view(fields@).take(i as int) =~= opt_strings_view(fields@));
    let mut out = String::from_str(name);
    push_char(&mut out, '(');
    append_joined(&mut out, &parts, ", ");
    push_char(&mut out, ')');
    out
}

/// What the model is told of a task it may call.
pub struct TaskSummary {
    pub name: String,
    pub description: String,
    pub parameters: Vec<String>,
    pub is_available: bool,
}

/// A task as (name, description, parameter names, available).
pub type SummaryView = (Seq<char>, Seq<char>, Seq<Seq<char>>, bool);

pub open spec fn summary_view(t: TaskSummary) -> SummaryView {
    (t.name@, t.description@, t.parameters@.map_values(|p: String| p@), t.is_available)
}

pub open spec fn summaries_view(ts: Seq<TaskSummary>) -> Seq<SummaryView> {
    ts.map_values(|t: TaskSummary| summary_view(t))
}

/// `name(<p1>, <p2>) - description`.
pub open spec fn task_line(t: SummaryView) -> Seq<char> {
    t.0 + seq!['('] + join(t.2.map_values(|p: Seq<char>| seq!['<'] + p + seq!['>']), ", "@)
        + ") - "@ + t.1
}

/// The tasks, one paragraph each.
pub open spec fn spec_task_configs_description(ts: Seq<SummaryView>) -> Seq<char> {
    join(ts.map_values(|t: SummaryView| task_line(t)), "\n\n"@)
}

fn task_line_exec(t: &TaskSummary) -> (r: String)
    ensures
        r@ == task_line(summary_view(*t)),
{
    let ghost names = t.parameters@.map_values(|p: String| p@);
    let mut params: Vec<String> = Vec::new();
    let mut i: usize = 0;
    while i < t.parameters.len()
        invariant
            i <= t.parameters@.len(),
            names == t.parameters@.map_values(|p: String| p@),
            params@.map_values(|p: String| p@) == names.take(i as int).map_values(
                |p: Seq<char>| seq!['<'] + p + seq!['>'],
            ),
        decreases t.parameters@.len() - i,
    {
        let mut q = String::new();
        push_char(&mut q, '<');
        q.append(t.parameters[i].as_str());
        push_char(&mut q, '>');
        let ghost before = params@;
        let ghost qv = q@;
        assert(qv =~= seq!['<'] + names[i as int] + seq!['>']);
        params.push(q);
        assert(params@.map_values(|p: String| p@) =~= names.take(i + 1).map_values(
            |p: Seq<char>| seq!['<'] + p + seq!['>'],
        )) by {
            assert(params@.map_values(|p: String| p@) =~= before.map_values(|p: String| p@).push(qv));
        }
        i = i + 1;
    }
    assert(names.take(i as int) =~= names);
    let mut out = t.name.clone();
    push_char(&mut out, '(');
    append_joined(&mut out, &params, ", ");
    out.append(") - ");
    out.append(t.description.as_str());
    out
}

/// Describes the tasks the model may call, one paragraph each.
pub fn get_task_configs_description(task_configs: &Vec<TaskSummary>) -> (r: String)
    ensures
        r@ == spec_task_configs_description(summaries_view(task_configs@)),
{
    let ghost ts = summaries_view(task_configs@);
    let mut lines: Vec<String> = Vec::new();
    let mut i: usize = 0;
    while i < task_configs.len()
        invariant
            i <= task_configs@.len(),
            ts == summaries_view(task_configs@),
            lines@.map_values(|p: String| p@) == ts.take(i as int).map_values(
                |t: SummaryView| task_line(t),
            ),
        decreases task_configs@.len() - i,
    {
        let l = task_line_exec(&task_configs[i]);
        let ghost before = lines@;
        let ghost lv = l@;
        lines.push(l);
        assert(lines@.map_values(|p: String| p@) =~= ts.take(i + 1).map_values(
            |t: SummaryView| task_line(t),
        )) by {
            assert(lines@.map_values(|p: String| p@) =~= before.map_values(|p: String| p@).push(lv));
        }
        i = i + 1;
    }
    assert(ts.take(i as int) =~= ts);
    let mut out = String::new();
    append_joined(&mut out, &lines, "\n\n");
    out
}

/// The tasks with the given availability, in order.
pub open spec fn with_availability(ts: Seq<SummaryView>, available: bool) -> Seq<SummaryView>
    decreases ts.len(),
{
    if ts.len() == 0 {
        Seq::empty()
    } else if ts.last().3 == available {
        with_availability(ts.drop_last(), available).push(ts.last())
    } else {
        with_availability(ts.drop_last(), available)
    }
}

pub open spec fn prompt_head() -> Seq<char> {
    "\n# You are an agent that has the following functions available:\n\n"@
}

pub open spec fn prompt_middle() -> Seq<char> {
    "\n\n# When you call a function, write the function in parenthesis like this:\n\nexample_function(\"This is an example of a function!\")\n\n# Do not write functions outside of parenthesis. In each repsonse, include one or more functions you call--each function should be separated by a space. Here is an example response:\n\nexample_one(\"A\") example_two(\"B\")\n\n# Never write responses like this:\n\nThis is an invalid response!\n\n# ...or like this:\n\n(This is also an invalid response.)\n\n# Do not include anything else in the response, other than a set of one or more functions that you take. Again, DO NOT include text outside of the function structure--if you wish to respond without providing a function, use the speak() function and include your response inside of it.\n\n# You will receive responses in the same format as your messages. In other words, responses to your messages will include functions as well--which will represent actions executed beyond your own control. Responses may incldue any of the functions previously listed and also the following functions:\n\n"@
}

/// The instructions that teach the model the call syntax: the available
/// tasks, the rules of a response, then the tasks that only others use.
pub open spec fn spec_function_prompt(ts: Seq<SummaryView>) -> Seq<char> {
    prompt_head() + spec_task_configs_description(with_availability(ts, true)) + prompt_middle()
        + spec_task_configs_description(with_availability(ts, false))
}

fn select(ts: &Vec<TaskSummary>, available: bool) -> (r: Vec<TaskSummary>)
    ensures
        summaries_view(r@) == with_availability(summaries_view(ts@), available),
{
    let ghost sv = summaries_view(ts@);
    let mut out: Vec<TaskSummary> = Vec::new();
    let mut i: usize = 0;
    while i < ts.len()
        invariant
            i <= ts@.len(),
            sv == summaries_view(ts@),
            summaries_view(out@) == with_availability(sv.take(i as int), available),
        decreases ts@.len() - i,
    {
        assert(sv.take(i + 1).drop_last() =~= sv.take(i as int));
        assert(sv.take(i + 1).last() == summary_view(ts@[i as int]));
        let ghost before = out@;
        if ts[i].is_available == available {
            let t = &ts[i];
            let mut params: Vec<String> = Vec::new();
            let mut k: usize = 0;
            while k < t.parameters.len()
                invariant
                    k <= t.parameters@.len(),
                    params@ == t.parameters@.take(k as int),
                decreases t.parameters@.len() - k,
            {
                params.push(t.parameters[k].clone());
                k = k + 1;
                assert(params@ =~= t.parameters@.take(k as int));
            }
            assert(t.parameters@.take(k as int) =~= t.parameters@);
            let c = TaskSummary {
                name: t.name.clone(),
                description: t.description.clone(),
                parameters: params,
                is_available: t.is_available,
            };
            assert(summary_view(c) == summary_view(ts@[i as int]));
            out.push(c);
            assert(summaries_view(out@) =~= summaries_view(before).push(summary_view(c)));
        }
        i = i + 1;
    }
    assert(sv.take(i as int) =~= sv);
    out
}

/// The system prompt that describes the call syntax and the tasks.
pub fn get_function_prompt(task_configs: &Vec<TaskSummary>) -> (r: String)
    ensures
        r@ == spec_function_prompt(summaries_view(task_configs@)),
{
    let available = select(task_configs, true);
    let unavailable = select(task_configs, false);
    let mut out = String::from_str("\n# You are an agent that has the following functions available:\n\n");
    let a = get_task_configs_description(&available);
    out.append(a.as_str());
    out.append("\n\n# When you call a function, write the function in parenthesis like this:\n\nexample_function(\"This is an example of a function!\")\n\n# Do not write functions outside of parenthesis. In each repsonse, include one or more functions you call--each function should be separated by a space. Here is an example response:\n\nexample_one(\"A\") example_two(\"B\")\n\n# Never write responses like this:\n\nThis is an invalid response!\n\n# ...or like this:\n\n(This is also an invalid response.)\n\n# Do not include anything else in the response, other than a set of one or more functions that you take. Again, DO NOT include text outside of the function structure--if you wish to respond without providing a function, use the speak() function and include your response inside of it.\n\n# You will receive responses in the same format as your messages. In other words, responses to your messages will include functions as well--which will represent actions executed beyond your own control. Responses may incldue any of the functions previously listed and also the following functions:\n\n");
    let u = get_task_configs_description(&unavailable);
    out.append(u.as_str());
    out
}

} // verus!
