//! Rules for talking to the remote voice service: which job ids and
//! websocket addresses are acceptable, and what a polled job status means.
use crate::text::chars_of;
use vstd::prelude::*;

verus! {

/// What to do after polling a remote job.
#[derive(Clone, Copy, Debug, PartialEq, Eq, Structural)]
pub enum JobStep {
    /// The job succeeded; its output is ready.
    Done,
    /// The job failed or was cancelled.
    Failed,
    /// The job is still queued or running; poll again.
    Pending,
    /// The service answered with a status this client does not know.
    Unrecognized,
}

pub open spec fn spec_job_step(status: Seq<char>) -> JobStep {
    if status == "succeeded"@ {
        JobStep::Done
    } else if status == "failed"@ || status == "canceled"@ {
        JobStep::Failed
    } else if status == "created"@ || status == "pending"@ || status == "running"@ {
        JobStep::Pending
    } else {
        JobStep::Unrecognized
    }
}

fn same_text(a: &str, b: &str) -> (r: bool)
    ensures
        r == (a@ == b@),
{
    let x = chars_of(a);
    let y = chars_of(b);
    if x.len() != y.len() {
        return false;
    }
    let mut i: usize = 0;
    while i < x.len()
        invariant
            i <= x@.len() == y@.len(),
            x@ == a@,
            y@ == b@,
            x@.take(i as int) == y@.take(i as int),
        decreases x@.len() - i,
    {
        if x[i] != y[i] {
            assert(x@[i as int] != y@[i as int]);
            return false;
        }
        assert(x@.take(i + 1) =~= x@.take(i as int).push(x@[i as int]));
        assert(y@.take(i + 1) =~= y@.take(i as int).push(y@[i as int]));
        i = i + 1;
    }
    assert(x@.take(i as int) =~= x@);
    assert(y@.take(i as int) =~= y@);
    true
}

/// Reads a polled job status.
pub fn job_step(status: &str) -> (r: JobStep)
    ensures
        r == spec_job_step(status@),
{
    if same_text(status, "succeeded") {
        JobStep::Done
    } else if same_text(status, "failed") || same_text(status, "canceled") {
        JobStep::Failed
    } else if same_text(status, "created") || same_text(status, "pending") || same_text(
        status,
        "running",
    ) {
        JobStep::Pending
    } else {
        JobStep::Unrecognized
    }
}

pub open spec fn id_char(c: char) -> bool {
    ('a' <= c <= 'z') || ('A' <= c <= 'Z') || ('0' <= c <= '9') || c == '-'
}

/// A job id is made of ASCII letters, digits and `-` only, so that it can
/// be placed in a URL path.
pub fn valid_job_id(id: &str) -> (r: bool)
    ensures
        r == (forall|i: int| 0 <= i < id@.len() ==> id_char(#[trigger] id@[i])),
{
    let v = chars_of(id);
    let mut i: usize = 0;
    while i < v.len()
        invariant
            i <= v@.len(),
            v@ == id@,
            forall|j: int| 0 <= j < i ==> id_char(#[trigger] v@[j]),
        decreases v@.len() - i,
    {
        let c = v[i];
        if !(('a' <= c && c <= 'z') || ('A' <= c && c <= 'Z') || ('0' <= c && c <= '9') || c
            == '-') {
            assert(!id_char(v@[i as int]));
            return false;
        }
        i = i + 1;
    }
    true
}

/// A live session's websocket address must use TLS.
pub fn is_secure_socket_url(url: &str) -> (r: bool)
    ensures
        r == (url@.len() >= 6 && url@.take(6) == "wss://"@),
{
    let v = chars_of(url);
    let p = chars_of("wss://");
    proof {
        reveal_strlit("wss://");
    }
    if v.len() < p.len() {
        return false;
    }
    let mut i: usize = 0;
    while i < p.len()
        invariant
            i <= p@.len() <= v@.len(),
            v@ == url@,
            p@ == "wss://"@,
            v@.take(i as int) == p@.take(i as int),
        decreases p@.len() - i,
    {
        if v[i] != p[i] {
            assert(v@.take(p@.len() as int)[i as int] != p@[i as int]);
            return false;
        }
        assert(v@.take(i + 1) =~= v@.take(i as int).push(v@[i as int]));
        assert(p@.take(i + 1) =~= p@.take(i as int).push(p@[i as int]));
        i = i + 1;
    }
    assert(p@.take(i as int) =~= p@);
    true
}

} // verus!
