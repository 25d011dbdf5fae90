//! Numbered trace lines and the `key=value` event texts that the coroutine
//! and future runtimes trace.

use vstd::prelude::*;
use crate::text::{decimal, push_decimal, push_zero_padded, zero_padded};

verus! {

/// A trace line: `[prefix #NNN] message`, the tick zero-padded to at least
/// three digits.
pub open spec fn trace_line(prefix: Seq<char>, tick: nat, message: Seq<char>) -> Seq<char> {
    "["@ + prefix + " #"@ + zero_padded(tick, 3) + "] "@ + message
}

/// The trace line of `message` at `tick`.
pub fn format_trace_line(prefix: &str, tick: usize, message: &str) -> (line: String)
    ensures
        line@ == trace_line(prefix@, tick as nat, message@),
{
    let mut line = String::from_str("[");
    line.append(prefix);
    line.append(" #");
    push_zero_padded(&mut line, tick as u128, 3);
    line.append("] ");
    line.append(message);
    proof {
        assert(line@ =~= trace_line(prefix@, tick as nat, message@));
    }
    line
}

/// `head` followed by `name=NAME` and `tail`.
pub open spec fn name_text(head: Seq<char>, name: Seq<char>, tail: Seq<char>) -> Seq<char> {
    head + "name="@ + name + tail
}

/// The event text `head` `name=NAME` `tail`.
pub fn name_event(head: &str, name: &str, tail: &str) -> (r: String)
    ensures
        r@ == name_text(head@, name@, tail@),
{
    let mut r = String::from_str(head);
    r.append("name=");
    r.append(name);
    r.append(tail);
    proof {
        assert(r@ =~= name_text(head@, name@, tail@));
    }
    r
}

/// `head` followed by `id=ID name=NAME` and `tail`.
pub open spec fn id_name_text(head: Seq<char>, id: nat, name: Seq<char>, tail: Seq<char>) -> Seq<char> {
    head + "id="@ + decimal(id) + " name="@ + name + tail
}

/// The event text `head` `id=ID name=NAME` `tail`.
pub fn id_name_event(head: &str, id: usize, name: &str, tail: &str) -> (r: String)
    ensures
        r@ == id_name_text(head@, id as nat, name@, tail@),
{
    let mut r = String::from_str(head);
    r.append("id=");
    push_decimal(&mut r, id as u128);
    r.append(" name=");
    r.append(name);
    r.append(tail);
    proof {
        assert(r@ =~= id_name_text(head@, id as nat, name@, tail@));
    }
    r
}

/// `head` followed by `task=TASK KEY=N` and `tail`.
pub open spec fn task_step_text(head: Seq<char>, task: Seq<char>, key: Seq<char>, n: nat, tail: Seq<char>) -> Seq<char> {
    head + "task="@ + task + " "@ + key + "="@ + decimal(n) + tail
}

/// The event text `head` `task=TASK KEY=N` `tail`.
pub fn task_step_event(head: &str, task: &str, key: &str, n: usize, tail: &str) -> (r: String)
    ensures
        r@ == task_step_text(head@, task@, key@, n as nat, tail@),
{
    let mut r = String::from_str(head);
    r.append("task=");
    r.append(task);
    r.append(" ");
    r.append(key);
    r.append("=");
    push_decimal(&mut r, n as u128);
    r.append(tail);
    proof {
        assert(r@ =~= task_step_text(head@, task@, key@, n as nat, tail@));
    }
    r
}

} // verus!
