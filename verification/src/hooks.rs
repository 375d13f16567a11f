//! Per-group hooks around message dispatch.
//!
//! Three groups have registered hooks. A sender's group selects a pre-send
//! hook, run synchronously before the message is enqueued; a recipient's
//! group selects a post-receive hook, handed to a worker pool after the
//! printed delivery line. Any other group selects nothing.

use vstd::prelude::*;
use crate::message::BridgeMessage;

verus! {

/// The groups with registered hook pairs.
#[derive(PartialEq, Eq, Structural, Clone, Copy, Debug)]
pub enum Group {
    A,
    B,
    C,
}

/// The group a label names, when it has registered hooks.
pub open spec fn spec_hook_group(label: Seq<char>) -> Option<Group> {
    if label == "A"@ {
        Some(Group::A)
    } else if label == "B"@ {
        Some(Group::B)
    } else if label == "C"@ {
        Some(Group::C)
    } else {
        None
    }
}

/// Whether a string equals a literal, character for character.
fn str_eq_lit(s: &str, lit: &str) -> (b: bool)
    ensures
        b == (s@ == lit@),
{
    let n = lit.unicode_len();
    if s.unicode_len() != n {
        proof {
            assert(s@ != lit@);
        }
        return false;
    }
    let mut i: usize = 0;
    while i < n
        invariant
            i <= n,
            n == lit@.len(),
            s@.len() == n,
            forall|j: int| 0 <= j < i ==> s@[j] == lit@[j],
        decreases n - i,
    {
        if s.get_char(i) != lit.get_char(i) {
            proof {
                assert(s@[i as int] != lit@[i as int]);
            }
            return false;
        }
        i = i + 1;
    }
    proof {
        assert(s@ =~= lit@);
    }
    true
}

/// The group with registered hooks that a label names, if any.
pub fn hook_group(label: &str) -> (r: Option<Group>)
    ensures
        r == spec_hook_group(label@),
{
    if str_eq_lit(label, "A") {
        Some(Group::A)
    } else if str_eq_lit(label, "B") {
        Some(Group::B)
    } else if str_eq_lit(label, "C") {
        Some(Group::C)
    } else {
        None
    }
}

/// The pre-send hook a message selects: by its sender's group.
pub fn pre_send_group(message: &BridgeMessage) -> (r: Option<Group>)
    ensures
        r == spec_hook_group(message@.from_group),
{
    hook_group(message.from_group.as_str())
}

/// The post-receive hook a message selects: by its recipient's group.
pub fn post_receive_group(message: &BridgeMessage) -> (r: Option<Group>)
    ensures
        r == spec_hook_group(message@.to_group),
{
    hook_group(message.to_group.as_str())
}

/// Run the selected pre-send hook, if one was selected.
pub fn send_msg_group<F: Fn() -> ()>(extra_process: Option<F>)
    requires
        extra_process matches Some(f) ==> call_requires(f, ()),
{
    if let Some(box_fn) = extra_process {
        box_fn();
    }
}

/// The delivery line the receiving side reports for one message:
/// recipient, sender, and payload.
pub fn receive_line(message: &BridgeMessage) -> (r: String)
    ensures
        r@ == message@.to_name + ": receive msg from "@ + message@.from_name + ": "@
            + message@.message,
{
    let mut s = message.to_name.clone();
    s.append(": receive msg from ");
    s.append(message.from_name.as_str());
    s.append(": ");
    s.append(message.message.as_str());
    s
}

} // verus!
