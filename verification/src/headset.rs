//! Whether a bluetooth headset is connected: a `bluez_output.*` node in the PipeWire graph.
//!
//! Only the node proves the headset is paired, routed and ready to take audio; a device
//! list would also show a bluetooth mouse. The daemon runs `pw-dump` and hands its output
//! here; the node's name is what the ringing is then pinned to.

use vstd::prelude::*;
use crate::config_file::{word_at, word_at_pos};
use crate::text::string_of;
use crate::config::{alarm_views, Alarm, AlarmView};

verus! {

/// `"node.name"`, with its quotes.
pub open spec fn node_name_key() -> Seq<char> {
    seq!['"', 'n', 'o', 'd', 'e', '.', 'n', 'a', 'm', 'e', '"']
}

/// The prefix of the names PipeWire gives bluetooth outputs.
pub open spec fn headset_prefix() -> Seq<char> {
    seq!['b', 'l', 'u', 'e', 'z', '_', 'o', 'u', 't', 'p', 'u', 't', '.']
}

/// White space between JSON tokens.
pub open spec fn is_json_space(c: char) -> bool {
    c == ' ' || c == '\t' || c == '\n' || c == '\r'
}

/// The first position at or after `i` that is not JSON white space.
pub open spec fn skip_json_space(t: Seq<char>, i: int) -> int
    decreases t.len() - i,
{
    if 0 <= i < t.len() && is_json_space(t[i]) {
        skip_json_space(t, i + 1)
    } else {
        i
    }
}

/// The characters from `j` up to the next quote; `acc` holds those read so far.
pub open spec fn until_quote(t: Seq<char>, j: int, acc: Seq<char>) -> Option<Seq<char>>
    decreases t.len() - j,
{
    if j < 0 || j >= t.len() {
        None
    } else if t[j] == '"' {
        Some(acc)
    } else {
        until_quote(t, j + 1, acc.push(t[j]))
    }
}

/// The string value of a `"node.name"` key that stands at `i`.
pub open spec fn node_name_at(t: Seq<char>, i: int) -> Option<Seq<char>> {
    if word_at(t, i, node_name_key()) {
        let j = skip_json_space(t, i + 11);
        if 0 <= j < t.len() && t[j] == ':' {
            let k = skip_json_space(t, j + 1);
            if 0 <= k < t.len() && t[k] == '"' {
                until_quote(t, k + 1, Seq::empty())
            } else {
                None
            }
        } else {
            None
        }
    } else {
        None
    }
}

/// A node name that belongs to a bluetooth output.
pub open spec fn is_headset_name(name: Seq<char>) -> bool {
    name.len() >= 13 && name.take(13) == headset_prefix()
}

/// The first bluetooth output node named at or after position `i`.
pub open spec fn headset_from(t: Seq<char>, i: int) -> Option<Seq<char>>
    decreases t.len() - i,
{
    if i < 0 || i >= t.len() {
        None
    } else {
        match node_name_at(t, i) {
            Some(name) => if is_headset_name(name) {
                Some(name)
            } else {
                headset_from(t, i + 1)
            },
            None => headset_from(t, i + 1),
        }
    }
}

/// The node name of the connected headset in the output of `pw-dump`: the first
/// `"node.name"` whose value starts with `bluez_output.`; `None` when there is none.
pub open spec fn headset_sink(pw_dump: Seq<char>) -> Option<Seq<char>> {
    headset_from(pw_dump, 0)
}

/// The node name names a bluetooth output.
pub open spec fn names_headset(t: Seq<char>, i: int) -> bool {
    node_name_at(t, i) matches Some(n) && is_headset_name(n)
}

proof fn lemma_headset_from(t: Seq<char>, i: int)
    requires
        0 <= i,
    ensures
        headset_from(t, i) matches Some(n) ==> exists|k: int|
            i <= k < t.len() && #[trigger] names_headset(t, k) && node_name_at(t, k) == Some(n),
        headset_from(t, i) is None ==> forall|k: int| i <= k < t.len() ==> !#[trigger] names_headset(t, k),
    decreases t.len() - i,
{
    if i < t.len() {
        lemma_headset_from(t, i + 1);
        if names_headset(t, i) {
            assert(names_headset(t, i) && node_name_at(t, i) == headset_from(t, i));
        }
    }
}

/// A headset is found exactly when a `bluez_output.` node is named in the output, and what
/// is found is the first such node's name.
pub proof fn lemma_headset_is_a_bluez_node(t: Seq<char>)
    ensures
        headset_sink(t) matches Some(n) ==> is_headset_name(n) && exists|k: int|
            0 <= k < t.len() && #[trigger] names_headset(t, k) && node_name_at(t, k) == Some(n),
        headset_sink(t) is None ==> forall|k: int| 0 <= k < t.len() ==> !#[trigger] names_headset(t, k),
{
    lemma_headset_from(t, 0);
}

fn json_space(c: char) -> (r: bool)
    ensures
        r == is_json_space(c),
{
    c == ' ' || c == '\t' || c == '\n' || c == '\r'
}

fn skip_json_space_at(t: &Vec<char>, i: usize) -> (r: usize)
    requires
        i <= t.len(),
    ensures
        r == skip_json_space(t@, i as int),
        i <= r <= t.len(),
{
    let mut j = i;
    while j < t.len() && json_space(t[j])
        invariant
            i <= j <= t.len(),
            skip_json_space(t@, i as int) == skip_json_space(t@, j as int),
        decreases t.len() - j,
    {
        j = j + 1;
    }
    j
}

fn until_quote_at(t: &Vec<char>, start: usize) -> (r: Option<Vec<char>>)
    requires
        start <= t.len(),
    ensures
        r matches Some(s) ==> until_quote(t@, start as int, Seq::empty()) == Some(s@),
        r is None ==> until_quote(t@, start as int, Seq::empty()) is None,
{
    let mut acc: Vec<char> = Vec::new();
    let mut j = start;
    while j < t.len()
        invariant
            start <= j <= t.len(),
            until_quote(t@, start as int, Seq::empty()) == until_quote(t@, j as int, acc@),
        decreases t.len() - j,
    {
        if t[j] == '"' {
            return Some(acc);
        }
        acc.push(t[j]);
        j = j + 1;
    }
    None
}

fn node_name_at_pos(t: &Vec<char>, i: usize) -> (r: Option<Vec<char>>)
    requires
        i <= t.len(),
    ensures
        r matches Some(s) ==> node_name_at(t@, i as int) == Some(s@),
        r is None ==> node_name_at(t@, i as int) is None,
{
    if !word_at_pos(t, i, &['"', 'n', 'o', 'd', 'e', '.', 'n', 'a', 'm', 'e', '"']) {
        return None;
    }
    let j = skip_json_space_at(t, i + 11);
    if j < t.len() && t[j] == ':' {
        let k = skip_json_space_at(t, j + 1);
        if k < t.len() && t[k] == '"' {
            until_quote_at(t, k + 1)
        } else {
            None
        }
    } else {
        None
    }
}

fn headset_name(name: &Vec<char>) -> (r: bool)
    ensures
        r == is_headset_name(name@),
{
    if name.len() < 13 {
        return false;
    }
    let r = word_at_pos(
        name,
        0,
        &['b', 'l', 'u', 'e', 'z', '_', 'o', 'u', 't', 'p', 'u', 't', '.'],
    );
    proof {
        assert(name@.subrange(0, 13) =~= name@.take(13));
    }
    r
}

/// The node name of the connected headset, read from the output of `pw-dump`.
pub fn headset_sink_from(pw_dump: &str) -> (sink: Option<String>)
    ensures
        sink matches Some(s) ==> headset_sink(pw_dump@) == Some(s@),
        sink is None ==> headset_sink(pw_dump@) is None,
{
    let t = crate::text::chars_of(pw_dump);
    let mut i: usize = 0;
    while i < t.len()
        invariant
            i <= t.len(),
            t@ == pw_dump@,
            headset_from(t@, 0) == headset_from(t@, i as int),
        decreases t.len() - i,
    {
        match node_name_at_pos(&t, i) {
            Some(name) => {
                if headset_name(&name) {
                    return Some(string_of(&name));
                }
            },
            None => {},
        }
        i = i + 1;
    }
    None
}

/// Whether an alarm may ring, given the headset found (if any): an alarm that needs a
/// headset is skipped without one.
pub fn headset_allows(require_headset: bool, sink: &Option<String>) -> (ring: bool)
    ensures
        ring == (!require_headset || sink is Some),
{
    !require_headset || sink.is_some()
}

/// Whether alarm `a` may ring when a headset is connected or not.
pub open spec fn allowed(a: AlarmView, headset: bool) -> bool {
    !a.require_headset || headset
}

/// Of the alarms `fired` (indices into `alarms`), in order, those that ring.
pub open spec fn rung(alarms: Seq<AlarmView>, fired: Seq<usize>, headset: bool) -> Seq<usize>
    decreases fired.len(),
{
    if fired.len() == 0 {
        Seq::empty()
    } else {
        let rest = rung(alarms, fired.drop_last(), headset);
        if allowed(alarms[fired.last() as int], headset) {
            rest.push(fired.last())
        } else {
            rest
        }
    }
}

/// Of the alarms `fired` (indices into `alarms`), in order, those skipped for want of a
/// headset.
pub open spec fn skipped(alarms: Seq<AlarmView>, fired: Seq<usize>, headset: bool) -> Seq<usize>
    decreases fired.len(),
{
    if fired.len() == 0 {
        Seq::empty()
    } else {
        let rest = skipped(alarms, fired.drop_last(), headset);
        if allowed(alarms[fired.last() as int], headset) {
            rest
        } else {
            rest.push(fired.last())
        }
    }
}

/// What a poll comes to once the headset has been looked for: the alarms to ring and the
/// alarms skipped, each in the order the poll reported them.
pub struct RingPlan {
    pub ring: Vec<usize>,
    pub skipped: Vec<usize>,
}

/// Splits the alarms a poll reported by the headset found (if any): an alarm that needs a
/// headset is skipped without one, every other alarm rings.
pub fn plan_rings(alarms: &Vec<Alarm>, fired: &Vec<usize>, sink: &Option<String>) -> (plan: RingPlan)
    requires
        forall|k: int| 0 <= k < fired.len() ==> fired[k] < alarms.len(),
    ensures
        plan.ring@ == rung(alarm_views(alarms@), fired@, sink is Some),
        plan.skipped@ == skipped(alarm_views(alarms@), fired@, sink is Some),
        plan.ring@.len() + plan.skipped@.len() == fired@.len(),
{
    let ghost views = alarm_views(alarms@);
    let ghost headset = sink is Some;
    let mut ring: Vec<usize> = Vec::new();
    let mut skip: Vec<usize> = Vec::new();
    let mut k: usize = 0;
    while k < fired.len()
        invariant
            k <= fired.len(),
            views == alarm_views(alarms@),
            headset == (sink is Some),
            forall|j: int| 0 <= j < fired.len() ==> fired[j] < alarms.len(),
            ring@ == rung(views, fired@.take(k as int), headset),
            skip@ == skipped(views, fired@.take(k as int), headset),
            ring@.len() + skip@.len() == k,
        decreases fired.len() - k,
    {
        let i = fired[k];
        proof {
            assert(fired@.take(k + 1).drop_last() =~= fired@.take(k as int));
            assert(fired@.take(k + 1).last() == i);
            assert(views[i as int] == alarms@[i as int]@);
        }
        if headset_allows(alarms[i].require_headset, sink) {
            ring.push(i);
        } else {
            skip.push(i);
        }
        k = k + 1;
    }
    proof {
        assert(fired@.take(k as int) =~= fired@);
    }
    RingPlan { ring, skipped: skip }
}

} // verus!
