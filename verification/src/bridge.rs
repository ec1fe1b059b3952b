use vstd::prelude::*;

verus! {

/// The direction of one key transition reported by the input monitor.
#[derive(Clone, Copy, PartialEq, Eq, Structural, Debug)]
pub enum KeyTransition {
    Down,
    Up,
}

/// The payload carried by one emitted key event: the textual name of the
/// physical key at the moment of the transition.
#[derive(Clone, Debug)]
pub struct KeyEvent {
    pub key_pressed: String,
}

/// The name of the event channel used for key-down transitions.
pub open spec fn keypress_name() -> Seq<char> {
    "keypress"@
}

/// The name of the event channel used for key-up transitions.
pub open spec fn keyup_name() -> Seq<char> {
    "keyup"@
}

/// Decide the one emission owed for a key transition: the event name
/// (`"keypress"` for a down transition, `"keyup"` for an up transition)
/// and a payload holding exactly the reported key's string form.
pub fn key_transition_emission(transition: KeyTransition, key: String) -> (r: (&'static str, KeyEvent))
    ensures
        r.1.key_pressed@ == key@,
        (transition is Down) <==> r.0@ == keypress_name(),
        (transition is Up) <==> r.0@ == keyup_name(),
{
    proof {
        lemma_event_names_distinct();
    }
    let name: &'static str = match transition {
        KeyTransition::Down => "keypress",
        KeyTransition::Up => "keyup",
    };
    (name, KeyEvent { key_pressed: key })
}

/// A key-down emission can never be mistaken for a key-up emission:
/// the two event names differ, so each transition determines exactly one
/// of the two channels.
pub proof fn lemma_event_names_distinct()
    ensures
        keypress_name() != keyup_name(),
{
    reveal_strlit("keypress");
    reveal_strlit("keyup");
    assert(keypress_name().len() == 8);
    assert(keyup_name().len() == 5);
}

} // verus!
