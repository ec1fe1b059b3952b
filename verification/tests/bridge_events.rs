use event_bridge::bridge::{key_transition_emission, KeyTransition};

#[test]
fn press_then_release_fire_two_events_in_order() {
    let mut fired: Vec<(&'static str, String)> = Vec::new();
    for transition in [KeyTransition::Down, KeyTransition::Up] {
        let (name, event) = key_transition_emission(transition, "A".to_string());
        fired.push((name, event.key_pressed));
    }
    assert_eq!(fired.len(), 2);
    assert_eq!(fired[0], ("keypress", "A".to_string()));
    assert_eq!(fired[1], ("keyup", "A".to_string()));
}

#[test]
fn payload_carries_the_reported_key_name() {
    let (_, event) = key_transition_emission(KeyTransition::Down, "LShift".to_string());
    assert_eq!(event.key_pressed, "LShift");
    let (_, event) = key_transition_emission(KeyTransition::Up, "".to_string());
    assert_eq!(event.key_pressed, "");
}

#[test]
fn the_two_event_names_differ() {
    let (down_name, _) = key_transition_emission(KeyTransition::Down, "A".to_string());
    let (up_name, _) = key_transition_emission(KeyTransition::Up, "A".to_string());
    assert_ne!(down_name, up_name);
}
