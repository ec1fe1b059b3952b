use event_bridge::audio::{
    list_audio_devices, BackendSnapshot, EnumerationError, ProbeResult,
};

fn snap(name: &str, opened: bool, input: ProbeResult, output: ProbeResult) -> BackendSnapshot {
    BackendSnapshot {
        name: name.to_string(),
        opened,
        input_devices: input,
        output_devices: output,
    }
}

fn resolved(names: &[&str]) -> ProbeResult {
    ProbeResult::Resolved(names.iter().map(|n| n.to_string()).collect())
}

#[test]
fn two_backends_input_direction() {
    let snaps = vec![
        snap("CoreAudioLike", true, resolved(&["Mic1", "Mic2"]), resolved(&[])),
        snap("ASIOLike", true, resolved(&[]), resolved(&[])),
    ];
    let inv = list_audio_devices(snaps, "CoreAudioLike".to_string(), true).unwrap();
    assert_eq!(inv.default_backend, "CoreAudioLike");
    assert_eq!(inv.devices.len(), 2);
    assert_eq!(inv.devices[0].backend, "CoreAudioLike");
    assert_eq!(
        inv.devices[0].devices,
        vec!["Mic1".to_string(), "Mic2".to_string()]
    );
    assert_eq!(inv.devices[1].backend, "ASIOLike");
    assert!(inv.devices[1].devices.is_empty());
}

#[test]
fn zero_backends_is_an_error() {
    // The all-or-nothing policy is kept: no backends means a failed call,
    // never an empty successful inventory.
    let r = list_audio_devices(Vec::new(), "None".to_string(), true);
    assert_eq!(r, Err(EnumerationError::NoBackends));
}

#[test]
fn unopenable_backend_aborts_with_its_name() {
    let snaps = vec![
        snap("Good", true, resolved(&["Mic"]), resolved(&[])),
        snap("Bad", false, resolved(&[]), resolved(&[])),
        snap("Worse", false, resolved(&[]), resolved(&[])),
    ];
    let r = list_audio_devices(snaps, "Good".to_string(), true);
    assert_eq!(r, Err(EnumerationError::BackendOpenFailed("Bad".to_string())));
}

#[test]
fn unresolved_device_name_aborts_with_backend_name() {
    let snaps = vec![
        snap("Good", true, resolved(&["Mic"]), resolved(&[])),
        snap("Odd", true, ProbeResult::Unresolved, resolved(&[])),
    ];
    let r = list_audio_devices(snaps, "Good".to_string(), true);
    assert_eq!(r, Err(EnumerationError::DeviceNameFailed("Odd".to_string())));
}

#[test]
fn direction_selects_the_reported_lists() {
    let snaps = vec![snap(
        "OneBackend",
        true,
        resolved(&["CaptureA"]),
        resolved(&["PlaybackA", "PlaybackB"]),
    )];
    let input_inv =
        list_audio_devices(snaps.clone(), "OneBackend".to_string(), true).unwrap();
    let output_inv = list_audio_devices(snaps, "OneBackend".to_string(), false).unwrap();
    assert_eq!(input_inv.devices[0].devices, vec!["CaptureA".to_string()]);
    assert_eq!(
        output_inv.devices[0].devices,
        vec!["PlaybackA".to_string(), "PlaybackB".to_string()]
    );
}

#[test]
fn a_direction_ignores_the_other_directions_failures() {
    // The output probe failed, but the input enumeration never reads it.
    let snaps = vec![snap("B", true, resolved(&["Mic"]), ProbeResult::Unresolved)];
    let inv = list_audio_devices(snaps, "B".to_string(), true).unwrap();
    assert_eq!(inv.devices[0].devices, vec!["Mic".to_string()]);
}

#[test]
fn duplicate_backend_names_keep_keys_unique() {
    let snaps = vec![
        snap("A", true, resolved(&["First"]), resolved(&[])),
        snap("B", true, resolved(&["Other"]), resolved(&[])),
        snap("A", true, resolved(&["Second"]), resolved(&[])),
    ];
    let inv = list_audio_devices(snaps, "A".to_string(), true).unwrap();
    assert_eq!(inv.devices.len(), 2);
    assert_eq!(inv.devices[0].backend, "A");
    assert_eq!(inv.devices[0].devices, vec!["Second".to_string()]);
    assert_eq!(inv.devices[1].backend, "B");
}

#[test]
fn enumeration_is_idempotent_without_device_changes() {
    let snaps = vec![
        snap("X", true, resolved(&["M1", "M2"]), resolved(&["S1"])),
        snap("Y", true, resolved(&[]), resolved(&["S2"])),
    ];
    let first = list_audio_devices(snaps.clone(), "X".to_string(), true);
    let second = list_audio_devices(snaps, "X".to_string(), true);
    assert_eq!(first, second);
}
