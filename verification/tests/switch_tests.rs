use dungeon_gen::content::{SwitchDoor, SwitchState};

fn sw(id: u32, signals: &[u32]) -> SwitchState {
    SwitchState { switch_id: id, signals: signals.to_vec() }
}

fn door(signals: &[u32]) -> SwitchDoor {
    SwitchDoor { door_id: 0, signals: signals.to_vec() }
}

#[test]
fn door_closed_with_no_switches_activated() {
    let d = door(&[0]);
    let switches = vec![sw(0, &[0])];
    assert!(!d.is_open(0b0, &switches));
}

#[test]
fn door_opens_after_one_activation() {
    let d = door(&[0]);
    let switches = vec![sw(0, &[0])];
    assert!(d.is_open(0b1, &switches));
}

#[test]
fn door_closes_again_after_second_activation() {
    let d = door(&[0]);
    let switches = vec![sw(0, &[0]), sw(1, &[0])];
    assert!(!d.is_open(0b11, &switches));
}

#[test]
fn n_to_one_combo_lock() {
    let d = door(&[5]);
    let switches = vec![sw(0, &[5]), sw(1, &[5]), sw(2, &[5])];
    assert!(!d.is_open(0b000, &switches));
    assert!(d.is_open(0b001, &switches));
    assert!(!d.is_open(0b011, &switches));
    assert!(d.is_open(0b111, &switches));
}

#[test]
fn one_to_n_master_switch() {
    let d1 = door(&[7]);
    let d2 = door(&[7]);
    let switches = vec![sw(0, &[7])];
    let mask = 0b1u64;
    assert!(d1.is_open(mask, &switches));
    assert!(d2.is_open(mask, &switches));
}

#[test]
fn unrelated_switch_does_not_open_door() {
    let d = door(&[3]);
    let switches = vec![sw(0, &[9])];
    assert!(!d.is_open(0b1, &switches));
}

// A switch whose bit lies at or beyond 64 never counts as activated.
#[test]
fn switch_id_beyond_mask_is_inactive() {
    let d = door(&[1]);
    let switches = vec![sw(64, &[1])];
    assert!(!d.is_open(u64::MAX, &switches));
}

// Toggling a switch that shares no signal with the door leaves it as it was.
#[test]
fn unrelated_toggle_keeps_door_state() {
    let d = door(&[2]);
    let switches = vec![sw(0, &[2]), sw(1, &[8])];
    assert_eq!(d.is_open(0b01, &switches), d.is_open(0b11, &switches));
    assert_eq!(d.is_open(0b00, &switches), d.is_open(0b10, &switches));
}

// Toggling a linked switch flips the door.
#[test]
fn linked_toggle_flips_door() {
    let d = door(&[4, 6]);
    let switches = vec![sw(0, &[6]), sw(1, &[4, 1])];
    for mask in 0u64..4 {
        assert_ne!(d.is_open(mask, &switches), d.is_open(mask ^ 0b01, &switches));
        assert_ne!(d.is_open(mask, &switches), d.is_open(mask ^ 0b10, &switches));
    }
}

#[test]
fn door_without_signals_never_opens() {
    let d = door(&[]);
    let switches = vec![sw(0, &[0])];
    assert!(!d.is_open(0b1, &switches));
}
