use textworld::map::{Gate, Room};

#[test]
fn render_no_glances_keeps_static_text_only() {
    let room = Room::new(0, "X===");
    let glances: Vec<String> = Vec::new();
    assert_eq!(room.generate_room_description(&glances), "X");
}

#[test]
fn render_one_glance() {
    let room = Room::new(0, "X===");
    let glances = vec!["apple".to_string()];
    assert_eq!(room.generate_room_description(&glances), "X\n===\nYou see an apple.");
}

#[test]
fn render_two_glances_with_articles() {
    let room = Room::new(0, "X===");
    let glances = vec!["apple".to_string(), "key".to_string()];
    assert_eq!(room.generate_room_description(&glances), "X\n===\nYou see an apple, and a key.");
}

#[test]
fn render_three_glances_joins_with_commas() {
    let room = Room::new(0, "X===");
    let glances = vec!["apple".to_string(), "key".to_string(), "oboe".to_string()];
    assert_eq!(
        room.generate_room_description(&glances),
        "X\n===\nYou see an apple, a key, and an oboe."
    );
}

#[test]
fn render_skips_empty_glances() {
    let room = Room::new(0, "X===");
    let glances = vec!["".to_string(), "key".to_string(), "".to_string()];
    assert_eq!(room.generate_room_description(&glances), "X\n===\nYou see a key.");
}

#[test]
fn render_without_separator_uses_whole_text() {
    let room = Room::new(0, "A plain room");
    let glances = vec!["key".to_string()];
    assert_eq!(room.generate_room_description(&glances), "A plain room\n===\nYou see a key.");
}

#[test]
fn render_trims_text_before_separator() {
    let room = Room::new(0, "  A roomy room  === ignored tail");
    let glances: Vec<String> = Vec::new();
    assert_eq!(room.generate_room_description(&glances), "A roomy room");
}

#[test]
fn gate_lock_and_key() {
    let mut gate = Gate::new_locked(7, "A locked door", vec![]);
    assert!(gate.is_locked());
    assert_eq!(gate.to(), 7);
    gate.try_unlock(3);
    assert!(gate.is_locked());
    gate.add_key(3);
    gate.try_unlock(4);
    assert!(gate.is_locked());
    gate.try_unlock(3);
    assert!(!gate.is_locked());
    // unlocking is permanent
    gate.try_unlock(4);
    assert!(!gate.is_locked());
}

#[test]
fn unlocked_gate_stays_unlocked() {
    let gate = Gate::new(2, "A hallway");
    assert!(!gate.is_locked());
    assert_eq!(gate.to(), 2);
    assert_eq!(gate.description, "A hallway");
}
