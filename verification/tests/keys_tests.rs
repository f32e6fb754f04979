use bind_studio::keys::{key_label, KeyScanner, KEY_COUNT, KEY_LABELS, KEY_TOKENS};

#[test]
fn known_keys_have_their_labels() {
    assert_eq!(key_label("KEY_ESCAPE"), "Esc");
    assert_eq!(key_label("KEY_NUMPAD6"), "Num 6");
    assert_eq!(key_label("KEY_OEM_5"), "\\");
    assert_eq!(key_label("KEY_LSHIFT"), "Left Shift");
    assert_eq!(key_label("KEY_PRINT"), "Print");
}

#[test]
fn unknown_keys_are_spelled_out() {
    assert_eq!(key_label("KEY_NUMPAD_ENTER"), "NUMPAD ENTER");
    assert_eq!(key_label("KEY_KEY_A_B"), "A B");
    assert_eq!(key_label("JOY_BUTTON_1"), "JOY BUTTON 1");
    assert_eq!(key_label(""), "");
}

#[test]
fn the_key_table_pairs_tokens_and_labels() {
    assert_eq!(KEY_COUNT, 120);
    assert_eq!(KEY_TOKENS.len(), KEY_LABELS.len());
    assert_eq!(KEY_TOKENS[0], "KEY_ESCAPE");
    assert_eq!(KEY_LABELS[KEY_COUNT - 1], "Print");
}

#[test]
fn poll_reports_newly_pressed_keys_in_table_order() {
    let mut scanner = KeyScanner::new(vec!["KEY_A".to_owned()]);
    let snapshot = scanner.poll(vec![
        "KEY_SPACE".to_owned(),
        "KEY_A".to_owned(),
        "KEY_ESCAPE".to_owned(),
        "KEY_UNKNOWN".to_owned(),
    ]);
    assert_eq!(snapshot.down.len(), 4);
    assert_eq!(snapshot.newly_pressed, vec!["KEY_ESCAPE", "KEY_SPACE"]);
}

#[test]
fn polling_the_same_keys_again_reports_nothing_new() {
    let mut scanner = KeyScanner::new(vec![]);
    let down = vec!["KEY_B".to_owned(), "KEY_F1".to_owned()];
    let first = scanner.poll(down.clone());
    assert_eq!(first.newly_pressed, vec!["KEY_F1", "KEY_B"]);
    let second = scanner.poll(down);
    assert!(second.newly_pressed.is_empty());
    let third = scanner.poll(vec![]);
    assert!(third.newly_pressed.is_empty());
    assert!(third.down.is_empty());
}

#[test]
fn sided_modifiers_are_reported_before_their_aliases() {
    let mut scanner = KeyScanner::new(vec![]);
    let snapshot = scanner.poll(vec![
        "KEY_SHIFT".to_owned(),
        "KEY_LSHIFT".to_owned(),
        "KEY_MENU".to_owned(),
        "KEY_RMENU".to_owned(),
        "KEY_CONTROL".to_owned(),
        "KEY_RCONTROL".to_owned(),
    ]);
    assert_eq!(
        snapshot.newly_pressed,
        vec!["KEY_LSHIFT", "KEY_RCONTROL", "KEY_RMENU", "KEY_SHIFT", "KEY_CONTROL", "KEY_MENU"]
    );
}
