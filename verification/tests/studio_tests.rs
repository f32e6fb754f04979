use bind_studio::config::ButtonConfig;
use bind_studio::keys::{KeyScanner, KeySnapshot};
use bind_studio::studio::{
    action_label, binding_names, bindings_for_action, clean_path_input, conflict_lookup,
    binding_look, capture_label, capture_title, conflict_summary, control_look,
    row_is_highlighted, grouped_actions, macro_labels, ordered_actions, pressed_labels, BindStudio,
    CaptureTarget, ControlLook, Screen, Status,
};

const SAMPLE: &str = "Player 1\nDevice 7 KEY_J -> Atk1\nDevice 7 KEY_SPACE -> Up\n\
                      Macro 1 -> D+Atk2+Atk3\nPlayer 2\nDevice 8 KEY_J -> Left\n";

fn studio_with_sample() -> BindStudio {
    let mut studio = BindStudio::new("x".to_owned(), KeyScanner::new(vec![]));
    studio.load("cfg.ini".to_owned(), Ok(SAMPLE.to_owned()));
    studio
}

fn snapshot(keys: &[&str]) -> KeySnapshot {
    KeySnapshot {
        down: keys.iter().map(|k| k.to_string()).collect(),
        newly_pressed: keys.iter().map(|k| k.to_string()).collect(),
    }
}

fn message(studio: &BindStudio) -> Option<(String, bool)> {
    studio.status.as_ref().map(|s: &Status| (s.message.clone(), s.is_error))
}

#[test]
fn loading_reports_and_keeps_the_document() {
    let mut studio = BindStudio::new("typed".to_owned(), KeyScanner::new(vec![]));
    assert!(studio.document.is_none());
    assert_eq!(studio.screen, Screen::Configure);
    studio.load("a.ini".to_owned(), Err("no such file".to_owned()));
    assert!(studio.document.is_none());
    assert_eq!(studio.path_input, "typed");
    assert_eq!(message(&studio), Some(("Could not open config: no such file".to_owned(), true)));
    studio.load("cfg.ini".to_owned(), Ok(SAMPLE.to_owned()));
    assert_eq!(studio.path_input, "cfg.ini");
    assert_eq!(studio.document.as_ref().unwrap().bindings.len(), 3);
    assert_eq!(message(&studio), Some(("Config loaded".to_owned(), false)));
}

#[test]
fn saving_clears_the_unsaved_mark() {
    let mut studio = studio_with_sample();
    assert!(studio.document.as_mut().unwrap().set_source(1, "KEY_K"));
    studio.save(Err("denied".to_owned()));
    assert!(studio.document.as_ref().unwrap().dirty);
    assert_eq!(message(&studio), Some(("Could not save config: denied".to_owned(), true)));
    studio.save(Ok("b/cfg.backup-001.ini".to_owned()));
    assert!(!studio.document.as_ref().unwrap().dirty);
    assert_eq!(
        message(&studio),
        Some(("Saved \u{b7} Backup: b/cfg.backup-001.ini".to_owned(), false))
    );
}

#[test]
fn backups_and_restores_report() {
    let mut studio = studio_with_sample();
    studio.backup_now(Ok("b/1.ini".to_owned()));
    assert_eq!(message(&studio), Some(("Backup created: b/1.ini".to_owned(), false)));
    studio.backup_now(Err("full".to_owned()));
    assert_eq!(message(&studio), Some(("Could not create backup: full".to_owned(), true)));
    studio.restore_backup("b/1.ini".to_owned(), Ok("Player 1\nDevice 7 KEY_Z -> Atk1\n".to_owned()));
    let document = studio.document.as_ref().unwrap();
    assert!(document.dirty);
    assert_eq!(document.bindings[0].source, "KEY_Z");
    assert_eq!(
        message(&studio),
        Some((
            "Backup loaded from b/1.ini \u{b7} Review it, then Save to apply".to_owned(),
            false
        ))
    );
    studio.restore_backup("b/2.ini".to_owned(), Err("gone".to_owned()));
    assert_eq!(message(&studio), Some(("Could not restore backup: gone".to_owned(), true)));

    let mut empty = BindStudio::new(String::new(), KeyScanner::new(vec![]));
    empty.backup_now(Ok("x".to_owned()));
    empty.save(Ok("x".to_owned()));
    assert!(empty.status.is_none());
}

#[test]
fn escape_cancels_a_capture() {
    let mut studio = studio_with_sample();
    studio.capture = Some(CaptureTarget::Replace { line_index: 1, label: "P1".to_owned() });
    studio.handle_capture(&snapshot(&["KEY_K", "KEY_ESCAPE"]));
    assert!(studio.capture.is_none());
    assert_eq!(studio.document.as_ref().unwrap().lines[1], "Device 7 KEY_J -> Atk1");
}

#[test]
fn a_captured_key_replaces_the_source() {
    let mut studio = studio_with_sample();
    studio.capture = Some(CaptureTarget::Replace { line_index: 1, label: "P1".to_owned() });
    studio.handle_capture(&snapshot(&[]));
    assert!(studio.capture.is_some());
    studio.handle_capture(&snapshot(&["KEY_K", "KEY_L"]));
    assert!(studio.capture.is_none());
    assert!(studio.status.is_none());
    assert_eq!(studio.document.as_ref().unwrap().lines[1], "Device 7 KEY_K -> Atk1");
}

#[test]
fn a_captured_key_adds_a_binding() {
    let mut studio = studio_with_sample();
    studio.capture = Some(CaptureTarget::Add { player: 2, action: "Right".to_owned() });
    studio.apply_captured_key("KEY_L");
    assert!(studio.capture.is_none());
    let document = studio.document.as_ref().unwrap();
    assert!(document
        .bindings
        .iter()
        .any(|b| b.player == 2 && b.action == "Right" && b.source == "KEY_L" && b.device == 8));
    // Without a capture, keys do nothing.
    studio.apply_captured_key("KEY_M");
    assert!(!studio.document.as_ref().unwrap().bindings.iter().any(|b| b.source == "KEY_M"));
}

#[test]
fn conflicts_are_looked_up_by_line() {
    let studio = studio_with_sample();
    let document = studio.document.as_ref().unwrap();
    let lookup = conflict_lookup(&document.conflict_groups());
    assert_eq!(lookup.len(), 2);
    assert_eq!(lookup.get(&1).map(String::as_str), Some("KEY_J"));
    assert_eq!(lookup.get(&5).map(String::as_str), Some("KEY_J"));
    assert!(lookup.get(&2).is_none());
}

#[test]
fn actions_are_listed_standard_first_then_sorted_extras() {
    let document = ButtonConfig::from_text(
        "Player 1\nDevice 7 KEY_A -> Taunt\nDevice 7 KEY_B -> Atk1\nDevice 7 KEY_C -> Block\nDevice 7 KEY_D -> Taunt\n",
        "c.ini".to_owned(),
    );
    let actions = ordered_actions(&document.bindings);
    assert_eq!(actions.len(), 16);
    assert_eq!(actions[0], "Up");
    assert_eq!(actions[13], "Select");
    assert_eq!(&actions[14..], &["Block".to_owned(), "Taunt".to_owned()]);

    let groups = grouped_actions(&actions);
    assert_eq!(groups.len(), 3);
    assert_eq!(groups[0].0, "MOVEMENT");
    assert_eq!(groups[0].1, vec!["Up", "Down", "Left", "Right"]);
    assert_eq!(groups[1].0, "COMBAT");
    assert_eq!(groups[1].1.len(), 8);
    assert_eq!(groups[2].0, "UTILITY");
    assert_eq!(groups[2].1, vec!["Start", "Select", "Block", "Taunt"]);
}

#[test]
fn action_labels() {
    assert_eq!(action_label("Up"), ("Up", "Jump / up"));
    assert_eq!(action_label("Atk2"), ("B \u{b7} Medium", "Atk2"));
    assert_eq!(action_label("Atk10"), ("Macro 3", "Atk10"));
    assert_eq!(action_label("Select"), ("Select", "Menu secondary"));
    assert_eq!(action_label("Taunt"), ("Taunt", "Custom action"));
}

#[test]
fn binding_names_join_key_labels() {
    let document = ButtonConfig::from_text(
        "Player 1\nDevice 7 KEY_J -> Up\nDevice 7 KEY_SPACE -> Up\nDevice 7 KEY_K -> Down\n",
        "c.ini".to_owned(),
    );
    let up = bindings_for_action(&document.bindings, "Up");
    assert_eq!(up.len(), 2);
    assert_eq!(binding_names(&up), "J / Space");
    let none = bindings_for_action(&document.bindings, "Left");
    assert_eq!(binding_names(&none), "UNBOUND");
}

#[test]
fn macro_labels_use_short_names() {
    let document = ButtonConfig::from_text(
        "Player 1\nMacro 1 -> D+Atk2+Atk3+N+R\nMacro 3 -> Atk4+Atk1+Atk7\nPlayer 2\nMacro 0 -> U\n",
        "c.ini".to_owned(),
    );
    let labels = macro_labels(&document, 1);
    assert_eq!(
        labels,
        vec![
            ("Atk8".to_owned(), "Down+B+C+Right".to_owned()),
            ("Atk10".to_owned(), "F+A+Atk7".to_owned()),
        ]
    );
    assert_eq!(macro_labels(&document, 2), vec![("Atk6".to_owned(), "Up".to_owned())]);
}

#[test]
fn typed_paths_lose_spaces_and_quotes() {
    assert_eq!(clean_path_input("  \"C:\\Games\\button_config.ini\"  "), "C:\\Games\\button_config.ini");
    assert_eq!(clean_path_input("\"\"a\""), "a");
    assert_eq!(clean_path_input("plain"), "plain");
    assert_eq!(clean_path_input("   "), "");
}

#[test]
fn controls_look_pressed_hot_conflicting_or_idle() {
    let document = ButtonConfig::from_text(SAMPLE, "c.ini".to_owned());
    let lookup = conflict_lookup(&document.conflict_groups());
    let atk1 = bindings_for_action(&document.bindings, "Atk1");
    let up = bindings_for_action(&document.bindings, "Up");
    let active = vec!["Atk1".to_owned()];
    assert_eq!(
        control_look("Atk1", &atk1, &active, &lookup, None),
        (ControlLook::Pressed, Some("KEY_J".to_owned()))
    );
    assert_eq!(
        control_look("Atk1", &atk1, &[], &lookup, Some("KEY_J")),
        (ControlLook::ConflictHot, Some("KEY_J".to_owned()))
    );
    assert_eq!(
        control_look("Atk1", &atk1, &[], &lookup, Some("KEY_K")),
        (ControlLook::Conflict, Some("KEY_J".to_owned()))
    );
    assert_eq!(control_look("Up", &up, &[], &lookup, Some("KEY_J")), (ControlLook::Idle, None));
}

#[test]
fn pressed_keys_are_listed_by_label_once() {
    let document = ButtonConfig::from_text(SAMPLE, "c.ini".to_owned());
    let one = document.keyboard_bindings(1);
    let two = document.keyboard_bindings(2);
    let down = vec![
        "KEY_SPACE".to_owned(),
        "KEY_J".to_owned(),
        "KEY_Q".to_owned(),
        "KEY_J".to_owned(),
    ];
    assert_eq!(pressed_labels(&down, &one, &two), vec!["J", "Space"]);
    assert!(pressed_labels(&[], &one, &two).is_empty());
}

#[test]
fn the_conflict_banner_counts_keys_and_bindings() {
    let studio = studio_with_sample();
    let groups = studio.document.as_ref().unwrap().conflict_groups();
    assert_eq!(
        conflict_summary(&groups),
        Some("1 conflicting key \u{b7} 2 affected bindings".to_owned())
    );
    let mut twice = studio.document.as_ref().unwrap().conflict_groups();
    twice.extend(groups);
    assert_eq!(
        conflict_summary(&twice),
        Some("2 conflicting keys \u{b7} 4 affected bindings".to_owned())
    );
    assert_eq!(conflict_summary(&vec![]), None);
}

#[test]
fn removing_a_line_clears_the_status_only_when_it_removed() {
    let mut studio = studio_with_sample();
    studio.remove_binding_line(0);
    assert_eq!(message(&studio), Some(("Config loaded".to_owned(), false)));
    assert_eq!(studio.document.as_ref().unwrap().bindings.len(), 3);
    studio.remove_binding_line(1);
    assert_eq!(message(&studio), None);
    assert_eq!(studio.document.as_ref().unwrap().bindings.len(), 2);
    assert!(studio.document.as_ref().unwrap().dirty);
}

#[test]
fn the_capture_window_cancels_or_removes() {
    let mut studio = studio_with_sample();
    studio.capture = Some(CaptureTarget::Replace { line_index: 1, label: "J".to_owned() });
    studio.close_capture(false, false);
    assert!(studio.capture.is_some());
    studio.close_capture(true, false);
    assert!(studio.capture.is_none());
    assert_eq!(studio.document.as_ref().unwrap().bindings.len(), 3);

    studio.capture = Some(CaptureTarget::Replace { line_index: 1, label: "J".to_owned() });
    studio.close_capture(false, true);
    assert!(studio.capture.is_none());
    assert_eq!(studio.document.as_ref().unwrap().bindings.len(), 2);
    assert_eq!(message(&studio), None);

    studio.load("cfg.ini".to_owned(), Ok(SAMPLE.to_owned()));
    studio.capture = Some(CaptureTarget::Add { player: 1, action: "Atk2".to_owned() });
    studio.close_capture(false, true);
    assert!(studio.capture.is_none());
    assert_eq!(studio.document.as_ref().unwrap().bindings.len(), 3);
    assert_eq!(message(&studio), Some(("Config loaded".to_owned(), false)));
}

#[test]
fn key_chips_and_rows_show_the_hovered_conflict() {
    let studio = studio_with_sample();
    let document = studio.document.as_ref().unwrap();
    let lookup = conflict_lookup(&document.conflict_groups());
    assert_eq!(binding_look(1, &lookup, None), ControlLook::Conflict);
    assert_eq!(binding_look(1, &lookup, Some("KEY_J")), ControlLook::ConflictHot);
    assert_eq!(binding_look(1, &lookup, Some("KEY_K")), ControlLook::Conflict);
    assert_eq!(binding_look(2, &lookup, Some("KEY_J")), ControlLook::Idle);
    let row: Vec<&bind_studio::config::Binding> = document.bindings.iter().take(2).collect();
    assert!(row_is_highlighted(&row, &lookup, Some("KEY_J")));
    assert!(!row_is_highlighted(&row, &lookup, Some("KEY_K")));
    assert!(!row_is_highlighted(&row, &lookup, None));
    assert!(!row_is_highlighted(&row[1..], &lookup, Some("KEY_J")));
}

#[test]
fn capture_windows_are_titled_by_player_and_action() {
    assert_eq!(capture_label(2, "Atk1"), "Player 2 \u{b7} A \u{b7} Light");
    assert_eq!(
        capture_title(&CaptureTarget::Add { player: 1, action: "Up".to_owned() }),
        "Player 1 \u{b7} Up"
    );
    assert_eq!(
        capture_title(&CaptureTarget::Replace { line_index: 3, label: "Keep".to_owned() }),
        "Keep"
    );
}

#[test]
fn captures_for_high_players_with_a_section_are_not_applicable() {
    let mut studio = BindStudio::new("x".to_owned(), KeyScanner::new(vec![]));
    studio.load("cfg.ini".to_owned(), Ok("Player 250\nDevice 7 KEY_J -> Atk1\n".to_owned()));
    assert!(studio.capture_is_applicable());
    studio.capture = Some(CaptureTarget::Add { player: 250, action: "Up".to_owned() });
    assert!(!studio.capture_is_applicable());
    studio.capture = Some(CaptureTarget::Add { player: 251, action: "Up".to_owned() });
    assert!(studio.capture_is_applicable());
    studio.capture = Some(CaptureTarget::Replace { line_index: 1, label: "J".to_owned() });
    assert!(studio.capture_is_applicable());
}
