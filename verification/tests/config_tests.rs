use bind_studio::config::{
    backup_file_name, backup_stem_and_extension, first_free_backup_number,
    macro_index_for_action, normalize_macro_input, Binding, ButtonConfig,
};

fn sample() -> ButtonConfig {
    let mut config = ButtonConfig {
        lines: vec![
            "Player 1".into(),
            "Device 7 KEY_J -> Atk1".into(),
            "Device 7 KEY_SPACE -> Up".into(),
            "Player 2".into(),
            "Device 8 KEY_J -> Left".into(),
        ],
        newline: "\n".into(),
        trailing_newline: true,
        bindings: vec![],
        macros: vec![],
        path: "test.ini".to_string(),
        dirty: false,
    };
    config.reparse();
    config
}

fn binding(config: &ButtonConfig, line_index: usize) -> &Binding {
    config
        .bindings
        .iter()
        .find(|binding| binding.line_index == line_index)
        .unwrap()
}

#[test]
fn detects_cross_player_keyboard_conflicts() {
    let config = sample();
    let conflicts = config.conflict_groups();
    assert_eq!(conflicts.len(), 1);
    assert_eq!(conflicts[0].key, "KEY_J");
    assert_eq!(conflicts[0].members.len(), 2);
}

#[test]
fn edits_and_adds_bindings() {
    let mut config = sample();
    assert!(config.set_source(1, "KEY_K"));
    assert!(config.add_keyboard_binding(2, "Right", "KEY_NUMPAD6"));
    assert!(config.bindings.iter().any(|binding| {
        binding.player == 2 && binding.action == "Right" && binding.source == "KEY_NUMPAD6"
    }));
}

#[test]
fn expands_macro_buttons_into_primary_actions() {
    let mut config = sample();
    assert!(config.add_keyboard_binding(1, "Atk6", "KEY_M"));
    let player_two_marker = config
        .lines
        .iter()
        .position(|line| line == "Player 2")
        .unwrap();
    config
        .lines
        .insert(player_two_marker, "Macro 0 -> N+Atk2+Atk3".into());
    config.reparse();

    let down = vec!["KEY_M".to_owned()];
    let active = config.active_actions(1, &down);
    assert!(active.iter().any(|action| action == "Atk6"));
    assert!(active.iter().any(|action| action == "Atk2"));
    assert!(active.iter().any(|action| action == "Atk3"));
}

#[test]
fn parses_bindings_with_players_devices_and_line_numbers() {
    let config = sample();
    assert_eq!(config.bindings.len(), 3);
    let first = binding(&config, 1);
    assert_eq!((first.player, first.device), (1, 7));
    assert_eq!(first.source, "KEY_J");
    assert_eq!(first.action, "Atk1");
    let last = binding(&config, 4);
    assert_eq!((last.player, last.device), (2, 8));
    assert_eq!(last.action, "Left");
}

#[test]
fn parse_skips_lines_outside_sections_and_malformed_lines() {
    let text = "Device 1 KEY_A -> Up\n\
                Player 1\n\
                  Device 7   KEY_B   ->   Down  \n\
                Device 300 KEY_C -> Up\n\
                Device x KEY_C -> Up\n\
                Device 7 KEY_C => Up\n\
                Device 7 KEY_C -> Up extra\n\
                Player x\n\
                Device 7 KEY_D -> Up\n\
                Player +2\n\
                Device 9 JOY_1 -> Atk1\n";
    let config = ButtonConfig::from_text(text, "c.ini".to_string());
    assert_eq!(config.bindings.len(), 2);
    assert_eq!(config.bindings[0].line_index, 2);
    assert_eq!(config.bindings[0].source, "KEY_B");
    assert_eq!(config.bindings[0].action, "Down");
    assert_eq!(config.bindings[1].player, 2);
    assert_eq!(config.bindings[1].source, "JOY_1");
    assert!(!config.bindings[1].is_keyboard());
}

#[test]
fn parses_macros_with_their_inputs() {
    let config = ButtonConfig::from_text(
        "Player 2\nMacro 1 -> D+DR+R+Atk1\nMacro 9 ->\nMacro q -> U\n",
        "c.ini".to_string(),
    );
    assert_eq!(config.macros.len(), 1);
    assert_eq!(config.macros[0].player, 2);
    assert_eq!(config.macros[0].index, 1);
    assert_eq!(config.macros[0].inputs, vec!["D", "DR", "R", "Atk1"]);
}

#[test]
fn keyboard_sources_start_with_key() {
    let config = ButtonConfig::from_text(
        "Player 1\nDevice 1 KEY_A -> Up\nDevice 0 BTN_A -> Up\nDevice 1 KEY -> Up\n",
        "c.ini".to_string(),
    );
    let flags: Vec<bool> = config.bindings.iter().map(|b| b.is_keyboard()).collect();
    assert_eq!(flags, vec![true, false, false]);
    let keyboard = config.keyboard_bindings(1);
    assert_eq!(keyboard.len(), 1);
    assert_eq!(keyboard[0].source, "KEY_A");
    assert!(config.keyboard_bindings(2).is_empty());
}

#[test]
fn reads_line_endings_and_writes_them_back() {
    let lf = "Player 1\nDevice 7 KEY_J -> Atk1\n";
    let config = ButtonConfig::from_text(lf, "c.ini".to_string());
    assert_eq!(config.newline, "\n");
    assert!(config.trailing_newline);
    assert_eq!(config.lines, vec!["Player 1", "Device 7 KEY_J -> Atk1"]);
    assert_eq!(config.to_text(), lf);

    let crlf = "Player 1\r\nDevice 7 KEY_J -> Atk1";
    let config = ButtonConfig::from_text(crlf, "c.ini".to_string());
    assert_eq!(config.newline, "\r\n");
    assert!(!config.trailing_newline);
    assert_eq!(config.bindings.len(), 1);
    assert_eq!(config.to_text(), crlf);

    let mixed = "a\r\nb\nc\r";
    let config = ButtonConfig::from_text(mixed, "c.ini".to_string());
    assert_eq!(config.lines, vec!["a", "b", "c\r"]);
    assert_eq!(config.to_text(), "a\r\nb\r\nc\r");

    let empty = ButtonConfig::from_text("", "c.ini".to_string());
    assert!(empty.lines.is_empty());
    assert_eq!(empty.to_text(), "");
    let blank = ButtonConfig::from_text("\n\n", "c.ini".to_string());
    assert_eq!(blank.lines, vec!["", ""]);
    assert_eq!(blank.to_text(), "\n\n");
}

#[test]
fn set_source_rewrites_only_that_line() {
    let mut config = sample();
    assert!(config.set_source(2, "KEY_W"));
    assert!(config.dirty);
    assert_eq!(config.lines[2], "Device 7 KEY_W -> Up");
    assert_eq!(config.lines[1], "Device 7 KEY_J -> Atk1");
    assert_eq!(binding(&config, 2).source, "KEY_W");
    assert_eq!(binding(&config, 2).action, "Up");
    assert_eq!(config.macros.len(), 0);
}

#[test]
fn set_source_refuses_lines_without_binding() {
    let mut config = sample();
    assert!(!config.set_source(0, "KEY_K"));
    assert!(!config.set_source(99, "KEY_K"));
    assert!(!config.dirty);
    assert_eq!(config.lines[0], "Player 1");
}

#[test]
fn remove_binding_takes_out_the_line() {
    let mut config = sample();
    assert!(!config.remove_binding(0));
    assert!(!config.remove_binding(5));
    assert!(!config.dirty);
    assert!(config.remove_binding(1));
    assert!(config.dirty);
    assert_eq!(config.lines.len(), 4);
    assert_eq!(config.bindings.len(), 2);
    assert_eq!(config.bindings[0].line_index, 1);
    assert_eq!(config.bindings[0].source, "KEY_SPACE");
    assert_eq!(config.bindings[1].line_index, 3);
}

#[test]
fn add_places_new_bindings_after_the_players_keyboard_lines() {
    let mut config = sample();
    assert!(config.add_keyboard_binding(1, "Down", "KEY_S"));
    assert_eq!(config.lines[3], "Device 7 KEY_S -> Down");
    assert_eq!(config.lines[4], "Player 2");
    let added = binding(&config, 3);
    assert_eq!((added.player, added.device), (1, 7));
}

#[test]
fn add_uses_the_section_when_the_player_has_no_keyboard_binding() {
    let text = "Player 1\nDevice 0 BTN_A -> Atk1\nMacro 0 -> N\nPlayer 2\nButtonConfigSet 9\n";
    let mut config = ButtonConfig::from_text(text, "c.ini".to_string());
    // After the last device line of the section, with device 6 + player.
    assert!(config.add_keyboard_binding(1, "Up", "KEY_W"));
    assert_eq!(config.lines[2], "Device 7 KEY_W -> Up");
    // At the end of a section without device lines.
    assert!(config.add_keyboard_binding(2, "Up", "KEY_UP"));
    assert_eq!(config.lines.len(), 7);
    assert_eq!(config.lines[6], "Device 8 KEY_UP -> Up");
    assert_eq!(binding(&config, 6).player, 2);
    // No section for player 3.
    assert!(!config.add_keyboard_binding(3, "Up", "KEY_I"));
    assert_eq!(config.lines.len(), 7);
}

#[test]
fn player_sections_run_to_the_next_header() {
    let config = sample();
    assert_eq!(config.player_section(1), Some((1, 3)));
    assert_eq!(config.player_section(2), Some((4, 5)));
    assert_eq!(config.player_section(3), None);
}

#[test]
fn conflicts_skip_unbound_keys_and_are_sorted() {
    let text = "Player 1\nDevice 7 KEY_Z -> Up\nDevice 7 KEY_NONE -> Down\nDevice 7 KEY_A -> Left\n\
                Player 2\nDevice 8 KEY_NONE -> Up\nDevice 8 KEY_A -> Atk1\nDevice 8 KEY_Z -> Atk2\n\
                Device 0 BTN_1 -> Atk3\nDevice 1 BTN_1 -> Atk4\nDevice 8 KEY_Q -> Atk4\n";
    let config = ButtonConfig::from_text(text, "c.ini".to_string());
    let groups = config.conflict_groups();
    let keys: Vec<&str> = groups.iter().map(|g| g.key.as_str()).collect();
    assert_eq!(keys, vec!["KEY_A", "KEY_Z"]);
    let lines: Vec<usize> = groups[1].members.iter().map(|b| b.line_index).collect();
    assert_eq!(lines, vec![1, 7]);
}

#[test]
fn active_actions_expand_macros_once() {
    let text = "Player 1\nDevice 7 KEY_A -> Atk8\nDevice 7 KEY_B -> Atk2\nDevice 7 KEY_C -> Up\n\
                Macro 1 -> D+Atk2+Right+X+Neutral\nPlayer 2\nDevice 8 KEY_A -> Left\n";
    let config = ButtonConfig::from_text(text, "c.ini".to_string());
    let down = vec!["KEY_A".to_owned(), "KEY_B".to_owned()];
    let mut active = config.active_actions(1, &down);
    active.sort();
    assert_eq!(active, vec!["Atk2", "Atk8", "Down", "Right"]);
    let other = config.active_actions(2, &down);
    assert_eq!(other, vec!["Left"]);
    assert!(config.active_actions(1, &vec![]).is_empty());
}

#[test]
fn macro_inputs_follow_the_macro_slot() {
    let text = "Player 1\nMacro 0 -> U+N+Atk3+L\nMacro 3 -> Atk1\nPlayer 2\nMacro 0 -> R\n";
    let config = ButtonConfig::from_text(text, "c.ini".to_string());
    assert_eq!(
        config.macro_inputs_for_action(1, "Atk6"),
        Some(vec!["Up".to_owned(), "Atk3".to_owned(), "Left".to_owned()])
    );
    assert_eq!(config.macro_inputs_for_action(1, "Atk10"), Some(vec!["Atk1".to_owned()]));
    assert_eq!(config.macro_inputs_for_action(2, "Atk6"), Some(vec!["Right".to_owned()]));
    assert_eq!(config.macro_inputs_for_action(1, "Atk8"), None);
    assert_eq!(config.macro_inputs_for_action(1, "Atk1"), None);
}

#[test]
fn macro_slots_and_inputs() {
    assert_eq!(macro_index_for_action("Atk6"), Some(0));
    assert_eq!(macro_index_for_action("Atk8"), Some(1));
    assert_eq!(macro_index_for_action("Atk9"), Some(2));
    assert_eq!(macro_index_for_action("Atk10"), Some(3));
    assert_eq!(macro_index_for_action("Atk7"), None);
    assert_eq!(normalize_macro_input("N"), None);
    assert_eq!(normalize_macro_input("Neutral"), None);
    assert_eq!(normalize_macro_input("U").as_deref(), Some("Up"));
    assert_eq!(normalize_macro_input("Down").as_deref(), Some("Down"));
    assert_eq!(normalize_macro_input("L").as_deref(), Some("Left"));
    assert_eq!(normalize_macro_input("R").as_deref(), Some("Right"));
    assert_eq!(normalize_macro_input("Atk12").as_deref(), Some("Atk12"));
    assert_eq!(normalize_macro_input("DR"), None);
}

#[test]
fn restore_replaces_the_lines_and_marks_unsaved() {
    let mut config = sample();
    config.restore_text("Player 1\r\nDevice 7 KEY_Q -> Atk1\r\n");
    assert!(config.dirty);
    assert_eq!(config.newline, "\r\n");
    assert_eq!(config.path, "test.ini");
    assert_eq!(config.bindings.len(), 1);
    assert_eq!(config.bindings[0].source, "KEY_Q");
}

#[test]
fn backups_are_numbered_with_three_digits() {
    assert_eq!(
        backup_file_name("button_config", 1, "ini"),
        "button_config.backup-001.ini"
    );
    assert_eq!(backup_file_name("c", 42, "txt"), "c.backup-042.txt");
    assert_eq!(backup_file_name("c", 1234, "ini"), "c.backup-1234.ini");
}

#[test]
fn backup_folder_stands_beside_the_config() {
    let mut config = sample();
    config.path = "games/avatar/button_config.ini".to_string();
    assert_eq!(config.backup_dir(), "games/avatar/button_config_backups");
    config.path = "button_config.ini".to_string();
    assert_eq!(config.backup_dir(), "button_config_backups");
    config.path = String::new();
    assert_eq!(config.backup_dir(), "./button_config_backups");
}

#[test]
fn removing_an_added_binding_restores_the_document() {
    let mut config = sample();
    let before = config.lines.clone();
    assert!(config.add_keyboard_binding(2, "Atk9", "KEY_P"));
    let line = config
        .bindings
        .iter()
        .find(|b| b.source == "KEY_P")
        .unwrap()
        .line_index;
    assert!(config.remove_binding(line));
    assert_eq!(config.lines, before);
    assert_eq!(config.bindings.len(), 3);
}

#[test]
fn unedited_documents_save_back_to_the_same_text() {
    for text in [
        "",
        "\n",
        "Player 1\nDevice 7 KEY_J -> Atk1",
        "a\rb\n\n",
        "Player 1\r\nDevice 7 KEY_J -> Atk1\r\n",
        "x\r\ny\rz\r\n\r\n",
        "only\r",
    ] {
        let config = ButtonConfig::from_text(text, "c.ini".to_string());
        assert_eq!(config.to_text(), text, "{:?}", text);
    }
    // A carriage return before `\r\n` is lost, and so is a bare line feed's
    // ending in a `\r\n` file.
    assert_eq!(ButtonConfig::from_text("a\r\r\n", "c.ini".to_string()).to_text(), "a\r\n");
    assert_eq!(ButtonConfig::from_text("a\r\nb\nc", "c.ini".to_string()).to_text(), "a\r\nb\r\nc");
}

#[test]
fn backup_folder_of_a_one_folder_path() {
    let mut config = sample();
    config.path = "data/button_config.ini".to_string();
    let dir = config.backup_dir();
    assert!(
        dir == "data/button_config_backups" || dir == "data\\button_config_backups",
        "{dir}"
    );
}

#[test]
fn backups_take_the_first_free_number() {
    let taken = vec![
        "button_config.backup-001.ini".to_owned(),
        "button_config.backup-002.ini".to_owned(),
        "button_config.backup-004.ini".to_owned(),
        "other.txt".to_owned(),
    ];
    assert_eq!(first_free_backup_number("button_config", "ini", &taken), Some(3));
    assert_eq!(first_free_backup_number("button_config", "ini", &vec![]), Some(1));
    assert_eq!(first_free_backup_number("cfg", "txt", &taken), Some(1));
}

#[test]
fn backups_name_files_without_stem_or_extension_by_default() {
    assert_eq!(
        backup_stem_and_extension(Some("keys"), Some("cfg")),
        ("keys".to_owned(), "cfg".to_owned())
    );
    assert_eq!(
        backup_stem_and_extension(None, None),
        ("button_config".to_owned(), "ini".to_owned())
    );
    assert_eq!(
        backup_stem_and_extension(Some("keys"), None),
        ("keys".to_owned(), "ini".to_owned())
    );
}

#[test]
fn marking_saved_clears_only_the_unsaved_mark() {
    let mut config = sample();
    assert!(config.set_source(1, "KEY_K"));
    assert!(config.dirty);
    let lines = config.lines.clone();
    config.mark_saved();
    assert!(!config.dirty);
    assert_eq!(config.lines, lines);
}

#[test]
fn removing_a_binding_moves_the_later_ones_up() {
    let mut config = sample();
    assert!(config.remove_binding(1));
    assert_eq!(config.lines.len(), 4);
    let lines: Vec<usize> = config.bindings.iter().map(|b| b.line_index).collect();
    assert_eq!(lines, vec![1, 3]);
    assert_eq!(config.bindings[0].source, "KEY_SPACE");
    assert_eq!(config.bindings[1].action, "Left");
    assert!(!config.remove_binding(0));
}

#[test]
fn backup_folder_of_a_rooted_path() {
    let mut config = sample();
    config.path = "/d/button_config.ini".to_string();
    let dir = config.backup_dir();
    assert!(dir == "/d/button_config_backups" || dir == "/d\\button_config_backups", "{dir}");
    config.path = "/button_config.ini".to_string();
    assert_eq!(config.backup_dir(), "/button_config_backups");
}

#[test]
fn backups_are_named_by_the_file_name() {
    let mut config = sample();
    config.path = "games/button_config.ini".to_string();
    assert_eq!(config.backup_naming(), ("button_config".to_owned(), "ini".to_owned()));
    config.path = "/tmp/keys.tar.cfg".to_string();
    assert_eq!(config.backup_naming(), ("keys.tar".to_owned(), "cfg".to_owned()));
    config.path = "bindings".to_string();
    assert_eq!(config.backup_naming(), ("bindings".to_owned(), "ini".to_owned()));
    config.path = ".hidden".to_string();
    assert_eq!(config.backup_naming(), (".hidden".to_owned(), "ini".to_owned()));
    config.path = String::new();
    assert_eq!(config.backup_naming(), ("button_config".to_owned(), "ini".to_owned()));
}
