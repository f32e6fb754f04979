//! The editor's state and decisions: what a captured key does, what loading,
//! saving and restoring report, and how the screens arrange bindings.

use vstd::prelude::*;

use std::collections::HashMap;

use crate::config::{self, Binding, ButtonConfig, ConflictGroup};
use crate::keys::{self, KeyScanner, KeySnapshot};
use crate::text;

verus! {

/// The two screens of the editor.
#[derive(Clone, Copy, PartialEq, Eq, Debug)]
pub enum Screen {
    Configure,
    Test,
}

/// What a captured key is for: a new source for the binding on a line, or a
/// new binding of an action.
#[derive(Debug)]
pub enum CaptureTarget {
    Replace { line_index: usize, label: String },
    Add { player: u8, action: String },
}

impl Clone for CaptureTarget {
    fn clone(&self) -> (res: Self)
        ensures
            res == *self,
    {
        match self {
            CaptureTarget::Replace { line_index, label } => CaptureTarget::Replace {
                line_index: *line_index,
                label: label.clone(),
            },
            CaptureTarget::Add { player, action } => CaptureTarget::Add {
                player: *player,
                action: action.clone(),
            },
        }
    }
}

/// A message shown under the toolbar.
#[derive(Debug)]
pub struct Status {
    pub message: String,
    pub is_error: bool,
}

/// The state of the editor window.
pub struct BindStudio {
    pub document: Option<ButtonConfig>,
    pub path_input: String,
    pub screen: Screen,
    pub scanner: KeyScanner,
    pub capture: Option<CaptureTarget>,
    pub hovered_conflict: Option<String>,
    pub status: Option<Status>,
}

/// A status message and whether it reports an error.
pub open spec fn status_is(status: Option<Status>, message: Seq<char>, is_error: bool) -> bool {
    status matches Some(s) && s.message@ == message && s.is_error == is_error
}

/// A status message.
fn make_status(message: String, is_error: bool) -> (res: Option<Status>)
    ensures
        status_is(res, message@, is_error),
{
    Some(Status { message, is_error })
}

/// `prefix` followed by `rest`.
fn concat(prefix: &str, rest: &str) -> (res: String)
    ensures
        res@ == prefix@ + rest@,
{
    let mut res = prefix.to_owned();
    res.append(rest);
    res
}

impl BindStudio {
    /// The document, where there is one, is well formed.
    pub open spec fn wf(&self) -> bool {
        self.document matches Some(d) ==> d.wf()
    }

    /// A new editor window with nothing loaded, showing the Configure screen.
    pub fn new(path_input: String, scanner: KeyScanner) -> (res: BindStudio)
        ensures
            res.document is None,
            res.path_input == path_input,
            res.screen == Screen::Configure,
            res.scanner == scanner,
            res.capture is None,
            res.hovered_conflict is None,
            res.status is None,
    {
        BindStudio {
            document: None,
            path_input,
            screen: Screen::Configure,
            scanner,
            capture: None,
            hovered_conflict: None,
            status: None,
        }
    }

    /// Takes the outcome of reading the file at `path`: its text, or the
    /// error that reading gave. A text becomes the document.
    pub fn load(&mut self, path: String, read: Result<String, String>)
        ensures
            final(self).screen == old(self).screen,
            final(self).scanner == old(self).scanner,
            final(self).capture == old(self).capture,
            match read {
                Ok(text) => {
                    &&& final(self).path_input == path
                    &&& final(self).document matches Some(d) && d.wf() && d.path == path
                        && d.text_lines() == text::lines_spec(text::crlf_to_lf(text@))
                        && d.newline@ == config::newline_of(text@) && d.trailing_newline
                        == config::ends_with_lf(text@) && !d.dirty
                    &&& final(self).hovered_conflict is None
                    &&& status_is(final(self).status, "Config loaded"@, false)
                },
                Err(e) => {
                    &&& final(self).document == old(self).document
                    &&& final(self).path_input == old(self).path_input
                    &&& final(self).hovered_conflict == old(self).hovered_conflict
                    &&& status_is(final(self).status, "Could not open config: "@ + e@, true)
                },
            },
    {
        match read {
            Ok(text) => {
                let document = ButtonConfig::from_text(text.as_str(), path.clone());
                self.path_input = path;
                self.document = Some(document);
                self.hovered_conflict = None;
                self.status = make_status("Config loaded".to_owned(), false);
            },
            Err(error) => {
                self.status = make_status(concat("Could not open config: ", error.as_str()), true);
            },
        }
    }

    /// Takes the outcome of saving the document: the path of the backup made
    /// first, or the error. A save leaves the document saved.
    pub fn save(&mut self, outcome: Result<String, String>)
        requires
            old(self).wf(),
        ensures
            final(self).wf(),
            final(self).path_input == old(self).path_input,
            final(self).screen == old(self).screen,
            final(self).scanner == old(self).scanner,
            final(self).capture == old(self).capture,
            final(self).hovered_conflict == old(self).hovered_conflict,
            match old(self).document {
                None => *final(self) == *old(self),
                Some(d) => match outcome {
                    Ok(backup) => {
                        &&& final(self).document == Some(ButtonConfig { dirty: false, ..d })
                        &&& status_is(
                            final(self).status,
                            "Saved \u{b7} Backup: "@ + backup@,
                            false,
                        )
                    },
                    Err(e) => {
                        &&& final(self).document == old(self).document
                        &&& status_is(final(self).status, "Could not save config: "@ + e@, true)
                    },
                },
            },
    {
        let mut document = match self.document.take() {
            Some(d) => d,
            None => {
                return;
            },
        };
        match outcome {
            Ok(backup) => {
                document.dirty = false;
                self.status = make_status(concat("Saved \u{b7} Backup: ", backup.as_str()), false);
            },
            Err(error) => {
                self.status = make_status(concat("Could not save config: ", error.as_str()), true);
            },
        }
        self.document = Some(document);
    }

    /// Takes the outcome of making a backup: its path, or the error.
    pub fn backup_now(&mut self, outcome: Result<String, String>)
        ensures
            final(self).document == old(self).document,
            final(self).path_input == old(self).path_input,
            final(self).screen == old(self).screen,
            final(self).scanner == old(self).scanner,
            final(self).capture == old(self).capture,
            final(self).hovered_conflict == old(self).hovered_conflict,
            old(self).document is None ==> final(self).status == old(self).status,
            old(self).document is Some ==> match outcome {
                Ok(backup) => status_is(final(self).status, "Backup created: "@ + backup@, false),
                Err(e) => status_is(final(self).status, "Could not create backup: "@ + e@, true),
            },
    {
        if self.document.is_none() {
            return;
        }
        match outcome {
            Ok(backup) => {
                self.status = make_status(concat("Backup created: ", backup.as_str()), false);
            },
            Err(error) => {
                self.status = make_status(concat("Could not create backup: ", error.as_str()), true);
            },
        }
    }

    /// Takes the outcome of reading the backup at `path`: its text, or the
    /// error. A text replaces the document, which is then unsaved.
    pub fn restore_backup(&mut self, path: String, read: Result<String, String>)
        requires
            old(self).wf(),
        ensures
            final(self).wf(),
            final(self).path_input == old(self).path_input,
            final(self).screen == old(self).screen,
            final(self).scanner == old(self).scanner,
            final(self).capture == old(self).capture,
            match old(self).document {
                None => *final(self) == *old(self),
                Some(d) => match read {
                    Ok(text) => {
                        &&& final(self).document matches Some(n) && n.wf() && n.path == d.path
                            && n.text_lines() == text::lines_spec(text::crlf_to_lf(text@))
                            && n.newline@ == config::newline_of(text@) && n.trailing_newline
                            == config::ends_with_lf(text@) && n.dirty
                        &&& final(self).hovered_conflict is None
                        &&& status_is(
                            final(self).status,
                            "Backup loaded from "@ + path@
                                + " \u{b7} Review it, then Save to apply"@,
                            false,
                        )
                    },
                    Err(e) => {
                        &&& final(self).document == old(self).document
                        &&& final(self).hovered_conflict == old(self).hovered_conflict
                        &&& status_is(final(self).status, "Could not restore backup: "@ + e@, true)
                    },
                },
            },
    {
        let mut document = match self.document.take() {
            Some(d) => d,
            None => {
                return;
            },
        };
        match read {
            Ok(text) => {
                document.restore_text(text.as_str());
                self.hovered_conflict = None;
                let mut message = concat("Backup loaded from ", path.as_str());
                message.append(" \u{b7} Review it, then Save to apply");
                self.status = make_status(message, false);
            },
            Err(error) => {
                self.status = make_status(concat("Could not restore backup: ", error.as_str()), true);
            },
        }
        self.document = Some(document);
    }
}

/// What applying a captured key does to the document: the effect of
/// `set_source` or of `add_keyboard_binding` on it, with `changed` their
/// answer.
pub open spec fn capture_effect(
    target: CaptureTarget,
    before: ButtonConfig,
    after: ButtonConfig,
    token: Seq<char>,
    changed: bool,
) -> bool {
    match target {
        CaptureTarget::Replace { line_index, .. } => config::set_source_effect(
            before,
            after,
            line_index as int,
            token,
            changed,
        ),
        CaptureTarget::Add { player, action } => config::add_binding_effect(
            before,
            after,
            player,
            action@,
            token,
            changed,
        ),
    }
}

/// A captured key can be applied without overflow: a new binding of a player
/// above 249 has no section to go in.
pub open spec fn capture_applicable(studio: BindStudio) -> bool {
    studio.capture matches Some(CaptureTarget::Add { player, .. }) ==> (
    studio.document matches Some(d) ==> config::section_of(d.text_lines(), player) is Some
        ==> player <= 249)
}

impl BindStudio {
    /// Applies a captured key to what the capture was for. The capture ends;
    /// an edit that changed the document clears the status.
    pub fn apply_captured_key(&mut self, token: &str)
        requires
            old(self).wf(),
            capture_applicable(*old(self)),
        ensures
            final(self).wf(),
            final(self).path_input == old(self).path_input,
            final(self).screen == old(self).screen,
            final(self).scanner == old(self).scanner,
            final(self).hovered_conflict == old(self).hovered_conflict,
            match old(self).capture {
                None => *final(self) == *old(self),
                Some(target) => {
                    &&& final(self).capture is None
                    &&& match old(self).document {
                        None => final(self).document is None && final(self).status == old(
                            self,
                        ).status,
                        Some(before) => exists|changed: bool|
                            #![trigger capture_effect(target, before, final(self).document->0, token@, changed)]
                            final(self).document is Some && capture_effect(
                                target,
                                before,
                                final(self).document->0,
                                token@,
                                changed,
                            ) && (if changed {
                                final(self).status is None
                            } else {
                                final(self).status == old(self).status
                            }),
                    }
                },
            },
    {
        let target = match self.capture.take() {
            Some(t) => t,
            None => {
                return;
            },
        };
        let mut document = match self.document.take() {
            Some(d) => d,
            None => {
                return;
            },
        };
        let ghost before = document;
        let changed = match target {
            CaptureTarget::Replace { line_index, .. } => document.set_source(line_index, token),
            CaptureTarget::Add { player, action } => {
                document.add_keyboard_binding(player, action.as_str(), token)
            },
        };
        self.document = Some(document);
        if changed {
            self.status = None;
        }
        assert(capture_effect(target, before, self.document->0, token@, changed));
    }

    /// Handles the keys pressed since the last poll while a key is being
    /// captured: Escape cancels the capture; otherwise the first newly
    /// pressed key is applied.
    pub fn handle_capture(&mut self, snapshot: &KeySnapshot)
        requires
            old(self).wf(),
            capture_applicable(*old(self)),
        ensures
            final(self).wf(),
            ({
                let pressed = config::string_views(snapshot.newly_pressed@);
                if old(self).capture is None {
                    *final(self) == *old(self)
                } else if pressed.contains("KEY_ESCAPE"@) {
                    *final(self) == BindStudio { capture: None, ..*old(self) }
                } else if pressed.len() == 0 {
                    *final(self) == *old(self)
                } else {
                    final(self).capture is None && match old(self).document {
                        None => final(self).document is None && final(self).status == old(
                            self,
                        ).status,
                        Some(before) => exists|changed: bool|
                            #![trigger capture_effect(old(self).capture->0, before, final(self).document->0, pressed[0], changed)]
                            final(self).document is Some && capture_effect(
                                old(self).capture->0,
                                before,
                                final(self).document->0,
                                pressed[0],
                                changed,
                            ) && (if changed {
                                final(self).status is None
                            } else {
                                final(self).status == old(self).status
                            }),
                    }
                }
            }),
    {
        if self.capture.is_none() {
            return;
        }
        let escape = "KEY_ESCAPE".to_owned();
        if config::contains_string(&snapshot.newly_pressed, &escape) {
            self.capture = None;
            return;
        }
        if snapshot.newly_pressed.len() > 0 {
            let token = &snapshot.newly_pressed[0];
            assert(config::string_views(snapshot.newly_pressed@)[0] == token@);
            self.apply_captured_key(token.as_str());
        }
    }
}

impl BindStudio {
    /// Removes the binding on `line_index` of the document, where there is
    /// one; a removal clears the status.
    pub fn remove_binding_line(&mut self, line_index: usize)
        requires
            old(self).wf(),
        ensures
            final(self).wf(),
            match old(self).document {
                None => *final(self) == *old(self),
                Some(before) => {
                    let removed = config::binding_on_line(
                        config::binding_views(before.bindings@),
                        line_index as int,
                    ) is Some;
                    &&& final(self).document is Some
                    &&& config::remove_binding_effect(
                        before,
                        final(self).document->0,
                        line_index as int,
                        removed,
                    )
                    &&& if removed {
                        final(self).status is None
                    } else {
                        final(self).status == old(self).status
                    }
                    &&& final(self).path_input == old(self).path_input
                    &&& final(self).screen == old(self).screen
                    &&& final(self).scanner == old(self).scanner
                    &&& final(self).capture == old(self).capture
                    &&& final(self).hovered_conflict == old(self).hovered_conflict
                },
            },
    {
        let mut document = match self.document.take() {
            Some(d) => d,
            None => {
                return;
            },
        };
        let removed = document.remove_binding(line_index);
        self.document = Some(document);
        if removed {
            self.status = None;
        }
    }

    /// Closes the key capture window on its buttons: Cancel ends the
    /// capture; Remove also takes out the binding being replaced, where
    /// there is a document, and clears the status.
    pub fn close_capture(&mut self, cancel: bool, remove: bool)
        requires
            old(self).wf(),
        ensures
            final(self).wf(),
            final(self).path_input == old(self).path_input,
            final(self).screen == old(self).screen,
            final(self).scanner == old(self).scanner,
            final(self).hovered_conflict == old(self).hovered_conflict,
            if remove {
                &&& final(self).capture is None
                &&& match (old(self).capture, old(self).document) {
                    (Some(CaptureTarget::Replace { line_index, .. }), Some(before)) => {
                        &&& final(self).document is Some
                        &&& config::remove_binding_effect(
                            before,
                            final(self).document->0,
                            line_index as int,
                            config::binding_on_line(
                                config::binding_views(before.bindings@),
                                line_index as int,
                            ) is Some,
                        )
                        &&& final(self).status is None
                    },
                    _ => final(self).document == old(self).document && final(self).status == old(
                        self,
                    ).status,
                }
            } else if cancel {
                *final(self) == (BindStudio { capture: None, ..*old(self) })
            } else {
                *final(self) == *old(self)
            },
    {
        if !remove {
            if cancel {
                self.capture = None;
            }
            return;
        }
        let target = self.capture.take();
        if let Some(CaptureTarget::Replace { line_index, .. }) = target {
            let mut document = match self.document.take() {
                Some(d) => d,
                None => {
                    return;
                },
            };
            document.remove_binding(line_index);
            self.document = Some(document);
            self.status = None;
        }
    }
}

/// The number of bindings in all the groups.
pub open spec fn member_total(gs: Seq<config::ConflictGroupSpec>) -> int
    decreases gs.len(),
{
    if gs.len() == 0 {
        0
    } else {
        member_total(gs.drop_last()) + gs.last().members.len()
    }
}

proof fn lemma_member_total_prefix(gs: Seq<config::ConflictGroupSpec>, i: int)
    requires
        0 <= i <= gs.len(),
    ensures
        member_total(gs.take(i)) <= member_total(gs),
    decreases gs.len(),
{
    if i < gs.len() {
        assert(gs.drop_last().take(i) =~= gs.take(i));
        lemma_member_total_prefix(gs.drop_last(), i);
    } else {
        assert(gs.take(i) =~= gs);
    }
}

/// The conflict banner's text: how many keys conflict and how many bindings
/// they take.
pub open spec fn conflict_summary_spec(keys: nat, affected: nat) -> Seq<char> {
    text::dec(keys) + " conflicting "@ + (if keys == 1 {
        "key"@
    } else {
        "keys"@
    }) + " \u{b7} "@ + text::dec(affected) + " affected bindings"@
}

/// The conflict banner's text for `groups`; `None` where there is no
/// conflict to report, and where the bindings in them cannot be counted in
/// a `usize`.
pub fn conflict_summary(groups: &Vec<ConflictGroup>) -> (res: Option<String>)
    ensures
        res is Some <==> groups.len() > 0 && member_total(config::group_views(groups@))
            <= usize::MAX,
        res is Some ==> res->0@ == conflict_summary_spec(
            groups.len() as nat,
            member_total(config::group_views(groups@)) as nat,
        ),
{
    if groups.len() == 0 {
        return None;
    }
    let ghost gv = config::group_views(groups@);
    let mut total: usize = 0;
    let mut i: usize = 0;
    while i < groups.len()
        invariant
            i <= groups.len(),
            gv == config::group_views(groups@),
            total == member_total(gv.take(i as int)),
        decreases groups.len() - i,
    {
        assert(gv.take(i + 1).drop_last() =~= gv.take(i as int));
        assert(gv[i as int].members.len() == groups@[i as int].members.len());
        match total.checked_add(groups[i].members.len()) {
            Some(t) => {
                total = t;
            },
            None => {
                proof {
                    lemma_member_total_prefix(gv, i + 1);
                }
                return None;
            },
        }
        i = i + 1;
    }
    assert(gv.take(groups.len() as int) =~= gv);
    let mut res = String::new();
    text::push_dec(&mut res, groups.len() as u64);
    res.append(" conflicting ");
    if groups.len() == 1 {
        res.append("key");
    } else {
        res.append("keys");
    }
    res.append(" \u{b7} ");
    text::push_dec(&mut res, total as u64);
    res.append(" affected bindings");
    Some(res)
}

// ---------------------------------------------------------------------------
// Arranging bindings for display
// ---------------------------------------------------------------------------

/// The key of each conflicting binding line, adding the members of `members`
/// in order to `m`.
pub open spec fn lookup_members(
    m: Map<usize, Seq<char>>,
    members: Seq<config::BindingSpec>,
    key: Seq<char>,
) -> Map<usize, Seq<char>>
    decreases members.len(),
{
    if members.len() == 0 {
        m
    } else {
        lookup_members(m, members.drop_last(), key).insert(
            members.last().line_index as usize,
            key,
        )
    }
}

/// The conflicting key of each binding line of the groups; where a line
/// stood in two groups, the later one counts.
pub open spec fn conflict_lookup_spec(gs: Seq<config::ConflictGroupSpec>) -> Map<usize, Seq<char>>
    decreases gs.len(),
{
    if gs.len() == 0 {
        Map::empty()
    } else {
        lookup_members(conflict_lookup_spec(gs.drop_last()), gs.last().members, gs.last().key)
    }
}

/// The strings of a map, as character sequences.
pub open spec fn map_views(m: Map<usize, String>) -> Map<usize, Seq<char>> {
    m.map_values(|s: String| s@)
}

/// The conflicting key of each binding line in the groups.
pub fn conflict_lookup(groups: &Vec<ConflictGroup>) -> (res: HashMap<usize, String>)
    ensures
        map_views(res@) == conflict_lookup_spec(config::group_views(groups@)),
{
    broadcast use vstd::std_specs::hash::group_hash_axioms;

    let ghost gv = config::group_views(groups@);
    let mut res: HashMap<usize, String> = HashMap::new();
    assert(map_views(res@) =~= Map::<usize, Seq<char>>::empty());
    let mut g: usize = 0;
    while g < groups.len()
        invariant
            g <= groups.len(),
            gv == config::group_views(groups@),
            map_views(res@) == conflict_lookup_spec(gv.take(g as int)),
        decreases groups.len() - g,
    {
        let group = &groups[g];
        assert(gv[g as int] == group@);
        let ghost base = conflict_lookup_spec(gv.take(g as int));
        let ghost mv = config::binding_views(group.members@);
        let mut m: usize = 0;
        assert(mv.take(0) =~= Seq::<config::BindingSpec>::empty());
        while m < group.members.len()
            invariant
                m <= group.members.len(),
                mv == config::binding_views(group.members@),
                map_views(res@) == lookup_members(base, mv.take(m as int), group.key@),
            decreases group.members.len() - m,
        {
            let ghost before = res@;
            let key = group.key.clone();
            res.insert(group.members[m].line_index, key);
            assert(mv.take(m + 1).drop_last() =~= mv.take(m as int));
            assert(mv.take(m + 1).last() == group.members@[m as int]@);
            assert(map_views(res@) =~= map_views(before).insert(
                group.members@[m as int].line_index,
                group.key@,
            ));
            m = m + 1;
        }
        assert(mv.take(group.members.len() as int) =~= mv);
        assert(gv.take(g + 1).drop_last() =~= gv.take(g as int));
        g = g + 1;
    }
    assert(gv.take(groups.len() as int) =~= gv);
    res
}

/// The name and description shown for an action.
pub open spec fn action_label_spec(action: Seq<char>) -> (Seq<char>, Seq<char>) {
    if action == "Up"@ {
        ("Up"@, "Jump / up"@)
    } else if action == "Down"@ {
        ("Down"@, "Crouch / down"@)
    } else if action == "Left"@ {
        ("Left"@, "Move left"@)
    } else if action == "Right"@ {
        ("Right"@, "Move right"@)
    } else if action == "Atk1"@ {
        ("A \u{b7} Light"@, "Atk1"@)
    } else if action == "Atk2"@ {
        ("B \u{b7} Medium"@, "Atk2"@)
    } else if action == "Atk3"@ {
        ("C \u{b7} Heavy"@, "Atk3"@)
    } else if action == "Atk4"@ {
        ("F \u{b7} Flow"@, "Atk4"@)
    } else if action == "Atk6"@ {
        ("Macro 0"@, "Atk6"@)
    } else if action == "Atk8"@ {
        ("Macro 1"@, "Atk8"@)
    } else if action == "Atk9"@ {
        ("Macro 2"@, "Atk9"@)
    } else if action == "Atk10"@ {
        ("Macro 3"@, "Atk10"@)
    } else if action == "Start"@ {
        ("Start"@, "Menu confirm"@)
    } else if action == "Select"@ {
        ("Select"@, "Menu secondary"@)
    } else {
        (action, "Custom action"@)
    }
}

/// The name and description shown for an action.
pub fn action_label(action: &str) -> (res: (&str, &str))
    ensures
        (res.0@, res.1@) == action_label_spec(action@),
{
    let a = text::chars_of(action);
    if text::chars_eq_str(&a, "Up") {
        ("Up", "Jump / up")
    } else if text::chars_eq_str(&a, "Down") {
        ("Down", "Crouch / down")
    } else if text::chars_eq_str(&a, "Left") {
        ("Left", "Move left")
    } else if text::chars_eq_str(&a, "Right") {
        ("Right", "Move right")
    } else if text::chars_eq_str(&a, "Atk1") {
        ("A \u{b7} Light", "Atk1")
    } else if text::chars_eq_str(&a, "Atk2") {
        ("B \u{b7} Medium", "Atk2")
    } else if text::chars_eq_str(&a, "Atk3") {
        ("C \u{b7} Heavy", "Atk3")
    } else if text::chars_eq_str(&a, "Atk4") {
        ("F \u{b7} Flow", "Atk4")
    } else if text::chars_eq_str(&a, "Atk6") {
        ("Macro 0", "Atk6")
    } else if text::chars_eq_str(&a, "Atk8") {
        ("Macro 1", "Atk8")
    } else if text::chars_eq_str(&a, "Atk9") {
        ("Macro 2", "Atk9")
    } else if text::chars_eq_str(&a, "Atk10") {
        ("Macro 3", "Atk10")
    } else if text::chars_eq_str(&a, "Start") {
        ("Start", "Menu confirm")
    } else if text::chars_eq_str(&a, "Select") {
        ("Select", "Menu secondary")
    } else {
        (action, "Custom action")
    }
}

/// The bindings of `action`, in order.
pub open spec fn with_action(bs: Seq<config::BindingSpec>, action: Seq<char>) -> Seq<config::BindingSpec>
    decreases bs.len(),
{
    if bs.len() == 0 {
        seq![]
    } else {
        let prev = with_action(bs.drop_last(), action);
        if bs.last().action == action {
            prev.push(bs.last())
        } else {
            prev
        }
    }
}

/// The views of a sequence of borrowed bindings.
pub open spec fn ref_views(bs: Seq<&Binding>) -> Seq<config::BindingSpec> {
    bs.map_values(|b: &Binding| b@)
}

/// The bindings of `action`, in order.
pub fn bindings_for_action<'a>(bindings: &'a [Binding], action: &str) -> (res: Vec<&'a Binding>)
    ensures
        ref_views(res@) == with_action(config::binding_views(bindings@), action@),
{
    let ghost bs = config::binding_views(bindings@);
    let a = text::chars_of(action);
    let mut res: Vec<&'a Binding> = Vec::new();
    let mut i: usize = 0;
    while i < bindings.len()
        invariant
            i <= bindings.len(),
            bs == config::binding_views(bindings@),
            a@ == action@,
            ref_views(res@) == with_action(bs.take(i as int), action@),
        decreases bindings.len() - i,
    {
        let b = &bindings[i];
        assert(bs.take(i + 1).drop_last() =~= bs.take(i as int));
        assert(bs.take(i + 1).last() == b@);
        let action_chars = text::chars_of(b.action.as_str());
        if text::chars_eq(&action_chars, &a) {
            let ghost before = ref_views(res@);
            res.push(b);
            assert(ref_views(res@) =~= before.push(b@));
        }
        i = i + 1;
    }
    assert(bs.take(bindings.len() as int) =~= bs);
    res
}

/// The labels of the keys of some bindings, in order.
pub open spec fn source_labels(bs: Seq<config::BindingSpec>) -> Seq<Seq<char>> {
    bs.map_values(|b: config::BindingSpec| keys::key_label_spec(b.source))
}

/// The keys of some bindings, as shown: their labels joined by ` / `, or
/// `UNBOUND` where there are none.
pub fn binding_names(bindings: &[&Binding]) -> (res: String)
    ensures
        res@ == if bindings@.len() == 0 {
            "UNBOUND"@
        } else {
            text::join(source_labels(ref_views(bindings@)), " / "@)
        },
{
    if bindings.len() == 0 {
        return "UNBOUND".to_owned();
    }
    let ghost labels = source_labels(ref_views(bindings@));
    let mut names: Vec<String> = Vec::new();
    let mut i: usize = 0;
    while i < bindings.len()
        invariant
            i <= bindings.len(),
            labels == source_labels(ref_views(bindings@)),
            config::string_views(names@) == labels.take(i as int),
        decreases bindings.len() - i,
    {
        let label = keys::key_label(bindings[i].source.as_str());
        let ghost before = config::string_views(names@);
        let ghost lv = label@;
        names.push(label);
        assert(config::string_views(names@) =~= before.push(lv));
        i = i + 1;
        assert(labels.take(i as int) =~= labels.take(i - 1).push(lv));
    }
    assert(labels.take(bindings.len() as int) =~= labels);
    text::join_strings(&names, " / ")
}

/// The actions every player panel lists, in this order.
pub const STANDARD_ACTIONS: [&'static str; 14] = [
    "Up",
    "Down",
    "Left",
    "Right",
    "Atk1",
    "Atk2",
    "Atk3",
    "Atk4",
    "Atk6",
    "Atk8",
    "Atk9",
    "Atk10",
    "Start",
    "Select",
];

/// The standard actions, as character sequences.
pub open spec fn standard_actions() -> Seq<Seq<char>> {
    STANDARD_ACTIONS@.map_values(|t: &str| t@)
}

/// Strictly increasing in the order of `String`.
pub open spec fn strictly_sorted(s: Seq<Seq<char>>) -> bool {
    forall|a: int, b: int| 0 <= a < b < s.len() ==> text::lex_lt(#[trigger] s[a], #[trigger] s[b])
}

/// An action of some binding that is not a standard one.
pub open spec fn is_extra_action(bs: Seq<config::BindingSpec>, x: Seq<char>) -> bool {
    !standard_actions().contains(x) && exists|k: int| 0 <= k < bs.len() && (#[trigger] bs[k]).action == x
}

/// Whether `a` is a standard action.
fn is_standard_action(a: &String) -> (res: bool)
    ensures
        res == standard_actions().contains(a@),
{
    let c = text::chars_of(a.as_str());
    let mut i: usize = 0;
    while i < 14
        invariant
            i <= 14,
            c@ == a@,
            forall|j: int| 0 <= j < i ==> standard_actions()[j] != a@,
        decreases 14 - i,
    {
        assert(standard_actions()[i as int] == STANDARD_ACTIONS@[i as int]@);
        if text::chars_eq_str(&c, STANDARD_ACTIONS[i]) {
            return true;
        }
        i = i + 1;
    }
    false
}

/// Adds `s` to a strictly sorted vector, where it is not there yet.
fn insert_sorted(v: &mut Vec<String>, s: String)
    requires
        strictly_sorted(config::string_views(old(v)@)),
    ensures
        strictly_sorted(config::string_views(final(v)@)),
        forall|x: Seq<char>| #[trigger] config::string_views(final(v)@).contains(x) <==> (
        config::string_views(old(v)@).contains(x) || x == s@),
{
    let ghost old_v = config::string_views(v@);
    let mut p: usize = 0;
    while p < v.len() && text::str_lt(v[p].as_str(), s.as_str())
        invariant
            p <= v.len(),
            old_v == config::string_views(v@),
            forall|q: int| 0 <= q < p ==> text::lex_lt(#[trigger] old_v[q], s@),
        decreases v.len() - p,
    {
        p = p + 1;
    }
    if p < v.len() && v[p] == s {
        assert(old_v[p as int] == s@);
        return;
    }
    proof {
        if p < v.len() {
            text::lemma_lex_total(s@, old_v[p as int]);
        }
    }
    let ghost sv = s@;
    v.insert(p, s);
    let ghost nv = config::string_views(v@);
    assert(nv =~= old_v.insert(p as int, sv));
    assert forall|a: int, b: int| 0 <= a < b < nv.len() implies text::lex_lt(#[trigger] nv[a], #[trigger] nv[b]) by {
        if b < p {
        } else if b == p {
        } else if a < p {
            if b > p + 1 {
                text::lemma_lex_transitive(sv, old_v[p as int], old_v[b - 1]);
            }
            text::lemma_lex_transitive(nv[a], sv, nv[b]);
        } else if a == p {
            if b > p + 1 {
                text::lemma_lex_transitive(sv, old_v[p as int], old_v[b - 1]);
            }
        } else {
        }
    }
    assert forall|x: Seq<char>| #[trigger] nv.contains(x) <==> (old_v.contains(x) || x == sv) by {
        if nv.contains(x) {
            let q = choose|q: int| 0 <= q < nv.len() && #[trigger] nv[q] == x;
            if q < p {
                assert(old_v[q] == x);
            } else if q > p {
                assert(old_v[q - 1] == x);
            }
        }
        if old_v.contains(x) {
            let q = choose|q: int| 0 <= q < old_v.len() && #[trigger] old_v[q] == x;
            if q < p {
                assert(nv[q] == x);
            } else {
                assert(nv[q + 1] == x);
            }
        }
        if x == sv {
            assert(nv[p as int] == x);
        }
    }
}

/// The actions a player panel lists: the standard ones, then the other
/// actions of the bindings, each once, in the order of `String`.
pub fn ordered_actions(bindings: &[Binding]) -> (res: Vec<String>)
    ensures
        res@.len() >= 14,
        config::string_views(res@).take(14) == standard_actions(),
        strictly_sorted(config::string_views(res@).skip(14)),
        forall|x: Seq<char>| #[trigger] config::string_views(res@).skip(14).contains(x)
            <==> is_extra_action(config::binding_views(bindings@), x),
{
    let ghost bs = config::binding_views(bindings@);
    let mut extras: Vec<String> = Vec::new();
    let mut i: usize = 0;
    while i < bindings.len()
        invariant
            i <= bindings.len(),
            bs == config::binding_views(bindings@),
            strictly_sorted(config::string_views(extras@)),
            forall|x: Seq<char>| #[trigger] config::string_views(extras@).contains(x)
                <==> is_extra_action(bs.take(i as int), x),
        decreases bindings.len() - i,
    {
        let action = &bindings[i].action;
        assert(bs[i as int].action == action@);
        if !is_standard_action(action) {
            insert_sorted(&mut extras, action.clone());
        }
        assert forall|x: Seq<char>| #[trigger] config::string_views(extras@).contains(x)
            <==> is_extra_action(bs.take(i + 1), x) by {
            if is_extra_action(bs.take(i + 1), x) {
                let k = choose|k: int| 0 <= k < bs.take(i + 1).len() && (#[trigger] bs.take(i + 1)[k]).action == x;
                if k < i {
                    assert(bs.take(i as int)[k] == bs.take(i + 1)[k]);
                }
            }
            if is_extra_action(bs.take(i as int), x) {
                let k = choose|k: int| 0 <= k < bs.take(i as int).len() && (#[trigger] bs.take(i as int)[k]).action == x;
                assert(bs.take(i + 1)[k] == bs.take(i as int)[k]);
            }
            if x == action@ && !standard_actions().contains(x) {
                assert(bs.take(i + 1)[i as int] == bs[i as int]);
            }
        }
        i = i + 1;
    }
    assert(bs.take(bindings.len() as int) =~= bs);
    let mut res: Vec<String> = Vec::new();
    let mut k: usize = 0;
    while k < 14
        invariant
            k <= 14,
            config::string_views(res@) == standard_actions().take(k as int),
        decreases 14 - k,
    {
        let ghost before = config::string_views(res@);
        let s = STANDARD_ACTIONS[k].to_owned();
        assert(s@ == standard_actions()[k as int]);
        let ghost sv = s@;
        res.push(s);
        assert(config::string_views(res@) =~= before.push(sv));
        k = k + 1;
        assert(config::string_views(res@) =~= standard_actions().take(k as int));
    }
    let ghost ev = config::string_views(extras@);
    let ghost head = config::string_views(res@);
    let mut j: usize = 0;
    while j < extras.len()
        invariant
            j <= extras.len(),
            ev == config::string_views(extras@),
            head.len() == 14,
            config::string_views(res@) == head + ev.take(j as int),
        decreases extras.len() - j,
    {
        let ghost before = config::string_views(res@);
        let s = extras[j].clone();
        assert(s@ == ev[j as int]);
        let ghost sv = s@;
        res.push(s);
        assert(config::string_views(res@) =~= before.push(sv));
        j = j + 1;
        assert(config::string_views(res@) =~= head + ev.take(j as int));
    }
    assert(ev.take(extras.len() as int) =~= ev);
    assert(standard_actions().take(14) =~= standard_actions());
    assert(config::string_views(res@).take(14) =~= head);
    assert(config::string_views(res@).skip(14) =~= ev);
    res
}

/// A direction.
pub open spec fn is_movement(a: Seq<char>) -> bool {
    a == "Up"@ || a == "Down"@ || a == "Left"@ || a == "Right"@
}

/// An attack or macro button.
pub open spec fn is_combat(a: Seq<char>) -> bool {
    text::has_prefix(a, "Atk"@)
}

/// Which of the three panel sections an action goes in: 0 movement,
/// 1 combat, 2 utility.
pub open spec fn section_index(a: Seq<char>) -> int {
    if is_movement(a) {
        0
    } else if is_combat(a) {
        1
    } else {
        2
    }
}

/// The actions of section `sec`, in order.
pub open spec fn in_section(actions: Seq<Seq<char>>, sec: int) -> Seq<Seq<char>>
    decreases actions.len(),
{
    if actions.len() == 0 {
        seq![]
    } else {
        let prev = in_section(actions.drop_last(), sec);
        if section_index(actions.last()) == sec {
            prev.push(actions.last())
        } else {
            prev
        }
    }
}

/// The section of an action: 0 movement, 1 combat, 2 utility.
fn section_of_action(a: &String) -> (res: usize)
    ensures
        res == section_index(a@),
{
    let c = text::chars_of(a.as_str());
    if text::chars_eq_str(&c, "Up") || text::chars_eq_str(&c, "Down") || text::chars_eq_str(
        &c,
        "Left",
    ) || text::chars_eq_str(&c, "Right") {
        0
    } else if text::starts_with_str(&c, "Atk") {
        1
    } else {
        2
    }
}

/// The actions split into the MOVEMENT, COMBAT and UTILITY sections of a
/// panel, each in the given order.
pub fn grouped_actions(actions: &Vec<String>) -> (res: Vec<(&'static str, Vec<String>)>)
    ensures
        res@.len() == 3,
        res@[0].0@ == "MOVEMENT"@,
        res@[1].0@ == "COMBAT"@,
        res@[2].0@ == "UTILITY"@,
        config::string_views(res@[0].1@) == in_section(config::string_views(actions@), 0),
        config::string_views(res@[1].1@) == in_section(config::string_views(actions@), 1),
        config::string_views(res@[2].1@) == in_section(config::string_views(actions@), 2),
{
    let ghost av = config::string_views(actions@);
    let mut movement: Vec<String> = Vec::new();
    let mut combat: Vec<String> = Vec::new();
    let mut utility: Vec<String> = Vec::new();
    let mut i: usize = 0;
    while i < actions.len()
        invariant
            i <= actions.len(),
            av == config::string_views(actions@),
            config::string_views(movement@) == in_section(av.take(i as int), 0),
            config::string_views(combat@) == in_section(av.take(i as int), 1),
            config::string_views(utility@) == in_section(av.take(i as int), 2),
        decreases actions.len() - i,
    {
        let a = actions[i].clone();
        assert(av.take(i + 1).drop_last() =~= av.take(i as int));
        assert(av.take(i + 1).last() == a@);
        let ghost m0 = config::string_views(movement@);
        let ghost c0 = config::string_views(combat@);
        let ghost u0 = config::string_views(utility@);
        let ghost a_view = a@;
        let sec = section_of_action(&a);
        if sec == 0 {
            movement.push(a);
            assert(config::string_views(movement@) =~= m0.push(a_view));
        } else if sec == 1 {
            combat.push(a);
            assert(config::string_views(combat@) =~= c0.push(a_view));
        } else {
            utility.push(a);
            assert(config::string_views(utility@) =~= u0.push(a_view));
        }
        i = i + 1;
    }
    assert(av.take(actions.len() as int) =~= av);
    let mut res: Vec<(&'static str, Vec<String>)> = Vec::new();
    res.push(("MOVEMENT", movement));
    res.push(("COMBAT", combat));
    res.push(("UTILITY", utility));
    res
}

/// The short name of a macro input on a button label.
pub open spec fn readable_input(a: Seq<char>) -> Seq<char> {
    if a == "Atk1"@ {
        "A"@
    } else if a == "Atk2"@ {
        "B"@
    } else if a == "Atk3"@ {
        "C"@
    } else if a == "Atk4"@ {
        "F"@
    } else {
        a
    }
}

/// The macro buttons, in the order the test screen shows them.
pub const MACRO_BUTTONS: [&'static str; 4] = ["Atk6", "Atk8", "Atk9", "Atk10"];

/// The macro buttons, as character sequences.
pub open spec fn macro_buttons() -> Seq<Seq<char>> {
    MACRO_BUTTONS@.map_values(|t: &str| t@)
}

/// For each of `buttons` that has a macro of `player`: the button and the
/// macro's inputs, by their short names, joined by `+`.
pub open spec fn macro_label_entries(
    ms: Seq<config::MacroSpec>,
    player: u8,
    buttons: Seq<Seq<char>>,
) -> Seq<(Seq<char>, Seq<char>)>
    decreases buttons.len(),
{
    if buttons.len() == 0 {
        seq![]
    } else {
        let prev = macro_label_entries(ms, player, buttons.drop_last());
        let a = buttons.last();
        match config::macro_index_spec(a) {
            Some(i) => match config::find_macro(ms, player, i) {
                Some(m) => prev.push(
                    (
                        a,
                        text::join(
                            config::normalized(m.inputs).map_values(|x: Seq<char>| readable_input(x)),
                            "+"@,
                        ),
                    ),
                ),
                None => prev,
            },
            None => prev,
        }
    }
}

/// The views of pairs of strings.
pub open spec fn pair_views(ps: Seq<(String, String)>) -> Seq<(Seq<char>, Seq<char>)> {
    ps.map_values(|p: (String, String)| (p.0@, p.1@))
}

/// The short name of a macro input.
fn readable(a: &String) -> (res: String)
    ensures
        res@ == readable_input(a@),
{
    let c = text::chars_of(a.as_str());
    if text::chars_eq_str(&c, "Atk1") {
        "A".to_owned()
    } else if text::chars_eq_str(&c, "Atk2") {
        "B".to_owned()
    } else if text::chars_eq_str(&c, "Atk3") {
        "C".to_owned()
    } else if text::chars_eq_str(&c, "Atk4") {
        "F".to_owned()
    } else {
        a.clone()
    }
}

/// For each macro button of `player` that has a macro: the button and what
/// the macro presses, e.g. `B+C`.
pub fn macro_labels(document: &ButtonConfig, player: u8) -> (res: Vec<(String, String)>)
    ensures
        pair_views(res@) == macro_label_entries(
            config::macro_views(document.macros@),
            player,
            macro_buttons(),
        ),
{
    let ghost ms = config::macro_views(document.macros@);
    let mut res: Vec<(String, String)> = Vec::new();
    let mut b: usize = 0;
    while b < 4
        invariant
            b <= 4,
            ms == config::macro_views(document.macros@),
            pair_views(res@) == macro_label_entries(ms, player, macro_buttons().take(b as int)),
        decreases 4 - b,
    {
        let action = MACRO_BUTTONS[b];
        assert(macro_buttons().take(b + 1).drop_last() =~= macro_buttons().take(b as int));
        assert(macro_buttons().take(b + 1).last() == action@);
        match document.macro_inputs_for_action(player, action) {
            Some(inputs) => {
                let ghost iv = config::string_views(inputs@);
                let mut names: Vec<String> = Vec::new();
                let mut j: usize = 0;
                while j < inputs.len()
                    invariant
                        j <= inputs.len(),
                        iv == config::string_views(inputs@),
                        config::string_views(names@) == iv.take(j as int).map_values(
                            |x: Seq<char>| readable_input(x),
                        ),
                    decreases inputs.len() - j,
                {
                    let r = readable(&inputs[j]);
                    let ghost before = config::string_views(names@);
                    let ghost rv = r@;
                    names.push(r);
                    assert(config::string_views(names@) =~= before.push(rv));
                    j = j + 1;
                    assert(iv.take(j as int).map_values(|x: Seq<char>| readable_input(x)) =~= before.push(rv));
                }
                assert(iv.take(inputs.len() as int) =~= iv);
                let label = text::join_strings(&names, "+");
                let ghost before = pair_views(res@);
                let entry = (action.to_owned(), label);
                let ghost ev = (entry.0@, entry.1@);
                res.push(entry);
                assert(pair_views(res@) =~= before.push(ev));
            },
            None => {},
        }
        b = b + 1;
    }
    assert(macro_buttons().take(4) =~= macro_buttons());
    res
}

/// How a control of the test screen looks.
#[derive(Clone, Copy, PartialEq, Eq, Debug)]
pub enum ControlLook {
    /// Its action is active.
    Pressed,
    /// One of its keys conflicts, and that conflict is the hovered one.
    ConflictHot,
    /// One of its keys conflicts.
    Conflict,
    /// None of the above.
    Idle,
}

/// The conflicting key of the first of `bs` whose line has one.
pub open spec fn first_conflict(
    bs: Seq<config::BindingSpec>,
    m: Map<usize, Seq<char>>,
) -> Option<Seq<char>>
    decreases bs.len(),
{
    if bs.len() == 0 {
        None
    } else if m.contains_key(bs[0].line_index as usize) {
        Some(m[bs[0].line_index as usize])
    } else {
        first_conflict(bs.drop_first(), m)
    }
}

/// The look of a control for `action` bound by `bs`: pressed where its
/// action is active, else hot where its conflict is hovered, else marked
/// where it has a conflict, else idle.
pub open spec fn control_look_spec(
    action: Seq<char>,
    bs: Seq<config::BindingSpec>,
    active: Seq<Seq<char>>,
    m: Map<usize, Seq<char>>,
    hover: Option<Seq<char>>,
) -> ControlLook {
    let conflict = first_conflict(bs, m);
    if active.contains(action) {
        ControlLook::Pressed
    } else if conflict is Some && hover == conflict {
        ControlLook::ConflictHot
    } else if conflict is Some {
        ControlLook::Conflict
    } else {
        ControlLook::Idle
    }
}

/// The view of an optional borrowed string.
pub open spec fn opt_view(s: Option<&str>) -> Option<Seq<char>> {
    match s {
        Some(t) => Some(t@),
        None => None,
    }
}

/// How the control for `action`, bound by `bindings`, looks, and the
/// conflicting key of its first binding that has one.
pub fn control_look(
    action: &str,
    bindings: &[&Binding],
    active_actions: &[String],
    conflict_map: &HashMap<usize, String>,
    active_hover: Option<&str>,
) -> (res: (ControlLook, Option<String>))
    ensures
        res.0 == control_look_spec(
            action@,
            ref_views(bindings@),
            config::string_views(active_actions@),
            map_views(conflict_map@),
            opt_view(active_hover),
        ),
        match first_conflict(ref_views(bindings@), map_views(conflict_map@)) {
            Some(k) => res.1 matches Some(r) && r@ == k,
            None => res.1 is None,
        },
{
    // Whether the action is active.
    let a = text::chars_of(action);
    let mut pressed = false;
    let mut i: usize = 0;
    while i < active_actions.len()
        invariant
            i <= active_actions.len(),
            a@ == action@,
            pressed == config::string_views(active_actions@).take(i as int).contains(action@),
        decreases active_actions.len() - i,
    {
        let c = text::chars_of(active_actions[i].as_str());
        let ghost sv = config::string_views(active_actions@);
        assert(sv.take(i + 1) =~= sv.take(i as int).push(active_actions@[i as int]@));
        if text::chars_eq(&c, &a) {
            pressed = true;
            assert(sv.take(i + 1)[i as int] == action@);
        } else {
            assert forall|x: Seq<char>| sv.take(i + 1).contains(x) == (sv.take(i as int).contains(x)
                || x == active_actions@[i as int]@) by {
                if sv.take(i + 1).contains(x) {
                    let q = choose|q: int| 0 <= q < i + 1 && #[trigger] sv.take(i + 1)[q] == x;
                    if q < i {
                        assert(sv.take(i as int)[q] == x);
                    }
                }
                if sv.take(i as int).contains(x) {
                    let q = choose|q: int| 0 <= q < i && #[trigger] sv.take(i as int)[q] == x;
                    assert(sv.take(i + 1)[q] == x);
                }
                if x == active_actions@[i as int]@ {
                    assert(sv.take(i + 1)[i as int] == x);
                }
            }
        }
        i = i + 1;
    }
    assert(config::string_views(active_actions@).take(active_actions.len() as int) =~= config::string_views(active_actions@));
    let conflict = first_conflict_of(bindings, conflict_map);
    let hot = match (&conflict, active_hover) {
        (Some(key), Some(hover)) => {
            let k = text::chars_of(key.as_str());
            let h = text::chars_of(hover);
            text::chars_eq(&k, &h)
        },
        _ => false,
    };
    let look = if pressed {
        ControlLook::Pressed
    } else if hot {
        ControlLook::ConflictHot
    } else if conflict.is_some() {
        ControlLook::Conflict
    } else {
        ControlLook::Idle
    };
    (look, conflict)
}

/// The conflicting key of the first binding whose line has one.
fn first_conflict_of(bindings: &[&Binding], conflict_map: &HashMap<usize, String>) -> (res: Option<String>)
    ensures
        match first_conflict(ref_views(bindings@), map_views(conflict_map@)) {
            Some(k) => res matches Some(r) && r@ == k,
            None => res is None,
        },
{
    broadcast use vstd::std_specs::hash::group_hash_axioms;

    let ghost bs = ref_views(bindings@);
    let ghost m = map_views(conflict_map@);
    let mut j: usize = 0;
    assert(bs.skip(0) =~= bs);
    while j < bindings.len()
        invariant
            j <= bindings.len(),
            bs == ref_views(bindings@),
            m == map_views(conflict_map@),
            first_conflict(bs, m) == first_conflict(bs.skip(j as int), m),
        decreases bindings.len() - j,
    {
        assert(bs.skip(j as int)[0] == bindings@[j as int]@);
        assert(bs.skip(j as int).drop_first() =~= bs.skip(j + 1));
        match conflict_map.get(&bindings[j].line_index) {
            Some(key) => {
                assert(m.contains_key(bindings@[j as int].line_index));
                return Some(key.clone());
            },
            None => {},
        }
        j = j + 1;
    }
    None
}

/// The look of the key chip of a binding on line `line`: hot where the line
/// has a conflict and it is the hovered one, marked where it has one, else
/// idle.
pub open spec fn binding_look_spec(
    line: usize,
    m: Map<usize, Seq<char>>,
    hover: Option<Seq<char>>,
) -> ControlLook {
    if m.contains_key(line) {
        if hover == Some(m[line]) {
            ControlLook::ConflictHot
        } else {
            ControlLook::Conflict
        }
    } else {
        ControlLook::Idle
    }
}

/// How the key chip of the binding on `line_index` looks.
pub fn binding_look(
    line_index: usize,
    conflict_map: &HashMap<usize, String>,
    active_hover: Option<&str>,
) -> (res: ControlLook)
    ensures
        res == binding_look_spec(line_index, map_views(conflict_map@), opt_view(active_hover)),
{
    broadcast use vstd::std_specs::hash::group_hash_axioms;

    match conflict_map.get(&line_index) {
        Some(key) => {
            let hot = match active_hover {
                Some(hover) => {
                    let k = text::chars_of(key.as_str());
                    let h = text::chars_of(hover);
                    text::chars_eq(&k, &h)
                },
                None => false,
            };
            if hot {
                ControlLook::ConflictHot
            } else {
                ControlLook::Conflict
            }
        },
        None => ControlLook::Idle,
    }
}

/// Whether an action row of the editor is highlighted: some binding of it
/// is on a line whose conflict is the hovered one.
pub fn row_is_highlighted(
    bindings: &[&Binding],
    conflict_map: &HashMap<usize, String>,
    active_hover: Option<&str>,
) -> (res: bool)
    ensures
        res == exists|k: int|
            0 <= k < bindings.len() && binding_look_spec(
                (#[trigger] bindings@[k]).line_index,
                map_views(conflict_map@),
                opt_view(active_hover),
            ) == ControlLook::ConflictHot,
{
    let mut i: usize = 0;
    while i < bindings.len()
        invariant
            i <= bindings.len(),
            forall|k: int|
                0 <= k < i ==> binding_look_spec(
                    (#[trigger] bindings@[k]).line_index,
                    map_views(conflict_map@),
                    opt_view(active_hover),
                ) != ControlLook::ConflictHot,
        decreases bindings.len() - i,
    {
        let look = binding_look(bindings[i].line_index, conflict_map, active_hover);
        if let ControlLook::ConflictHot = look {
            assert(binding_look_spec(
                bindings@[i as int].line_index,
                map_views(conflict_map@),
                opt_view(active_hover),
            ) == ControlLook::ConflictHot);
            return true;
        }
        i = i + 1;
    }
    false
}

/// The title of a capture for `player`'s `action`: `Player <n> · <label>`.
pub open spec fn capture_label_spec(player: u8, action: Seq<char>) -> Seq<char> {
    "Player "@ + text::dec(player as nat) + " \u{b7} "@ + action_label_spec(action).0
}

/// The title of a capture for `player`'s `action`.
pub fn capture_label(player: u8, action: &str) -> (res: String)
    ensures
        res@ == capture_label_spec(player, action@),
{
    let mut res = "Player ".to_owned();
    text::push_dec(&mut res, player as u64);
    res.append(" \u{b7} ");
    res.append(action_label(action).0);
    res
}

/// The title of the capture window: the label a replacement was given, or
/// the player and action a new binding is for.
pub fn capture_title(target: &CaptureTarget) -> (res: String)
    ensures
        res@ == match *target {
            CaptureTarget::Replace { label, .. } => label@,
            CaptureTarget::Add { player, action } => capture_label_spec(player, action@),
        },
{
    match target {
        CaptureTarget::Replace { label, .. } => label.clone(),
        CaptureTarget::Add { player, action } => capture_label(*player, action.as_str()),
    }
}

impl BindStudio {
    /// Whether the capture can be applied: see `capture_applicable`.
    pub fn capture_is_applicable(&self) -> (res: bool)
        ensures
            res == capture_applicable(*self),
    {
        match (&self.capture, &self.document) {
            (Some(CaptureTarget::Add { player, .. }), Some(document)) => {
                document.player_section(*player).is_none() || *player <= 249
            },
            _ => true,
        }
    }
}

/// The labels of the held keys that some binding of either player uses,
/// each once, in the order of `String`.
pub fn pressed_labels(down: &[String], player_one: &[Binding], player_two: &[Binding]) -> (res: Vec<String>)
    ensures
        strictly_sorted(config::string_views(res@)),
        forall|x: Seq<char>| #[trigger] config::string_views(res@).contains(x) <==> exists|d: int|
            0 <= d < down.len() && is_configured(
                config::binding_views(player_one@) + config::binding_views(player_two@),
                down@[d]@,
            ) && x == keys::key_label_spec(#[trigger] down@[d]@),
{
    let ghost all = config::binding_views(player_one@) + config::binding_views(player_two@);
    let mut res: Vec<String> = Vec::new();
    let mut i: usize = 0;
    while i < down.len()
        invariant
            i <= down.len(),
            all == config::binding_views(player_one@) + config::binding_views(player_two@),
            strictly_sorted(config::string_views(res@)),
            forall|x: Seq<char>| #[trigger] config::string_views(res@).contains(x) <==> exists|d: int|
                0 <= d < i && is_configured(all, down@[d]@) && x == keys::key_label_spec(
                    #[trigger] down@[d]@,
                ),
        decreases down.len() - i,
    {
        let key = &down[i];
        let configured = uses_key(player_one, key) || uses_key(player_two, key);
        assert(configured == is_configured(all, key@)) by {
            lemma_configured_concat(config::binding_views(player_one@), config::binding_views(player_two@), key@);
        }
        let ghost before = config::string_views(res@);
        if configured {
            let label = keys::key_label(key.as_str());
            insert_sorted(&mut res, label);
        }
        assert forall|x: Seq<char>| #[trigger] config::string_views(res@).contains(x) <==> exists|d: int|
            0 <= d < i + 1 && is_configured(all, down@[d]@) && x == keys::key_label_spec(
                #[trigger] down@[d]@,
            ) by {
            if exists|d: int| 0 <= d < i + 1 && is_configured(all, down@[d]@) && x == keys::key_label_spec(#[trigger] down@[d]@) {
                let d = choose|d: int| 0 <= d < i + 1 && is_configured(all, down@[d]@) && x == keys::key_label_spec(#[trigger] down@[d]@);
                if d < i {
                    assert(before.contains(x));
                }
            }
        }
        i = i + 1;
    }
    res
}

/// Some binding uses the key `key`.
pub open spec fn is_configured(bs: Seq<config::BindingSpec>, key: Seq<char>) -> bool {
    exists|k: int| 0 <= k < bs.len() && (#[trigger] bs[k]).source == key
}

proof fn lemma_configured_concat(a: Seq<config::BindingSpec>, b: Seq<config::BindingSpec>, key: Seq<char>)
    ensures
        is_configured(a + b, key) <==> (is_configured(a, key) || is_configured(b, key)),
{
    if is_configured(a + b, key) {
        let k = choose|k: int| 0 <= k < (a + b).len() && (#[trigger] (a + b)[k]).source == key;
        if k < a.len() {
            assert(a[k] == (a + b)[k]);
        } else {
            assert(b[k - a.len()] == (a + b)[k]);
        }
    }
    if is_configured(a, key) {
        let k = choose|k: int| 0 <= k < a.len() && (#[trigger] a[k]).source == key;
        assert((a + b)[k] == a[k]);
    }
    if is_configured(b, key) {
        let k = choose|k: int| 0 <= k < b.len() && (#[trigger] b[k]).source == key;
        assert((a + b)[k + a.len()] == b[k]);
    }
}

/// Some binding uses the key `key`.
fn uses_key(bindings: &[Binding], key: &String) -> (res: bool)
    ensures
        res == is_configured(config::binding_views(bindings@), key@),
{
    let ghost bs = config::binding_views(bindings@);
    let mut i: usize = 0;
    while i < bindings.len()
        invariant
            i <= bindings.len(),
            bs == config::binding_views(bindings@),
            forall|k: int| 0 <= k < i ==> (#[trigger] bs[k]).source != key@,
        decreases bindings.len() - i,
    {
        assert(bs[i as int] == bindings@[i as int]@);
        if bindings[i].source == *key {
            return true;
        }
        i = i + 1;
    }
    false
}

/// `s` without any number of leading and trailing `"`.
pub open spec fn strip_quotes(s: Seq<char>) -> Seq<char>
    decreases s.len(),
{
    if s.len() > 0 && s[0] == '"' {
        strip_quotes(s.drop_first())
    } else if s.len() > 0 && s.last() == '"' {
        strip_quotes(s.drop_last())
    } else {
        s
    }
}

/// The path typed into the path box, as the file dialog should start from
/// it: trimmed, and without surrounding quotes.
pub fn clean_path_input(path_text: &str) -> (res: String)
    ensures
        res@ == strip_quotes(text::trim(path_text@)),
{
    let chars = text::chars_of(path_text);
    let t = text::trimmed(&chars);
    let mut a: usize = 0;
    let mut b: usize = t.len();
    assert(t@.subrange(0, t@.len() as int) =~= t@);
    while a < b && (t[a] == '"' || t[b - 1] == '"')
        invariant
            a <= b <= t.len(),
            strip_quotes(t@) == strip_quotes(t@.subrange(a as int, b as int)),
        decreases b - a,
    {
        let ghost cur = t@.subrange(a as int, b as int);
        if t[a] == '"' {
            assert(cur.drop_first() =~= t@.subrange(a + 1, b as int));
            a = a + 1;
        } else {
            assert(cur.drop_last() =~= t@.subrange(a as int, b - 1));
            b = b - 1;
        }
    }
    let ghost rest = t@.subrange(a as int, b as int);
    assert(strip_quotes(rest) == rest);
    text::string_from(&t.as_slice()[a..b])
}

} // verus!
