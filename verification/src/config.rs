//! The `button_config.ini` document: its lines, the keyboard and controller
//! bindings and the macros parsed from them, and the edits the editor makes.

use vstd::prelude::*;

use crate::text;

verus! {

// ---------------------------------------------------------------------------
// Data
// ---------------------------------------------------------------------------

/// One `Device <n> <source> -> <action>` line of a player's section.
#[derive(Debug)]
pub struct Binding {
    pub line_index: usize,
    pub player: u8,
    pub device: u8,
    pub source: String,
    pub action: String,
}

/// What a binding holds, as plain values.
pub struct BindingSpec {
    pub line_index: int,
    pub player: u8,
    pub device: u8,
    pub source: Seq<char>,
    pub action: Seq<char>,
}

impl View for Binding {
    type V = BindingSpec;

    open spec fn view(&self) -> BindingSpec {
        BindingSpec {
            line_index: self.line_index as int,
            player: self.player,
            device: self.device,
            source: self.source@,
            action: self.action@,
        }
    }
}

impl Clone for Binding {
    fn clone(&self) -> (res: Self)
        ensures
            res@ == self@,
    {
        Binding {
            line_index: self.line_index,
            player: self.player,
            device: self.device,
            source: self.source.clone(),
            action: self.action.clone(),
        }
    }
}

/// A keyboard source names a key: it starts with `KEY_`.
pub open spec fn is_keyboard_source(source: Seq<char>) -> bool {
    text::has_prefix(source, "KEY_"@)
}

impl Binding {
    /// The binding is bound to a keyboard key.
    pub fn is_keyboard(&self) -> (res: bool)
        ensures
            res == is_keyboard_source(self.source@),
    {
        let source = text::chars_of(self.source.as_str());
        text::starts_with_str(&source, "KEY_")
    }
}

/// The bindings that share one keyboard key.
#[derive(Debug)]
pub struct ConflictGroup {
    pub key: String,
    pub members: Vec<Binding>,
}

/// What a conflict group holds, as plain values.
pub struct ConflictGroupSpec {
    pub key: Seq<char>,
    pub members: Seq<BindingSpec>,
}

/// The views of a sequence of bindings.
pub open spec fn binding_views(bs: Seq<Binding>) -> Seq<BindingSpec> {
    bs.map_values(|b: Binding| b@)
}

impl View for ConflictGroup {
    type V = ConflictGroupSpec;

    open spec fn view(&self) -> ConflictGroupSpec {
        ConflictGroupSpec { key: self.key@, members: binding_views(self.members@) }
    }
}

/// One `Macro <n> -> <input>+<input>...` line of a player's section.
#[derive(Debug)]
pub struct MacroDefinition {
    pub player: u8,
    pub index: u8,
    pub inputs: Vec<String>,
}

/// The views of a sequence of strings.
pub open spec fn string_views(ss: Seq<String>) -> Seq<Seq<char>> {
    ss.map_values(|s: String| s@)
}

/// What a macro definition holds, as plain values.
pub struct MacroSpec {
    pub player: u8,
    pub index: u8,
    pub inputs: Seq<Seq<char>>,
}

impl View for MacroDefinition {
    type V = MacroSpec;

    open spec fn view(&self) -> MacroSpec {
        MacroSpec { player: self.player, index: self.index, inputs: string_views(self.inputs@) }
    }
}

/// The views of a sequence of macro definitions.
pub open spec fn macro_views(ms: Seq<MacroDefinition>) -> Seq<MacroSpec> {
    ms.map_values(|m: MacroDefinition| m@)
}

/// The configuration document. `lines` is the text without line endings;
/// `bindings` and `macros` are what the lines say (see `wf`).
#[derive(Debug)]
pub struct ButtonConfig {
    pub lines: Vec<String>,
    pub newline: String,
    pub trailing_newline: bool,
    pub bindings: Vec<Binding>,
    pub macros: Vec<MacroDefinition>,
    pub path: String,
    pub dirty: bool,
}

// ---------------------------------------------------------------------------
// The format
// ---------------------------------------------------------------------------

/// A `Player <n>` line: `Some(p)` with the player number that it sets, which
/// is `None` where the number does not parse.
pub open spec fn player_marker(line: Seq<char>) -> Option<Option<u8>> {
    let t = text::trim(line);
    if text::has_prefix(t, "Player "@) {
        Some(text::parse_u8_spec(t.skip("Player "@.len() as int)))
    } else {
        None
    }
}

/// The player whose section line `i` stands in.
pub open spec fn player_at(lines: Seq<Seq<char>>, i: int) -> Option<u8>
    decreases i,
{
    if i <= 0 {
        None
    } else {
        match player_marker(lines[i - 1]) {
            Some(p) => p,
            None => player_at(lines, i - 1),
        }
    }
}

/// The whitespace-separated fields of a line.
pub open spec fn fields(line: Seq<char>) -> Seq<Seq<char>> {
    text::words(text::trim(line))
}

/// `Device <device> <source> -> <action>`: device, source and action.
pub open spec fn device_entry(line: Seq<char>) -> Option<(u8, Seq<char>, Seq<char>)> {
    let w = fields(line);
    if w.len() == 5 && w[0] == "Device"@ && w[3] == "->"@ && text::parse_u8_spec(w[1]) is Some {
        Some((text::parse_u8_spec(w[1])->0, w[2], w[4]))
    } else {
        None
    }
}

/// `Macro <index> -> <inputs joined by +>`: index and inputs.
pub open spec fn macro_entry(line: Seq<char>) -> Option<(u8, Seq<Seq<char>>)> {
    let w = fields(line);
    if w.len() == 4 && w[0] == "Macro"@ && w[2] == "->"@ && text::parse_u8_spec(w[1]) is Some {
        Some((text::parse_u8_spec(w[1])->0, text::split_on(w[3], '+')))
    } else {
        None
    }
}

/// The binding that line `i` holds, if any.
pub open spec fn binding_at(lines: Seq<Seq<char>>, i: int) -> Option<BindingSpec> {
    if player_marker(lines[i]) is None && player_at(lines, i) is Some && device_entry(
        lines[i],
    ) is Some {
        let (device, source, action) = device_entry(lines[i])->0;
        Some(
            BindingSpec {
                line_index: i,
                player: player_at(lines, i)->0,
                device,
                source,
                action,
            },
        )
    } else {
        None
    }
}

/// The macro that line `i` holds, if any.
pub open spec fn macro_at(lines: Seq<Seq<char>>, i: int) -> Option<MacroSpec> {
    if player_marker(lines[i]) is None && player_at(lines, i) is Some && device_entry(
        lines[i],
    ) is None && macro_entry(lines[i]) is Some {
        let (index, inputs) = macro_entry(lines[i])->0;
        Some(MacroSpec { player: player_at(lines, i)->0, index, inputs })
    } else {
        None
    }
}

/// The bindings of the first `n` lines, in line order.
pub open spec fn parse_bindings(lines: Seq<Seq<char>>, n: int) -> Seq<BindingSpec>
    decreases n,
{
    if n <= 0 {
        seq![]
    } else {
        let prev = parse_bindings(lines, n - 1);
        match binding_at(lines, n - 1) {
            Some(b) => prev.push(b),
            None => prev,
        }
    }
}

/// The macros of the first `n` lines, in line order.
pub open spec fn parse_macros(lines: Seq<Seq<char>>, n: int) -> Seq<MacroSpec>
    decreases n,
{
    if n <= 0 {
        seq![]
    } else {
        let prev = parse_macros(lines, n - 1);
        match macro_at(lines, n - 1) {
            Some(m) => prev.push(m),
            None => prev,
        }
    }
}

/// All bindings of a document.
pub open spec fn all_bindings(lines: Seq<Seq<char>>) -> Seq<BindingSpec> {
    parse_bindings(lines, lines.len() as int)
}

/// All macros of a document.
pub open spec fn all_macros(lines: Seq<Seq<char>>) -> Seq<MacroSpec> {
    parse_macros(lines, lines.len() as int)
}

/// The line ending that a text uses: `\r\n` where it holds one, else `\n`.
pub open spec fn newline_of(text: Seq<char>) -> Seq<char> {
    if text::has_crlf(text) {
        seq!['\r', '\n']
    } else {
        seq!['\n']
    }
}

/// The text ends with a line feed.
pub open spec fn ends_with_lf(text: Seq<char>) -> bool {
    text.len() > 0 && text.last() == '\n'
}

/// The text of a document: its lines joined by the line ending, plus one
/// more line ending where the file had a trailing one.
pub open spec fn render(lines: Seq<Seq<char>>, newline: Seq<char>, trailing: bool) -> Seq<char> {
    text::join(lines, newline) + if trailing {
        newline
    } else {
        seq![]
    }
}

impl ButtonConfig {
    /// The lines of the document, as character sequences.
    pub open spec fn text_lines(&self) -> Seq<Seq<char>> {
        string_views(self.lines@)
    }

    /// `bindings` and `macros` are exactly what the lines say.
    pub open spec fn wf(&self) -> bool {
        &&& binding_views(self.bindings@) == all_bindings(self.text_lines())
        &&& macro_views(self.macros@) == all_macros(self.text_lines())
    }

    /// Parses the lines again into `bindings` and `macros`.
    pub fn reparse(&mut self)
        ensures
            final(self).wf(),
            final(self).lines == old(self).lines,
            final(self).newline == old(self).newline,
            final(self).trailing_newline == old(self).trailing_newline,
            final(self).path == old(self).path,
            final(self).dirty == old(self).dirty,
    {
        self.bindings.clear();
        self.macros.clear();
        let ghost lines = self.text_lines();
        let mut current: Option<u8> = None;
        let mut i: usize = 0;
        while i < self.lines.len()
            invariant
                lines == self.text_lines(),
                i <= self.lines.len(),
                current == player_at(lines, i as int),
                binding_views(self.bindings@) == parse_bindings(lines, i as int),
                macro_views(self.macros@) == parse_macros(lines, i as int),
                self.lines == old(self).lines,
                self.newline == old(self).newline,
                self.trailing_newline == old(self).trailing_newline,
                self.path == old(self).path,
                self.dirty == old(self).dirty,
            decreases self.lines.len() - i,
        {
            let line = text::chars_of(self.lines[i].as_str());
            assert(line@ == lines[i as int]);
            let t = text::trimmed(&line);
            if text::starts_with_str(&t, "Player ") {
                let plen = "Player ".unicode_len();
                current = text::parse_u8(&t.as_slice()[plen..t.len()]);
                assert(t@.subrange(plen as int, t@.len() as int) =~= t@.skip(plen as int));
            } else if let Some(player) = current {
                let w = text::split_words(&t);
                proof {
                    if w.len() > 0 {
                        text::lemma_chars_deep_view(w@[0]);
                        assert(w.deep_view()[0] == w@[0].deep_view());
                    }
                    if w.len() > 1 {
                        text::lemma_chars_deep_view(w@[1]);
                        assert(w.deep_view()[1] == w@[1].deep_view());
                    }
                    if w.len() > 2 {
                        text::lemma_chars_deep_view(w@[2]);
                        assert(w.deep_view()[2] == w@[2].deep_view());
                    }
                    if w.len() > 3 {
                        text::lemma_chars_deep_view(w@[3]);
                        assert(w.deep_view()[3] == w@[3].deep_view());
                    }
                    if w.len() > 4 {
                        text::lemma_chars_deep_view(w@[4]);
                        assert(w.deep_view()[4] == w@[4].deep_view());
                    }
                }
                let mut is_device = false;
                if w.len() == 5 && text::chars_eq_str(&w[0], "Device") && text::chars_eq_str(&w[3], "->") {
                    if let Some(device) = text::parse_u8(&w[1]) {
                        is_device = true;
                        let b = Binding {
                            line_index: i,
                            player,
                            device,
                            source: text::string_from(&w[2]),
                            action: text::string_from(&w[4]),
                        };
                        let ghost before = binding_views(self.bindings@);
                        let ghost bv = b@;
                        self.bindings.push(b);
                        assert(binding_views(self.bindings@) =~= before.push(bv));
                    }
                }
                if !is_device && w.len() == 4 && text::chars_eq_str(&w[0], "Macro") && text::chars_eq_str(
                    &w[2],
                    "->",
                ) {
                    if let Some(index) = text::parse_u8(&w[1]) {
                        let pieces = text::split_at_char(&w[3], '+');
                        let inputs = strings_from(&pieces);
                        let m = MacroDefinition { player, index, inputs };
                        let ghost before = macro_views(self.macros@);
                        let ghost mv = m@;
                        self.macros.push(m);
                        assert(macro_views(self.macros@) =~= before.push(mv));
                    }
                }
            }
            i = i + 1;
        }
    }

    /// The document that a configuration text holds (`ButtonConfig::load`
    /// after the file was read): the lines of the text once `\r\n` became
    /// `\n`, the line ending it used, and whether it ended with one.
    pub fn from_text(text: &str, path: String) -> (res: ButtonConfig)
        ensures
            res.wf(),
            res.text_lines() == text::lines_spec(text::crlf_to_lf(text@)),
            res.newline@ == newline_of(text@),
            res.trailing_newline == ends_with_lf(text@),
            res.path == path,
            !res.dirty,
    {
        let (lines, newline, trailing_newline) = split_text(text);
        let mut document = ButtonConfig {
            lines,
            newline,
            trailing_newline,
            bindings: Vec::new(),
            macros: Vec::new(),
            path,
            dirty: false,
        };
        document.reparse();
        document
    }

    /// Replaces the document by the text of a backup (`restore_from` after
    /// the backup was read); the document is then unsaved.
    pub fn restore_text(&mut self, text: &str)
        ensures
            final(self).wf(),
            final(self).text_lines() == text::lines_spec(text::crlf_to_lf(text@)),
            final(self).newline@ == newline_of(text@),
            final(self).trailing_newline == ends_with_lf(text@),
            final(self).path == old(self).path,
            final(self).dirty,
    {
        let (lines, newline, trailing_newline) = split_text(text);
        self.newline = newline;
        self.trailing_newline = trailing_newline;
        self.lines = lines;
        self.dirty = true;
        self.reparse();
    }

    /// Marks the document as saved; nothing else changes.
    pub fn mark_saved(&mut self)
        ensures
            *final(self) == (ButtonConfig { dirty: false, ..*old(self) }),
    {
        self.dirty = false;
    }

    /// The text that saving writes: the lines joined by the line ending, and
    /// a last line ending where the file had one.
    pub fn to_text(&self) -> (res: String)
        ensures
            res@ == render(self.text_lines(), self.newline@, self.trailing_newline),
    {
        let mut output = text::join_strings(&self.lines, self.newline.as_str());
        if self.trailing_newline {
            output.append(self.newline.as_str());
        }
        output
    }

    /// The folder that backups go to: `button_config_backups` beside the
    /// configuration file, in `.` where the path has no parent.
    /// - For a path of plain components joined by single `/`, relative or
    ///   under the root `/`, that is the path without its last component, a
    ///   separator where the parent does not end in one (which one is the
    ///   platform's), and `button_config_backups`; a relative path of one
    ///   component gives `button_config_backups` alone, and `/name` gives
    ///   `/button_config_backups`.
    /// - For any other path with no `\` and no drive colon, the folder is
    ///   `button_config_backups` adjoined to `.` or to a leading part of the
    ///   path; which part, for `.` or `..` components and repeated
    ///   separators, is not said.
    /// - Of paths with `\` or a drive colon, whose reading differs between
    ///   platforms, nothing is said.
    pub fn backup_dir(&self) -> (res: String)
        ensures
            is_plain_path(self.path@) ==> is_join_of(
                res@,
                plain_parent(self.path@),
                backup_folder_name(),
            ),
            is_rooted_plain_path(self.path@) ==> is_join_of(
                res@,
                rooted_parent(self.path@),
                backup_folder_name(),
            ),
            self.path@.len() == 0 ==> is_join_of(res@, seq!['.'], backup_folder_name()),
            no_backslash_or_colon(self.path@) ==> exists|base: Seq<char>|
                (base == seq!['.'] || text::has_prefix(self.path@, base)) && #[trigger] is_join_of(
                    res@,
                    base,
                    backup_folder_name(),
                ),
    {
        let parent = path_parent(self.path.as_str());
        let base = match parent {
            Some(p) => p,
            None => ".".to_owned(),
        };
        let name = "button_config_backups";
        proof {
            reveal_strlit("button_config_backups");
            reveal_strlit(".");
            assert(is_plain_component(name@));
            assert(name@ =~= backup_folder_name());
            if parent is None {
                assert(base@ =~= seq!['.']);
            }
            if no_backslash_or_colon(self.path@) && parent is Some {
                assert forall|i: int| 0 <= i < base@.len() implies #[trigger] base@[i] != '\\'
                    && base@[i] != ':' by {
                    assert(base@[i] == self.path@[i]);
                }
            }
            if is_plain_path(self.path@) {
                lemma_plain_parent_prefix(self.path@);
                assert(no_backslash_or_colon(self.path@));
            }
            if is_rooted_plain_path(self.path@) {
                let q = self.path@.drop_first();
                lemma_plain_parent_prefix(q);
                assert forall|i: int| 0 <= i < self.path@.len() implies #[trigger] self.path@[i]
                    != '\\' && self.path@[i] != ':' by {
                    if i > 0 {
                        assert(self.path@[i] == q[i - 1]);
                    }
                }
            }
        }
        let res = path_join(base.as_str(), name);
        proof {
            if no_backslash_or_colon(self.path@) {
                if parent is None {
                    assert(is_join_of(res@, base@, backup_folder_name()));
                } else {
                    assert(text::has_prefix(self.path@, base@));
                    assert(is_join_of(res@, base@, backup_folder_name()));
                }
            }
        }
        res
    }

    /// The stem and extension that backups of the file are named by: those
    /// of the file's name (`Path::file_stem`, `Path::extension`), or
    /// `button_config` and `ini` where there are none. For a path of plain
    /// components, relative or under `/`, the name is what follows the last
    /// `/`; of other paths no more is said.
    pub fn backup_naming(&self) -> (res: (String, String))
        ensures
            is_plain_path(self.path@) || is_rooted_plain_path(self.path@) ==> {
                let name = after_last_slash(self.path@);
                &&& res.0@ == stem_of(name)
                &&& res.1@ == match extension_of(name) {
                    Some(e) => e,
                    None => "ini"@,
                }
            },
            self.path@.len() == 0 ==> res.0@ == "button_config"@ && res.1@ == "ini"@,
    {
        let stem = path_file_stem(self.path.as_str());
        let extension = path_extension(self.path.as_str());
        let stem_ref = match &stem {
            Some(s) => Some(s.as_str()),
            None => None,
        };
        let extension_ref = match &extension {
            Some(e) => Some(e.as_str()),
            None => None,
        };
        backup_stem_and_extension(stem_ref, extension_ref)
    }

    /// The keyboard bindings of `player`, in line order.
    pub fn keyboard_bindings(&self, player: u8) -> (res: Vec<Binding>)
        ensures
            binding_views(res@) == keyboard_of(binding_views(self.bindings@), player),
    {
        let ghost all = binding_views(self.bindings@);
        let mut res: Vec<Binding> = Vec::new();
        let mut i: usize = 0;
        while i < self.bindings.len()
            invariant
                i <= self.bindings.len(),
                all == binding_views(self.bindings@),
                binding_views(res@) == keyboard_of(all.take(i as int), player),
            decreases self.bindings.len() - i,
        {
            let b = &self.bindings[i];
            assert(all.take(i + 1).drop_last() =~= all.take(i as int));
            assert(all.take(i + 1).last() == b@);
            if b.player == player && b.is_keyboard() {
                let c = b.clone();
                let ghost before = binding_views(res@);
                res.push(c);
                assert(binding_views(res@) =~= before.push(b@));
            }
            i = i + 1;
        }
        assert(all.take(self.bindings.len() as int) =~= all);
        res
    }

    /// Gives the binding on line `line_index` a new source key; false, and
    /// nothing changed, where no binding stands on that line.
    pub fn set_source(&mut self, line_index: usize, source: &str) -> (res: bool)
        requires
            old(self).wf(),
        ensures
            set_source_effect(*old(self), *final(self), line_index as int, source@, res),
    {
        let found = find_on_line(&self.bindings, line_index);
        match found {
            None => false,
            Some(k) => {
                proof {
                    lemma_all_bindings_in_range(self.text_lines(), self.text_lines().len() as int);
                    assert(binding_views(self.bindings@)[k as int] == self.bindings@[k as int]@);
                    assert(all_bindings(self.text_lines())[k as int].line_index == line_index);
                }
                let device = self.bindings[k].device;
                let action = self.bindings[k].action.clone();
                let line = binding_text(device, source, action.as_str());
                let ghost before = self.text_lines();
                let ghost lv = line@;
                self.lines.set(line_index, line);
                assert(lv == device_line(device, source@, action@));
                assert(self.text_lines() =~= before.update(
                    line_index as int,
                    device_line(device, source@, action@),
                ));
                self.dirty = true;
                self.reparse();
                true
            },
        }
    }

    /// Removes the binding line `line_index`; false, and nothing changed,
    /// where no binding stands on that line.
    pub fn remove_binding(&mut self, line_index: usize) -> (res: bool)
        requires
            old(self).wf(),
        ensures
            remove_binding_effect(*old(self), *final(self), line_index as int, res),
    {
        if line_index >= self.lines.len() {
            proof {
                lemma_all_bindings_in_range(self.text_lines(), self.text_lines().len() as int);
                lemma_binding_on_line_found(binding_views(self.bindings@), line_index as int);
            }
            return false;
        }
        let found = find_on_line(&self.bindings, line_index);
        if found.is_none() {
            return false;
        }
        let ghost before = self.text_lines();
        self.lines.remove(line_index);
        assert(self.text_lines() =~= before.remove(line_index as int));
        self.dirty = true;
        self.reparse();
        true
    }
}

impl ButtonConfig {
    /// The first line at or after `from` that reads `marker` once trimmed.
    fn find_trimmed_line(&self, marker: &Vec<char>, from: usize) -> (res: Option<usize>)
        ensures
            match find_trimmed(self.text_lines(), marker@, from as int) {
                Some(i) => res == Some(i as usize) && 0 <= i < self.lines.len(),
                None => res is None,
            },
    {
        let ghost lines = self.text_lines();
        proof {
            lemma_find_trimmed_range(lines, marker@, from as int);
        }
        let n = self.lines.len();
        let mut i: usize = from;
        while i < n
            invariant
                lines == self.text_lines(),
                n == lines.len(),
                from <= i,
                find_trimmed(lines, marker@, from as int) == find_trimmed(lines, marker@, i as int),
            decreases n - i,
        {
            let line = text::chars_of(self.lines[i].as_str());
            let t = text::trimmed(&line);
            if text::chars_eq(&t, marker) {
                return Some(i);
            }
            i = i + 1;
        }
        None
    }

    /// The first line at or after `from` that starts a section once trimmed,
    /// or the number of lines.
    fn next_section_line(&self, from: usize) -> (res: usize)
        requires
            from <= self.lines.len(),
        ensures
            res == next_section(self.text_lines(), from as int),
            from <= res <= self.lines.len(),
    {
        let ghost lines = self.text_lines();
        let n = self.lines.len();
        let mut i: usize = from;
        while i < n
            invariant
                lines == self.text_lines(),
                n == lines.len(),
                from <= i <= n,
                next_section(lines, from as int) == next_section(lines, i as int),
            decreases n - i,
        {
            let line = text::chars_of(self.lines[i].as_str());
            let t = text::trimmed(&line);
            if text::starts_with_str(&t, "Player ") {
                return i;
            }
            i = i + 1;
        }
        n
    }

    /// The lines of `player`'s section, as `(first, end)`.
    pub fn player_section(&self, player: u8) -> (res: Option<(usize, usize)>)
        ensures
            match section_of(self.text_lines(), player) {
                Some((s, e)) => res == Some((s as usize, e as usize)) && 1 <= s <= e
                    <= self.lines.len(),
                None => res is None,
            },
    {
        let mut marker_text = "Player ".to_owned();
        text::push_dec(&mut marker_text, player as u64);
        let marker = text::chars_of(marker_text.as_str());
        assert(marker@ == player_line(player));
        match self.find_trimmed_line(&marker, 0) {
            None => None,
            Some(start) => {
                assert(find_trimmed(self.text_lines(), marker@, 0) is Some);
                assert(start < self.lines.len());
                let end = self.next_section_line(start + 1);
                Some((start + 1, end))
            },
        }
    }

    /// The last line in `start..end` that starts with `Device `.
    fn last_device_line_in(&self, start: usize, end: usize) -> (res: Option<usize>)
        requires
            start <= end <= self.lines.len(),
        ensures
            match last_device_line(self.text_lines(), start as int, end as int) {
                Some(i) => res == Some(i as usize) && start <= i < end,
                None => res is None,
            },
    {
        let ghost lines = self.text_lines();
        let mut idx: usize = end;
        while idx > start
            invariant
                lines == self.text_lines(),
                start <= idx <= end <= lines.len(),
                last_device_line(lines, start as int, end as int) == last_device_line(
                    lines,
                    start as int,
                    idx as int,
                ),
            decreases idx,
        {
            let line = text::chars_of(self.lines[idx - 1].as_str());
            if text::starts_with_str(&line, "Device ") {
                return Some(idx - 1);
            }
            idx = idx - 1;
        }
        None
    }

    /// Adds a keyboard binding of `action` to `source` in `player`'s section;
    /// false, and nothing changed, where the document has no such section.
    pub fn add_keyboard_binding(&mut self, player: u8, action: &str, source: &str) -> (res: bool)
        requires
            old(self).wf(),
            section_of(old(self).text_lines(), player) is Some ==> player <= 249,
        ensures
            add_binding_effect(*old(self), *final(self), player, action@, source@, res),
    {
        let section = self.player_section(player);
        let (section_start, section_end) = match section {
            Some(se) => se,
            None => {
                return false;
            },
        };
        let ghost lines = self.text_lines();
        let ghost bs = binding_views(self.bindings@);
        proof {
            lemma_all_bindings_in_range(lines, lines.len() as int);
        }
        let device = match first_keyboard_device_of(&self.bindings, player) {
            Some(d) => d,
            None => 6 + player,
        };
        assert(device == new_binding_device(bs, player));
        let n = self.bindings.len();
        // One past the player's last keyboard binding.
        let mut max_end: Option<usize> = None;
        let mut j: usize = 0;
        while j < n
            invariant
                n == self.bindings.len(),
                bs == binding_views(self.bindings@),
                lines == self.text_lines(),
                bs == all_bindings(lines),
                forall|q: int| 0 <= q < bs.len() ==> 0 <= #[trigger] bs[q].line_index < lines.len(),
                j <= n,
                match max_end {
                    Some(m) => keyboard_end(bs.take(j as int), player) == Some(m as int) && m
                        <= lines.len(),
                    None => keyboard_end(bs.take(j as int), player) is None,
                },
            decreases n - j,
        {
            let b = &self.bindings[j];
            assert(bs.take(j + 1).drop_last() =~= bs.take(j as int));
            assert(bs.take(j + 1).last() == b@);
            assert(bs[j as int] == b@);
            assert(bs[j as int].line_index < lines.len());
            assert(lines.len() == self.lines.len());
            if b.player == player && b.is_keyboard() {
                let v = b.line_index + 1;
                max_end = match max_end {
                    Some(m) => Some(
                        if m > v {
                            m
                        } else {
                            v
                        },
                    ),
                    None => Some(v),
                };
            }
            j = j + 1;
        }
        assert(bs.take(n as int) =~= bs);
        let insert_at = match max_end {
            Some(m) => m,
            None => match self.last_device_line_in(section_start, section_end) {
                Some(i) => i + 1,
                None => section_end,
            },
        };
        assert(insert_at == insert_position(
            lines,
            bs,
            player,
            section_start as int,
            section_end as int,
        ));
        let line = binding_text(device, source, action);
        let ghost lv = line@;
        self.lines.insert(insert_at, line);
        assert(self.text_lines() =~= lines.insert(insert_at as int, lv));
        self.dirty = true;
        self.reparse();
        true
    }
}

/// The device of the first keyboard binding of `player`.
fn first_keyboard_device_of(bindings: &Vec<Binding>, player: u8) -> (res: Option<u8>)
    ensures
        res == first_keyboard_device(binding_views(bindings@), player),
{
    let ghost bs = binding_views(bindings@);
    let mut k: usize = 0;
    assert(bs.skip(0) =~= bs);
    while k < bindings.len()
        invariant
            bs == binding_views(bindings@),
            k <= bindings.len(),
            first_keyboard_device(bs, player) == first_keyboard_device(bs.skip(k as int), player),
        decreases bindings.len() - k,
    {
        assert(bs.skip(k as int)[0] == bindings@[k as int]@);
        assert(bs.skip(k as int).drop_first() =~= bs.skip(k + 1));
        if bindings[k].player == player && bindings[k].is_keyboard() {
            return Some(bindings[k].device);
        }
        k = k + 1;
    }
    None
}

// ---------------------------------------------------------------------------
// Macros and live input
// ---------------------------------------------------------------------------

/// The macro slot that an action triggers: `Atk6`, `Atk8`, `Atk9` and
/// `Atk10` trigger macros 0 to 3.
pub open spec fn macro_index_spec(action: Seq<char>) -> Option<u8> {
    if action == "Atk6"@ {
        Some(0)
    } else if action == "Atk8"@ {
        Some(1)
    } else if action == "Atk9"@ {
        Some(2)
    } else if action == "Atk10"@ {
        Some(3)
    } else {
        None
    }
}

/// The action that a macro input stands for: directions by their short or
/// long names, attacks as they are; neutral and anything else stand for none.
pub open spec fn normalize_spec(input: Seq<char>) -> Option<Seq<char>> {
    if input == "N"@ || input == "Neutral"@ {
        None
    } else if input == "U"@ || input == "Up"@ {
        Some("Up"@)
    } else if input == "D"@ || input == "Down"@ {
        Some("Down"@)
    } else if input == "L"@ || input == "Left"@ {
        Some("Left"@)
    } else if input == "R"@ || input == "Right"@ {
        Some("Right"@)
    } else if text::has_prefix(input, "Atk"@) {
        Some(input)
    } else {
        None
    }
}

/// The actions that the inputs of a macro stand for, in order.
pub open spec fn normalized(inputs: Seq<Seq<char>>) -> Seq<Seq<char>>
    decreases inputs.len(),
{
    if inputs.len() == 0 {
        seq![]
    } else {
        let prev = normalized(inputs.drop_last());
        match normalize_spec(inputs.last()) {
            Some(a) => prev.push(a),
            None => prev,
        }
    }
}

/// The first macro of `player` in slot `index`.
pub open spec fn find_macro(ms: Seq<MacroSpec>, player: u8, index: u8) -> Option<MacroSpec>
    decreases ms.len(),
{
    if ms.len() == 0 {
        None
    } else if ms[0].player == player && ms[0].index == index {
        Some(ms[0])
    } else {
        find_macro(ms.drop_first(), player, index)
    }
}

/// The actions that pressing `action` of `player` runs through a macro.
pub open spec fn macro_actions(ms: Seq<MacroSpec>, player: u8, action: Seq<char>) -> Seq<Seq<char>> {
    match macro_index_spec(action) {
        Some(i) => match find_macro(ms, player, i) {
            Some(m) => normalized(m.inputs),
            None => seq![],
        },
        None => seq![],
    }
}

/// A keyboard binding of `player` whose key is held down.
pub open spec fn is_pressed(b: BindingSpec, player: u8, down: Seq<Seq<char>>) -> bool {
    b.player == player && is_keyboard_source(b.source) && down.contains(b.source)
}

/// `x` is an action of `player` that the held keys trigger: the action of a
/// pressed binding, or one that a pressed macro button runs.
pub open spec fn is_active(
    bs: Seq<BindingSpec>,
    ms: Seq<MacroSpec>,
    player: u8,
    down: Seq<Seq<char>>,
    x: Seq<char>,
) -> bool {
    exists|k: int|
        0 <= k < bs.len() && is_pressed(#[trigger] bs[k], player, down) && (x == bs[k].action
            || macro_actions(ms, player, bs[k].action).contains(x))
}

/// The macro slot that `action` triggers.
pub fn macro_index_for_action(action: &str) -> (res: Option<u8>)
    ensures
        res == macro_index_spec(action@),
{
    let a = text::chars_of(action);
    if text::chars_eq_str(&a, "Atk6") {
        Some(0)
    } else if text::chars_eq_str(&a, "Atk8") {
        Some(1)
    } else if text::chars_eq_str(&a, "Atk9") {
        Some(2)
    } else if text::chars_eq_str(&a, "Atk10") {
        Some(3)
    } else {
        None
    }
}

/// The action that one macro input stands for.
pub fn normalize_macro_input(input: &str) -> (res: Option<String>)
    ensures
        match normalize_spec(input@) {
            Some(a) => res matches Some(r) && r@ == a,
            None => res is None,
        },
{
    let c = text::chars_of(input);
    if text::chars_eq_str(&c, "N") || text::chars_eq_str(&c, "Neutral") {
        None
    } else if text::chars_eq_str(&c, "U") || text::chars_eq_str(&c, "Up") {
        Some("Up".to_owned())
    } else if text::chars_eq_str(&c, "D") || text::chars_eq_str(&c, "Down") {
        Some("Down".to_owned())
    } else if text::chars_eq_str(&c, "L") || text::chars_eq_str(&c, "Left") {
        Some("Left".to_owned())
    } else if text::chars_eq_str(&c, "R") || text::chars_eq_str(&c, "Right") {
        Some("Right".to_owned())
    } else if text::starts_with_str(&c, "Atk") {
        Some(input.to_owned())
    } else {
        None
    }
}

/// `s` occurs in `v`.
pub fn contains_string(v: &Vec<String>, s: &String) -> (res: bool)
    ensures
        res == string_views(v@).contains(s@),
{
    let mut i: usize = 0;
    while i < v.len()
        invariant
            i <= v.len(),
            forall|j: int| 0 <= j < i ==> v@[j]@ != s@,
        decreases v.len() - i,
    {
        if v[i] == *s {
            assert(string_views(v@)[i as int] == s@);
            return true;
        }
        i = i + 1;
    }
    assert forall|j: int| 0 <= j < string_views(v@).len() implies string_views(v@)[j] != s@ by {
        assert(string_views(v@)[j] == v@[j]@);
    }
    false
}

/// Adds `s` to the set `v` (a vector without repeats).
pub fn insert_unique(v: &mut Vec<String>, s: String)
    requires
        string_views(old(v)@).no_duplicates(),
    ensures
        string_views(final(v)@).no_duplicates(),
        forall|x: Seq<char>| #[trigger] string_views(final(v)@).contains(x) <==> (string_views(
            old(v)@,
        ).contains(x) || x == s@),
{
    if !contains_string(v, &s) {
        let ghost before = string_views(v@);
        let ghost sv = s@;
        v.push(s);
        assert(string_views(v@) =~= before.push(sv));
        assert forall|x: Seq<char>| #[trigger] string_views(v@).contains(x) <==> (before.contains(x) || x == sv) by {
            if string_views(v@).contains(x) {
                let j = choose|j: int| 0 <= j < string_views(v@).len() && #[trigger] string_views(v@)[j] == x;
                if j < before.len() {
                    assert(before[j] == x);
                }
            }
            if before.contains(x) {
                let j = choose|j: int| 0 <= j < before.len() && #[trigger] before[j] == x;
                assert(string_views(v@)[j] == x);
            }
            if x == sv {
                assert(string_views(v@)[before.len() as int] == x);
            }
        }
    }
}

impl ButtonConfig {
    /// The actions that the inputs of `player`'s macro for `action` stand for;
    /// `None` where `action` is no macro button or the player has no such
    /// macro.
    pub fn macro_inputs_for_action(&self, player: u8, action: &str) -> (res: Option<Vec<String>>)
        ensures
            match macro_index_spec(action@) {
                Some(i) => match find_macro(macro_views(self.macros@), player, i) {
                    Some(m) => res matches Some(r) && string_views(r@) == normalized(m.inputs),
                    None => res is None,
                },
                None => res is None,
            },
    {
        let index = match macro_index_for_action(action) {
            Some(i) => i,
            None => {
                return None;
            },
        };
        let ghost ms = macro_views(self.macros@);
        let mut k: usize = 0;
        assert(ms.skip(0) =~= ms);
        while k < self.macros.len()
            invariant
                ms == macro_views(self.macros@),
                k <= self.macros.len(),
                macro_index_spec(action@) == Some(index),
                find_macro(ms, player, index) == find_macro(ms.skip(k as int), player, index),
            decreases self.macros.len() - k,
        {
            assert(ms.skip(k as int)[0] == self.macros@[k as int]@);
            assert(ms.skip(k as int).drop_first() =~= ms.skip(k + 1));
            if self.macros[k].player == player && self.macros[k].index == index {
                let r = normalize_all(&self.macros[k].inputs);
                assert(find_macro(ms, player, index) == Some(self.macros@[k as int]@));
                assert(self.macros@[k as int]@.inputs == string_views(self.macros@[k as int].inputs@));
                assert(macro_index_spec(action@) == Some(index));
                assert(string_views(r@) == normalized(find_macro(ms, player, index)->0.inputs));
                return Some(r);
            }
            k = k + 1;
        }
        None
    }

    /// The actions of `player` that the held keys `down` trigger, each once:
    /// the actions of the player's pressed keyboard bindings and what their
    /// macros run.
    pub fn active_actions(&self, player: u8, down: &Vec<String>) -> (res: Vec<String>)
        ensures
            string_views(res@).no_duplicates(),
            forall|x: Seq<char>| #[trigger]
                string_views(res@).contains(x) <==> is_active(
                    binding_views(self.bindings@),
                    macro_views(self.macros@),
                    player,
                    string_views(down@),
                    x,
                ),
    {
        let ghost bs = binding_views(self.bindings@);
        let ghost ms = macro_views(self.macros@);
        let ghost dv = string_views(down@);
        let mut active: Vec<String> = Vec::new();
        let mut i: usize = 0;
        while i < self.bindings.len()
            invariant
                bs == binding_views(self.bindings@),
                ms == macro_views(self.macros@),
                dv == string_views(down@),
                i <= self.bindings.len(),
                string_views(active@).no_duplicates(),
                forall|x: Seq<char>| #[trigger]
                    string_views(active@).contains(x) <==> is_active(
                        bs.take(i as int),
                        ms,
                        player,
                        dv,
                        x,
                    ),
            decreases self.bindings.len() - i,
        {
            let b = &self.bindings[i];
            assert(bs[i as int] == b@);
            let ghost before = string_views(active@);
            if b.player == player && b.is_keyboard() && contains_string(down, &b.source) {
                insert_unique(&mut active, b.action.clone());
                let ghost mid = string_views(active@);
                let ghost extra: Seq<Seq<char>> = macro_actions(ms, player, b.action@);
                match self.macro_inputs_for_action(player, b.action.as_str()) {
                    Some(inputs) => {
                        let mut j: usize = 0;
                        while j < inputs.len()
                            invariant
                                j <= inputs.len(),
                                string_views(inputs@) == extra,
                                string_views(active@).no_duplicates(),
                                forall|x: Seq<char>| #[trigger]
                                    string_views(active@).contains(x) <==> (mid.contains(x)
                                        || extra.take(j as int).contains(x)),
                            decreases inputs.len() - j,
                        {
                            let ghost pre = string_views(active@);
                            insert_unique(&mut active, inputs[j].clone());
                            assert(extra[j as int] == inputs@[j as int]@);
                            assert forall|x: Seq<char>| #[trigger]
                                string_views(active@).contains(x) <==> (mid.contains(x)
                                    || extra.take(j + 1).contains(x)) by {
                                if extra.take(j + 1).contains(x) {
                                    let q = choose|q: int| 0 <= q < j + 1 && #[trigger] extra.take(j + 1)[q] == x;
                                    if q < j {
                                        assert(extra.take(j as int)[q] == x);
                                    }
                                }
                                if extra.take(j as int).contains(x) {
                                    let q = choose|q: int| 0 <= q < j && #[trigger] extra.take(j as int)[q] == x;
                                    assert(extra.take(j + 1)[q] == x);
                                }
                                if x == extra[j as int] {
                                    assert(extra.take(j + 1)[j as int] == x);
                                }
                            }
                            j = j + 1;
                        }
                        assert(extra.take(inputs.len() as int) =~= extra);
                    },
                    None => {
                        assert(extra =~= Seq::<Seq<char>>::empty());
                    },
                }
                assert forall|x: Seq<char>| #[trigger]
                    string_views(active@).contains(x) <==> is_active(
                        bs.take(i + 1),
                        ms,
                        player,
                        dv,
                        x,
                    ) by {
                    lemma_active_step(bs, ms, player, dv, x, i as int);
                }
            } else {
                assert forall|x: Seq<char>| #[trigger]
                    string_views(active@).contains(x) <==> is_active(
                        bs.take(i + 1),
                        ms,
                        player,
                        dv,
                        x,
                    ) by {
                    lemma_active_step(bs, ms, player, dv, x, i as int);
                }
            }
            i = i + 1;
        }
        assert(bs.take(self.bindings.len() as int) =~= bs);
        active
    }
}

/// Extending the processed bindings by one adds what that binding triggers.
proof fn lemma_active_step(
    bs: Seq<BindingSpec>,
    ms: Seq<MacroSpec>,
    player: u8,
    down: Seq<Seq<char>>,
    x: Seq<char>,
    i: int,
)
    requires
        0 <= i < bs.len(),
    ensures
        is_active(bs.take(i + 1), ms, player, down, x) <==> (is_active(
            bs.take(i),
            ms,
            player,
            down,
            x,
        ) || (is_pressed(bs[i], player, down) && (x == bs[i].action || macro_actions(
            ms,
            player,
            bs[i].action,
        ).contains(x)))),
{
    let t = bs.take(i + 1);
    let u = bs.take(i);
    if is_active(t, ms, player, down, x) {
        let k = choose|k: int|
            0 <= k < t.len() && is_pressed(#[trigger] t[k], player, down) && (x == t[k].action
                || macro_actions(ms, player, t[k].action).contains(x));
        if k < i {
            assert(u[k] == t[k]);
        }
    }
    if is_active(u, ms, player, down, x) {
        let k = choose|k: int|
            0 <= k < u.len() && is_pressed(#[trigger] u[k], player, down) && (x == u[k].action
                || macro_actions(ms, player, u[k].action).contains(x));
        assert(t[k] == u[k]);
    }
    if is_pressed(bs[i], player, down) && (x == bs[i].action || macro_actions(
        ms,
        player,
        bs[i].action,
    ).contains(x)) {
        assert(t[i] == bs[i]);
    }
}

/// The actions that macro inputs stand for, in order.
fn normalize_all(inputs: &Vec<String>) -> (res: Vec<String>)
    ensures
        string_views(res@) == normalized(string_views(inputs@)),
{
    let ghost iv = string_views(inputs@);
    let mut res: Vec<String> = Vec::new();
    let mut i: usize = 0;
    while i < inputs.len()
        invariant
            i <= inputs.len(),
            iv == string_views(inputs@),
            string_views(res@) == normalized(iv.take(i as int)),
        decreases inputs.len() - i,
    {
        assert(iv.take(i + 1).drop_last() =~= iv.take(i as int));
        assert(iv.take(i + 1).last() == inputs@[i as int]@);
        match normalize_macro_input(inputs[i].as_str()) {
            Some(a) => {
                let ghost before = string_views(res@);
                let ghost av = a@;
                res.push(a);
                assert(string_views(res@) =~= before.push(av));
            },
            None => {},
        }
        i = i + 1;
    }
    assert(iv.take(inputs.len() as int) =~= iv);
    res
}

// ---------------------------------------------------------------------------
// Conflicts
// ---------------------------------------------------------------------------

/// The bindings that can conflict: keyboard bindings whose key is not
/// `KEY_NONE`, in order.
pub open spec fn conflict_candidates(bs: Seq<BindingSpec>) -> Seq<BindingSpec>
    decreases bs.len(),
{
    if bs.len() == 0 {
        seq![]
    } else {
        let prev = conflict_candidates(bs.drop_last());
        let b = bs.last();
        if is_keyboard_source(b.source) && b.source != "KEY_NONE"@ {
            prev.push(b)
        } else {
            prev
        }
    }
}

/// The bindings bound to `key`, in order.
pub open spec fn with_source(bs: Seq<BindingSpec>, key: Seq<char>) -> Seq<BindingSpec>
    decreases bs.len(),
{
    if bs.len() == 0 {
        seq![]
    } else {
        let prev = with_source(bs.drop_last(), key);
        if bs.last().source == key {
            prev.push(bs.last())
        } else {
            prev
        }
    }
}

/// The views of a sequence of conflict groups.
pub open spec fn group_views(gs: Seq<ConflictGroup>) -> Seq<ConflictGroupSpec> {
    gs.map_values(|g: ConflictGroup| g@)
}

/// Keys in strictly increasing order.
pub open spec fn keys_sorted(gs: Seq<ConflictGroupSpec>) -> bool {
    forall|a: int, b: int| 0 <= a < b < gs.len() ==> text::lex_lt(#[trigger] gs[a].key, #[trigger] gs[b].key)
}

/// Each group holds exactly the candidates bound to its key, and at least one.
pub open spec fn groups_match(gs: Seq<ConflictGroupSpec>, cand: Seq<BindingSpec>) -> bool {
    forall|g: int| 0 <= g < gs.len() ==> (#[trigger] gs[g]).members == with_source(cand, gs[g].key)
        && gs[g].members.len() > 0
}

/// `gs` are the conflict groups of `bs`: in key order, each holding exactly
/// the candidates bound to its key, more than one, and every key that more
/// than one candidate uses has a group.
pub open spec fn conflict_groups_of(bs: Seq<BindingSpec>, gs: Seq<ConflictGroupSpec>) -> bool {
    let cand = conflict_candidates(bs);
    &&& keys_sorted(gs)
    &&& forall|g: int| 0 <= g < gs.len() ==> (#[trigger] gs[g]).members == with_source(cand, gs[g].key)
        && gs[g].members.len() > 1
    &&& forall|k: int| 0 <= k < cand.len() && with_source(cand, (#[trigger] cand[k]).source).len() > 1
        ==> has_group(gs, cand[k].source)
}

/// A group with `key` exists.
pub open spec fn has_group(gs: Seq<ConflictGroupSpec>, key: Seq<char>) -> bool {
    exists|g: int| 0 <= g < gs.len() && (#[trigger] gs[g]).key == key
}

proof fn lemma_with_source_member(bs: Seq<BindingSpec>, key: Seq<char>)
    requires
        with_source(bs, key).len() > 0,
    ensures
        exists|k: int| 0 <= k < bs.len() && (#[trigger] bs[k]).source == key,
    decreases bs.len(),
{
    if bs.last().source != key {
        lemma_with_source_member(bs.drop_last(), key);
        let k = choose|k: int| 0 <= k < bs.drop_last().len() && (#[trigger] bs.drop_last()[k]).source == key;
        assert(bs[k] == bs.drop_last()[k]);
    } else {
        assert(bs[bs.len() - 1].source == key);
    }
}

/// The index of the group with `key`.
fn find_group(groups: &Vec<ConflictGroup>, key: &String) -> (res: Option<usize>)
    ensures
        match res {
            Some(g) => g < groups.len() && groups@[g as int]@.key == key@,
            None => !has_group(group_views(groups@), key@),
        },
{
    let mut g: usize = 0;
    while g < groups.len()
        invariant
            g <= groups.len(),
            forall|q: int| 0 <= q < g ==> groups@[q]@.key != key@,
        decreases groups.len() - g,
    {
        if groups[g].key == *key {
            return Some(g);
        }
        g = g + 1;
    }
    assert forall|q: int| 0 <= q < group_views(groups@).len() implies (#[trigger] group_views(groups@)[q]).key != key@ by {
        assert(group_views(groups@)[q] == groups@[q]@);
    }
    None
}

/// The first group whose key comes after `key`.
fn sorted_position(groups: &Vec<ConflictGroup>, key: &String) -> (res: usize)
    requires
        keys_sorted(group_views(groups@)),
        !has_group(group_views(groups@), key@),
    ensures
        res <= groups.len(),
        forall|q: int| 0 <= q < res ==> text::lex_lt(#[trigger] group_views(groups@)[q].key, key@),
        forall|q: int| res <= q < groups.len() ==> text::lex_lt(key@, #[trigger] group_views(groups@)[q].key),
{
    let ghost gv = group_views(groups@);
    let mut p: usize = 0;
    while p < groups.len() && !text::str_lt(key.as_str(), groups[p].key.as_str())
        invariant
            gv == group_views(groups@),
            !has_group(gv, key@),
            p <= groups.len(),
            forall|q: int| 0 <= q < p ==> text::lex_lt(#[trigger] gv[q].key, key@),
        decreases groups.len() - p,
    {
        assert(gv[p as int] == groups@[p as int]@);
        proof {
            text::lemma_lex_total(key@, gv[p as int].key);
        }
        p = p + 1;
    }
    assert forall|q: int| p <= q < groups.len() implies text::lex_lt(key@, #[trigger] gv[q].key) by {
        assert(gv[p as int] == groups@[p as int]@);
        if q > p {
            text::lemma_lex_transitive(key@, gv[p as int].key, gv[q].key);
        }
    }
    p
}

impl ButtonConfig {
    /// The keys that more than one keyboard binding uses (`KEY_NONE` aside),
    /// each with those bindings in line order; in key order.
    #[verifier::spinoff_prover]
    pub fn conflict_groups(&self) -> (res: Vec<ConflictGroup>)
        ensures
            conflict_groups_of(binding_views(self.bindings@), group_views(res@)),
    {
        let ghost bs = binding_views(self.bindings@);
        let mut groups: Vec<ConflictGroup> = Vec::new();
        let mut i: usize = 0;
        while i < self.bindings.len()
            invariant
                bs == binding_views(self.bindings@),
                i <= self.bindings.len(),
                keys_sorted(group_views(groups@)),
                groups_match(group_views(groups@), conflict_candidates(bs.take(i as int))),
                forall|k: int| 0 <= k < conflict_candidates(bs.take(i as int)).len() ==> has_group(
                    group_views(groups@),
                    (#[trigger] conflict_candidates(bs.take(i as int))[k]).source,
                ),
            decreases self.bindings.len() - i,
        {
            let b = &self.bindings[i];
            let ghost old_cand = conflict_candidates(bs.take(i as int));
            let ghost old_gv = group_views(groups@);
            assert(bs.take(i + 1).drop_last() =~= bs.take(i as int));
            assert(bs.take(i + 1).last() == b@);
            let source = text::chars_of(b.source.as_str());
            if b.is_keyboard() && !text::chars_eq_str(&source, "KEY_NONE") {
                let ghost new_cand = old_cand.push(b@);
                assert(conflict_candidates(bs.take(i + 1)) == new_cand);
                match find_group(&groups, &b.source) {
                    Some(g) => {
                        let mut group = groups.remove(g);
                        let ghost gm = binding_views(group.members@);
                        group.members.push(b.clone());
                        assert(binding_views(group.members@) =~= gm.push(b@));
                        groups.insert(g, group);
                        let ghost gv = group_views(groups@);
                        assert(gv =~= old_gv.update(g as int, gv[g as int]));
                        assert forall|q: int| 0 <= q < gv.len() implies (#[trigger] gv[q]).members
                            == with_source(new_cand, gv[q].key) && gv[q].members.len() > 0 by {
                            assert(new_cand.drop_last() =~= old_cand);
                            assert(new_cand.last() == b@);
                            assert(with_source(new_cand, gv[q].key) == if b@.source == gv[q].key {
                                with_source(old_cand, gv[q].key).push(b@)
                            } else {
                                with_source(old_cand, gv[q].key)
                            });
                            if q == g {
                                assert(gv[q].members =~= old_gv[q].members.push(b@));
                            }
                            if q != g {
                                assert(gv[q] == old_gv[q]);
                                if old_gv[q].key == b@.source {
                                    text::lemma_lex_total(old_gv[q].key, old_gv[g as int].key);
                                    if q < g {
                                        assert(text::lex_lt(old_gv[q].key, old_gv[g as int].key));
                                    } else {
                                        assert(text::lex_lt(old_gv[g as int].key, old_gv[q].key));
                                    }
                                    text::lemma_lex_irreflexive(old_gv[q].key);
                                }
                            }
                        }
                        assert forall|k: int| 0 <= k < new_cand.len() implies has_group(
                            gv,
                            (#[trigger] new_cand[k]).source,
                        ) by {
                            if k < old_cand.len() {
                                assert(new_cand[k] == old_cand[k]);
                                let q = choose|q: int| 0 <= q < old_gv.len() && (#[trigger] old_gv[q]).key == old_cand[k].source;
                                assert(gv[q].key == old_gv[q].key);
                            } else {
                                assert(gv[g as int].key == b@.source);
                            }
                        }
                        assert(gv[g as int].key == old_gv[g as int].key);
                        assert forall|x: int, y: int| 0 <= x < y < gv.len() implies text::lex_lt(
                            #[trigger] gv[x].key,
                            #[trigger] gv[y].key,
                        ) by {
                            assert(gv[x].key == old_gv[x].key);
                            assert(gv[y].key == old_gv[y].key);
                        }
                    },
                    None => {
                        let p = sorted_position(&groups, &b.source);
                        let mut members: Vec<Binding> = Vec::new();
                        members.push(b.clone());
                        let group = ConflictGroup { key: b.source.clone(), members };
                        let ghost nv = group@;
                        assert(nv.members =~= seq![b@]);
                        groups.insert(p, group);
                        let ghost gv = group_views(groups@);
                        assert(gv =~= old_gv.insert(p as int, nv));
                        assert(new_cand.drop_last() =~= old_cand);
                        assert(with_source(old_cand, b@.source).len() == 0) by {
                            if with_source(old_cand, b@.source).len() > 0 {
                                lemma_with_source_member(old_cand, b@.source);
                                let k = choose|k: int| 0 <= k < old_cand.len() && (#[trigger] old_cand[k]).source == b@.source;
                                assert(has_group(old_gv, old_cand[k].source));
                            }
                        }
                        assert(with_source(new_cand, b@.source) =~= seq![b@]);
                        assert forall|q: int| 0 <= q < gv.len() implies (#[trigger] gv[q]).members
                            == with_source(new_cand, gv[q].key) && gv[q].members.len() > 0 by {
                            if q < p {
                                assert(gv[q] == old_gv[q]);
                                text::lemma_lex_irreflexive(b@.source);
                            } else if q > p {
                                assert(gv[q] == old_gv[q - 1]);
                                text::lemma_lex_irreflexive(b@.source);
                            }
                        }
                        assert forall|x: int, y: int| 0 <= x < y < gv.len() implies text::lex_lt(
                            #[trigger] gv[x].key,
                            #[trigger] gv[y].key,
                        ) by {
                            if y < p {
                                assert(gv[x] == old_gv[x] && gv[y] == old_gv[y]);
                            } else if y == p {
                                assert(gv[x] == old_gv[x]);
                            } else if x < p {
                                assert(gv[x] == old_gv[x] && gv[y] == old_gv[y - 1]);
                                text::lemma_lex_transitive(gv[x].key, b@.source, gv[y].key);
                            } else if x == p {
                                assert(gv[y] == old_gv[y - 1]);
                            } else {
                                assert(gv[x] == old_gv[x - 1] && gv[y] == old_gv[y - 1]);
                            }
                        }
                        assert forall|k: int| 0 <= k < new_cand.len() implies has_group(
                            gv,
                            (#[trigger] new_cand[k]).source,
                        ) by {
                            if k < old_cand.len() {
                                assert(new_cand[k] == old_cand[k]);
                                let q = choose|q: int| 0 <= q < old_gv.len() && (#[trigger] old_gv[q]).key == old_cand[k].source;
                                if q < p {
                                    assert(gv[q] == old_gv[q]);
                                } else {
                                    assert(gv[q + 1] == old_gv[q]);
                                }
                            } else {
                                assert(gv[p as int].key == b@.source);
                            }
                        }
                    },
                }
            } else {
                assert(conflict_candidates(bs.take(i + 1)) == old_cand);
            }
            i = i + 1;
        }
        assert(bs.take(self.bindings.len() as int) =~= bs);
        let ghost all = group_views(groups@);
        let ghost cand = conflict_candidates(bs);
        // Keep the keys that more than one binding uses.
        let mut res: Vec<ConflictGroup> = Vec::new();
        let mut j: usize = 0;
        let total = groups.len();
        while groups.len() > 0
            invariant
                total == all.len(),
                j + groups.len() == total,
                group_views(groups@) == all.skip(j as int),
                keys_sorted(all),
                groups_match(all, cand),
                forall|k: int| 0 <= k < cand.len() ==> has_group(all, (#[trigger] cand[k]).source),
                forall|r: int| #![trigger group_views(res@)[r]] 0 <= r < res.len() ==> exists|g: int| 0 <= g < j && #[trigger] all[g] == group_views(res@)[r],
                forall|r: int| 0 <= r < res.len() ==> (#[trigger] group_views(res@)[r]).members.len() > 1,
                keys_sorted(group_views(res@)),
                forall|g: int| 0 <= g < j && (#[trigger] all[g]).members.len() > 1 ==> has_group(group_views(res@), all[g].key),
            decreases groups.len(),
        {
            assert(group_views(groups@)[0] == groups@[0]@);
            let ghost before_remove = group_views(groups@);
            let group = groups.remove(0);
            assert(group_views(groups@) =~= before_remove.drop_first());
            let ghost gv = group@;
            assert(gv == all[j as int]);
            assert(group_views(groups@) =~= all.skip(j + 1));
            if group.members.len() > 1 {
                let ghost rv = group_views(res@);
                res.push(group);
                let ghost nr = group_views(res@);
                assert(nr =~= rv.push(gv));
                assert forall|x: int, y: int| 0 <= x < y < nr.len() implies text::lex_lt(
                    #[trigger] nr[x].key,
                    #[trigger] nr[y].key,
                ) by {
                    if y < rv.len() {
                        assert(nr[x] == rv[x] && nr[y] == rv[y]);
                    } else {
                        assert(nr[x] == rv[x]);
                        let g = choose|g: int| 0 <= g < j && #[trigger] all[g] == rv[x];
                        assert(text::lex_lt(all[g].key, all[j as int].key));
                    }
                }
                assert forall|r: int| #![trigger nr[r]] 0 <= r < nr.len() implies exists|g: int| 0 <= g < j + 1 && #[trigger] all[g] == nr[r] by {
                    if r < rv.len() {
                        assert(nr[r] == rv[r]);
                        let g = choose|g: int| 0 <= g < j && #[trigger] all[g] == rv[r];
                        assert(all[g] == nr[r]);
                    } else {
                        assert(all[j as int] == nr[r]);
                    }
                }
                assert forall|g: int| 0 <= g < j + 1 && (#[trigger] all[g]).members.len() > 1 implies has_group(nr, all[g].key) by {
                    if g < j {
                        let q = choose|q: int| 0 <= q < rv.len() && (#[trigger] rv[q]).key == all[g].key;
                        assert(nr[q] == rv[q]);
                    } else {
                        assert(nr[rv.len() as int] == gv);
                    }
                }
            }
            j = j + 1;
        }
        proof {
            let gs = group_views(res@);
            assert forall|g: int| 0 <= g < gs.len() implies (#[trigger] gs[g]).members == with_source(cand, gs[g].key)
                && gs[g].members.len() > 1 by {
                let q = choose|q: int| 0 <= q < j && #[trigger] all[q] == gs[g];
            }
            assert forall|k: int| 0 <= k < cand.len() && with_source(cand, (#[trigger] cand[k]).source).len() > 1
                implies has_group(gs, cand[k].source) by {
                let q = choose|q: int| 0 <= q < all.len() && (#[trigger] all[q]).key == cand[k].source;
            }
        }
        res
    }
}

/// The index of the first binding on line `line_index`.
fn find_on_line(bindings: &Vec<Binding>, line_index: usize) -> (res: Option<usize>)
    ensures
        match res {
            Some(k) => k < bindings.len() && bindings@[k as int].line_index == line_index
                && binding_on_line(binding_views(bindings@), line_index as int) == Some(
                bindings@[k as int]@,
            ),
            None => binding_on_line(binding_views(bindings@), line_index as int) is None,
        },
{
    let ghost all = binding_views(bindings@);
    let mut i: usize = 0;
    assert(all.skip(0) =~= all);
    while i < bindings.len()
        invariant
            i <= bindings.len(),
            all == binding_views(bindings@),
            binding_on_line(all.skip(i as int), line_index as int) == binding_on_line(
                all,
                line_index as int,
            ),
        decreases bindings.len() - i,
    {
        assert(all.skip(i as int)[0] == bindings@[i as int]@);
        assert(all.skip(i as int).drop_first() =~= all.skip(i + 1));
        if bindings[i].line_index == line_index {
            return Some(i);
        }
        i = i + 1;
    }
    None
}

/// `format!("Device {device} {source} -> {action}")`.
fn binding_text(device: u8, source: &str, action: &str) -> (res: String)
    ensures
        res@ == device_line(device, source@, action@),
{
    let mut res = "Device ".to_owned();
    text::push_dec(&mut res, device as u64);
    res.append(" ");
    res.append(source);
    res.append(" -> ");
    res.append(action);
    res
}

/// The lines, the line ending and the trailing-line-ending flag of a text.
fn split_text(text: &str) -> (res: (Vec<String>, String, bool))
    ensures
        string_views(res.0@) == text::lines_spec(text::crlf_to_lf(text@)),
        res.1@ == newline_of(text@),
        res.2 == ends_with_lf(text@),
{
    let chars = text::chars_of(text);
    let newline = if text::contains_crlf(&chars) {
        proof {
            reveal_strlit("\r\n");
        }
        "\r\n".to_owned()
    } else {
        proof {
            reveal_strlit("\n");
        }
        "\n".to_owned()
    };
    let trailing_newline = chars.len() > 0 && chars[chars.len() - 1] == '\n';
    let normalized = text::replace_crlf(&chars);
    let lines = text::lines_of(&normalized);
    (lines, newline, trailing_newline)
}

/// Every binding of the first `n` lines stands on one of them.
pub proof fn lemma_all_bindings_in_range(lines: Seq<Seq<char>>, n: int)
    ensures
        forall|k: int|
            0 <= k < parse_bindings(lines, n).len() ==> 0 <= #[trigger] parse_bindings(
                lines,
                n,
            )[k].line_index < n,
    decreases n,
{
    if n > 0 {
        lemma_all_bindings_in_range(lines, n - 1);
        let prev = parse_bindings(lines, n - 1);
        let cur = parse_bindings(lines, n);
        assert forall|k: int| 0 <= k < cur.len() implies 0 <= #[trigger] cur[k].line_index < n by {
            if k < prev.len() {
                assert(cur[k] == prev[k]);
            }
        }
    }
}

/// Where no binding stands on `line`, none is found there.
pub proof fn lemma_binding_on_line_found(bs: Seq<BindingSpec>, line: int)
    requires
        forall|k: int| 0 <= k < bs.len() ==> #[trigger] bs[k].line_index != line,
    ensures
        binding_on_line(bs, line) is None,
    decreases bs.len(),
{
    if bs.len() > 0 {
        assert forall|k: int| 0 <= k < bs.drop_first().len() implies #[trigger] bs.drop_first()[k].line_index != line by {
            assert(bs.drop_first()[k] == bs[k + 1]);
        }
        lemma_binding_on_line_found(bs.drop_first(), line);
    }
}

// ---------------------------------------------------------------------------
// Spec helpers over bindings
// ---------------------------------------------------------------------------

/// The keyboard bindings of `player`, in order.
pub open spec fn keyboard_of(bs: Seq<BindingSpec>, player: u8) -> Seq<BindingSpec>
    decreases bs.len(),
{
    if bs.len() == 0 {
        seq![]
    } else {
        let prev = keyboard_of(bs.drop_last(), player);
        let b = bs.last();
        if b.player == player && is_keyboard_source(b.source) {
            prev.push(b)
        } else {
            prev
        }
    }
}

/// The first binding that stands on line `line`.
pub open spec fn binding_on_line(bs: Seq<BindingSpec>, line: int) -> Option<BindingSpec>
    decreases bs.len(),
{
    if bs.len() == 0 {
        None
    } else if bs[0].line_index == line {
        Some(bs[0])
    } else {
        binding_on_line(bs.drop_first(), line)
    }
}

/// The header line of a player's section: `Player <n>`.
pub open spec fn player_line(player: u8) -> Seq<char> {
    "Player "@ + text::dec(player as nat)
}

/// The first line at or after `i` that reads `m` once trimmed.
pub open spec fn find_trimmed(lines: Seq<Seq<char>>, m: Seq<char>, i: int) -> Option<int>
    decreases lines.len() - i,
{
    if i < 0 || i >= lines.len() {
        None
    } else if text::trim(lines[i]) == m {
        Some(i)
    } else {
        find_trimmed(lines, m, i + 1)
    }
}

/// A line found at or after `i` is one of the lines from `i` on.
pub proof fn lemma_find_trimmed_range(lines: Seq<Seq<char>>, m: Seq<char>, i: int)
    ensures
        find_trimmed(lines, m, i) matches Some(j) ==> 0 <= i <= j < lines.len() && text::trim(
            lines[j],
        ) == m,
    decreases lines.len() - i,
{
    if 0 <= i < lines.len() && text::trim(lines[i]) != m {
        lemma_find_trimmed_range(lines, m, i + 1);
    }
}

/// The first line at or after `i` that starts a player section once
/// trimmed, or the number of lines where none does.
pub open spec fn next_section(lines: Seq<Seq<char>>, i: int) -> int
    decreases lines.len() - i,
{
    if i < 0 || i >= lines.len() {
        lines.len() as int
    } else if text::has_prefix(text::trim(lines[i]), "Player "@) {
        i
    } else {
        next_section(lines, i + 1)
    }
}

/// The lines of `player`'s section: from the line after its first
/// `Player <n>` header up to the next header or the end.
pub open spec fn section_of(lines: Seq<Seq<char>>, player: u8) -> Option<(int, int)> {
    match find_trimmed(lines, player_line(player), 0) {
        Some(start) => Some((start + 1, next_section(lines, start + 1))),
        None => None,
    }
}

/// The device of the first keyboard binding of `player`.
pub open spec fn first_keyboard_device(bs: Seq<BindingSpec>, player: u8) -> Option<u8>
    decreases bs.len(),
{
    if bs.len() == 0 {
        None
    } else if bs[0].player == player && is_keyboard_source(bs[0].source) {
        Some(bs[0].device)
    } else {
        first_keyboard_device(bs.drop_first(), player)
    }
}

/// One past the highest line of a keyboard binding of `player`.
pub open spec fn keyboard_end(bs: Seq<BindingSpec>, player: u8) -> Option<int>
    decreases bs.len(),
{
    if bs.len() == 0 {
        None
    } else {
        let prev = keyboard_end(bs.drop_last(), player);
        let b = bs.last();
        if b.player == player && is_keyboard_source(b.source) {
            let v = b.line_index + 1;
            match prev {
                Some(m) => Some(
                    if m > v {
                        m
                    } else {
                        v
                    },
                ),
                None => Some(v),
            }
        } else {
            prev
        }
    }
}

/// The last line in `start..end` that starts with `Device `.
pub open spec fn last_device_line(lines: Seq<Seq<char>>, start: int, end: int) -> Option<int>
    decreases end - start,
{
    if end <= start {
        None
    } else if text::has_prefix(lines[end - 1], "Device "@) {
        Some(end - 1)
    } else {
        last_device_line(lines, start, end - 1)
    }
}

/// Where a new keyboard binding of `player` goes: after the player's last
/// keyboard binding; else after the last device line of the section; else at
/// the end of the section.
pub open spec fn insert_position(
    lines: Seq<Seq<char>>,
    bs: Seq<BindingSpec>,
    player: u8,
    start: int,
    end: int,
) -> int {
    match keyboard_end(bs, player) {
        Some(m) => m,
        None => match last_device_line(lines, start, end) {
            Some(i) => i + 1,
            None => end,
        },
    }
}

/// The device a new keyboard binding of `player` uses: that of the player's
/// first keyboard binding, else `6 + player`.
pub open spec fn new_binding_device(bs: Seq<BindingSpec>, player: u8) -> u8 {
    match first_keyboard_device(bs, player) {
        Some(d) => d,
        None => (6 + player) as u8,
    }
}

/// Only the lines, the parsed bindings and macros and the unsaved flag
/// changed; the document is well formed and unsaved.
pub open spec fn edited(before: ButtonConfig, after: ButtonConfig) -> bool {
    &&& after.wf()
    &&& after.dirty
    &&& after.newline == before.newline
    &&& after.trailing_newline == before.trailing_newline
    &&& after.path == before.path
}

/// What `set_source` does: the binding line `line_index` gets the new
/// source, keeping its device and action; with no binding there, nothing
/// changes and the answer is false.
pub open spec fn set_source_effect(
    before: ButtonConfig,
    after: ButtonConfig,
    line_index: int,
    source: Seq<char>,
    res: bool,
) -> bool {
    match binding_on_line(binding_views(before.bindings@), line_index) {
        Some(b) => {
            &&& res
            &&& edited(before, after)
            &&& after.text_lines() == before.text_lines().update(
                line_index,
                device_line(b.device, source, b.action),
            )
        },
        None => !res && after == before,
    }
}

/// What `remove_binding` does: the binding line `line_index` goes; with no
/// binding there, nothing changes and the answer is false.
pub open spec fn remove_binding_effect(
    before: ButtonConfig,
    after: ButtonConfig,
    line_index: int,
    res: bool,
) -> bool {
    if binding_on_line(binding_views(before.bindings@), line_index) is Some {
        &&& res
        &&& edited(before, after)
        &&& after.text_lines() == before.text_lines().remove(line_index)
    } else {
        !res && after == before
    }
}

/// What `add_keyboard_binding` does: a binding line goes into the player's
/// section at `insert_position`; with no section, nothing changes and the
/// answer is false.
pub open spec fn add_binding_effect(
    before: ButtonConfig,
    after: ButtonConfig,
    player: u8,
    action: Seq<char>,
    source: Seq<char>,
    res: bool,
) -> bool {
    match section_of(before.text_lines(), player) {
        Some((start, end)) => {
            &&& res
            &&& edited(before, after)
            &&& after.text_lines() == before.text_lines().insert(
                insert_position(
                    before.text_lines(),
                    binding_views(before.bindings@),
                    player,
                    start,
                    end,
                ),
                device_line(new_binding_device(binding_views(before.bindings@), player), source, action),
            )
        },
        None => !res && after == before,
    }
}

/// The text of a binding line.
pub open spec fn device_line(device: u8, source: Seq<char>, action: Seq<char>) -> Seq<char> {
    "Device "@ + text::dec(device as nat) + " "@ + source + " -> "@ + action
}

/// The name of a backup copy: `<stem>.backup-<number, 3 digits>.<extension>`.
pub open spec fn backup_name(stem: Seq<char>, number: nat, extension: Seq<char>) -> Seq<char> {
    stem + ".backup-"@ + text::dec_padded(number, 3) + "."@ + extension
}

/// The name of the backup folder beside the configuration.
pub open spec fn backup_folder_name() -> Seq<char> {
    "button_config_backups"@
}

/// A name that `Path::join` adjoins as one more component: not empty, with no
/// separator or drive colon.
pub open spec fn is_plain_component(name: Seq<char>) -> bool {
    &&& name.len() > 0
    &&& forall|i: int| 0 <= i < name.len() ==> #[trigger] name[i] != '/' && name[i] != '\\' && name[i] != ':'
}

/// A text with no `\` and no drive colon: on no platform does it hold a
/// drive or verbatim prefix, or a separator other than `/`.
pub open spec fn no_backslash_or_colon(s: Seq<char>) -> bool {
    forall|i: int| 0 <= i < s.len() ==> #[trigger] s[i] != '\\' && s[i] != ':'
}

/// A path under the root: `/` and then a plain relative path.
pub open spec fn is_rooted_plain_path(p: Seq<char>) -> bool {
    p.len() > 0 && p[0] == '/' && is_plain_path(p.drop_first())
}

/// The parent of a path under the root: the root itself for `/name`, else
/// `/` and the parent of the rest.
pub open spec fn rooted_parent(p: Seq<char>) -> Seq<char> {
    let pp = plain_parent(p.drop_first());
    if pp.len() == 0 {
        seq!['/']
    } else {
        seq!['/'] + pp
    }
}

/// What follows the last `/` of a path (all of it where there is none).
pub open spec fn after_last_slash(p: Seq<char>) -> Seq<char>
    decreases p.len(),
{
    if p.len() == 0 {
        p
    } else if p.last() == '/' {
        seq![]
    } else {
        after_last_slash(p.drop_last()).push(p.last())
    }
}

/// The place of the last `.` in `name`, or -1 where it has none.
pub open spec fn last_dot(name: Seq<char>) -> int
    decreases name.len(),
{
    if name.len() == 0 {
        -1
    } else if name.last() == '.' {
        name.len() - 1
    } else {
        last_dot(name.drop_last())
    }
}

/// The stem of a file name: what stands before its last `.`, or the whole
/// name where it has no `.` but a leading one.
pub open spec fn stem_of(name: Seq<char>) -> Seq<char> {
    let d = last_dot(name);
    if d <= 0 {
        name
    } else {
        name.take(d)
    }
}

/// The extension of a file name: what follows its last `.`, where it has a
/// `.` other than a leading one.
pub open spec fn extension_of(name: Seq<char>) -> Option<Seq<char>> {
    let d = last_dot(name);
    if d <= 0 {
        None
    } else {
        Some(name.skip(d + 1))
    }
}

/// `s` holds `t` at some position.
pub open spec fn has_infix(s: Seq<char>, t: Seq<char>) -> bool {
    exists|i: int| 0 <= i && i + t.len() <= s.len() && #[trigger] s.subrange(i, i + t.len()) == t
}

/// A relative path of components joined by single `/`, none of them empty,
/// `.` or `..`, and with no `\` or drive colon: one that every platform
/// splits the same way.
pub open spec fn is_plain_path(p: Seq<char>) -> bool {
    let q = seq!['/'] + p + seq!['/'];
    &&& no_backslash_or_colon(p)
    &&& !has_infix(q, seq!['/', '/'])
    &&& !has_infix(q, seq!['/', '.', '/'])
    &&& !has_infix(q, seq!['/', '.', '.', '/'])
}

/// A path without its last `/` and what follows it; empty where it has no
/// `/`.
pub open spec fn plain_parent(p: Seq<char>) -> Seq<char>
    decreases p.len(),
{
    if p.len() == 0 {
        p
    } else if p.last() == '/' {
        p.drop_last()
    } else {
        plain_parent(p.drop_last())
    }
}

proof fn lemma_plain_parent_prefix(p: Seq<char>)
    ensures
        plain_parent(p).len() <= p.len(),
        plain_parent(p) == p.take(plain_parent(p).len() as int),
    decreases p.len(),
{
    if p.len() > 0 && p.last() != '/' {
        lemma_plain_parent_prefix(p.drop_last());
        assert(p.drop_last().take(plain_parent(p).len() as int) =~= p.take(
            plain_parent(p).len() as int,
        ));
    } else if p.len() > 0 {
        assert(p.drop_last() =~= p.take(p.len() - 1));
    }
}

/// `res` is `name` adjoined to `base` as one more component: `name` alone
/// after an empty base, directly after a base that ends in `/`, and
/// otherwise after one separator, `/` or `\` by platform.
pub open spec fn is_join_of(res: Seq<char>, base: Seq<char>, name: Seq<char>) -> bool {
    if base.len() == 0 {
        res == name
    } else if base.last() == '/' {
        res == base + name
    } else {
        res == base + seq!['/'] + name || res == base + seq!['\\'] + name
    }
}

/// `Path::parent` on a path given as text. The parent is a leading part of
/// the path, and the empty path has none. For a plain relative path
/// (`is_plain_path`) the parent is the path up to its last `/`, or empty
/// where there is none. For such a path under the root `/`
/// (`is_rooted_plain_path`) it is `/` and the parent of the rest, or `/`
/// itself for `/name`. Of other paths (drives, verbatim prefixes, `\`
/// separators, `.` components, repeated separators), some of which differ
/// between platforms, no more is said.
#[verifier::external_body]
fn path_parent(path: &str) -> (res: Option<String>)
    ensures
        path@.len() == 0 ==> res is None,
        res matches Some(p) ==> text::has_prefix(path@, p@),
        is_plain_path(path@) ==> res is Some && res->0@ == plain_parent(path@),
        is_rooted_plain_path(path@) ==> res is Some && res->0@ == rooted_parent(path@),
{
    match std::path::Path::new(path).parent() {
        Some(parent) => Some(parent.to_string_lossy().into_owned()),
        None => None,
    }
}

/// `Path::file_stem` on a path given as text. The empty path has no file
/// name and so no stem. For a path of plain components, relative or under
/// `/`, the file name is what follows the last `/`, and the stem is the name
/// before its last `.`, or the whole name where its only `.` leads or it
/// has none. Of other paths no more is said.
#[verifier::external_body]
fn path_file_stem(path: &str) -> (res: Option<String>)
    ensures
        path@.len() == 0 ==> res is None,
        is_plain_path(path@) || is_rooted_plain_path(path@) ==> res is Some && res->0@ == stem_of(
            after_last_slash(path@),
        ),
{
    match std::path::Path::new(path).file_stem() {
        Some(stem) => Some(stem.to_string_lossy().into_owned()),
        None => None,
    }
}

/// `Path::extension` on a path given as text. The empty path has none. For
/// a path of plain components, relative or under `/`, the extension is what
/// follows the last `.` of the file name (what follows the last `/`), where
/// that `.` does not lead the name; otherwise there is none. Of other paths
/// no more is said.
#[verifier::external_body]
fn path_extension(path: &str) -> (res: Option<String>)
    ensures
        path@.len() == 0 ==> res is None,
        is_plain_path(path@) || is_rooted_plain_path(path@) ==> match extension_of(
            after_last_slash(path@),
        ) {
            Some(e) => res is Some && res->0@ == e,
            None => res is None,
        },
{
    match std::path::Path::new(path).extension() {
        Some(extension) => Some(extension.to_string_lossy().into_owned()),
        None => None,
    }
}

/// `Path::join` with a plain relative component other than `.` and `..`.
/// Where the base has no `\` and no drive colon (so no drive or verbatim
/// prefix on any platform), the result is the base and the component with
/// a separator between them where the base does not already end in one
/// (`is_join_of`); which separator is the platform's. Of other bases, which
/// Windows may rebuild from their components, nothing is said.
#[verifier::external_body]
fn path_join(base: &str, name: &str) -> (res: String)
    requires
        is_plain_component(name@),
        name@ != seq!['.'],
        name@ != seq!['.', '.'],
    ensures
        no_backslash_or_colon(base@) ==> is_join_of(res@, base@, name@),
{
    std::path::Path::new(base).join(name).to_string_lossy().into_owned()
}

/// The backup file name for backup `number` of a file named
/// `<stem>.<extension>`.
pub fn backup_file_name(stem: &str, number: u32, extension: &str) -> (res: String)
    ensures
        res@ == backup_name(stem@, number as nat, extension@),
{
    let mut res = stem.to_owned();
    res.append(".backup-");
    text::push_dec_padded(&mut res, number, 3);
    res.append(".");
    res.append(extension);
    res
}

/// The stem and extension that backups of a file are named by: the file's
/// own, or `button_config` and `ini` where it has none.
pub fn backup_stem_and_extension(stem: Option<&str>, extension: Option<&str>) -> (res: (
    String,
    String,
))
    ensures
        res.0@ == (match stem {
            Some(s) => s@,
            None => "button_config"@,
        }),
        res.1@ == (match extension {
            Some(e) => e@,
            None => "ini"@,
        }),
{
    let stem_text = match stem {
        Some(s) => s.to_owned(),
        None => "button_config".to_owned(),
    };
    let extension_text = match extension {
        Some(e) => e.to_owned(),
        None => "ini".to_owned(),
    };
    (stem_text, extension_text)
}

/// The first backup number, counting from 1, whose file name is not among
/// `taken`; `None` where every number up to `u32::MAX` is taken.
pub fn first_free_backup_number(stem: &str, extension: &str, taken: &Vec<String>) -> (res: Option<
    u32,
>)
    ensures
        match res {
            Some(n) => {
                &&& 1 <= n
                &&& !string_views(taken@).contains(backup_name(stem@, n as nat, extension@))
                &&& forall|m: u32|
                    1 <= m < n ==> string_views(taken@).contains(
                        #[trigger] backup_name(stem@, m as nat, extension@),
                    )
            },
            None => forall|m: u32|
                1 <= m ==> string_views(taken@).contains(
                    #[trigger] backup_name(stem@, m as nat, extension@),
                ),
        },
{
    let mut n: u32 = 1;
    loop
        invariant
            1 <= n,
            forall|m: u32|
                1 <= m < n ==> string_views(taken@).contains(
                    #[trigger] backup_name(stem@, m as nat, extension@),
                ),
        decreases u32::MAX - n,
    {
        let name = backup_file_name(stem, n, extension);
        if !contains_string(taken, &name) {
            return Some(n);
        }
        if n == u32::MAX {
            return None;
        }
        n = n + 1;
    }
}

/// Each character vector as a string.
fn strings_from(pieces: &Vec<Vec<char>>) -> (res: Vec<String>)
    ensures
        string_views(res@) == pieces.deep_view(),
{
    let mut res: Vec<String> = Vec::new();
    let mut i: usize = 0;
    while i < pieces.len()
        invariant
            i <= pieces.len(),
            string_views(res@) == pieces.deep_view().take(i as int),
        decreases pieces.len() - i,
    {
        let s = text::string_from(&pieces[i]);
        proof {
            text::lemma_chars_deep_view(pieces@[i as int]);
        }
        let ghost before = string_views(res@);
        let ghost sv = s@;
        res.push(s);
        i = i + 1;
        assert(string_views(res@) =~= before.push(sv));
        assert(pieces.deep_view().take(i as int) =~= pieces.deep_view().take(i - 1).push(sv));
    }
    assert(pieces.deep_view().take(pieces.len() as int) =~= pieces.deep_view());
    res
}

} // verus!
