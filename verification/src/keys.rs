//! Keyboard keys: their configuration tokens and labels, and the scanner
//! that tells newly pressed keys from held ones.

use vstd::prelude::*;

use crate::config;
use crate::text;

verus! {

/// The number of keys the editor knows.
pub const KEY_COUNT: usize = 120;

/// The configuration tokens of the known keys. More specific modifier keys
/// stand before their generic aliases, so key capture prefers Left Shift over
/// Shift while testing recognizes both.
pub const KEY_TOKENS: [&'static str; 120] = [
    "KEY_ESCAPE",
    "KEY_F1",
    "KEY_F2",
    "KEY_F3",
    "KEY_F4",
    "KEY_F5",
    "KEY_F6",
    "KEY_F7",
    "KEY_F8",
    "KEY_F9",
    "KEY_F10",
    "KEY_F11",
    "KEY_F12",
    "KEY_F13",
    "KEY_F14",
    "KEY_F15",
    "KEY_F16",
    "KEY_F17",
    "KEY_F18",
    "KEY_F19",
    "KEY_F20",
    "KEY_F21",
    "KEY_F22",
    "KEY_F23",
    "KEY_F24",
    "KEY_SNAPSHOT",
    "KEY_SCROLLLOCK",
    "KEY_PAUSE",
    "KEY_TILDE",
    "KEY_1",
    "KEY_2",
    "KEY_3",
    "KEY_4",
    "KEY_5",
    "KEY_6",
    "KEY_7",
    "KEY_8",
    "KEY_9",
    "KEY_0",
    "KEY_OEM_MINUS",
    "KEY_OEM_PLUS",
    "KEY_BACK",
    "KEY_TAB",
    "KEY_Q",
    "KEY_W",
    "KEY_E",
    "KEY_R",
    "KEY_T",
    "KEY_Y",
    "KEY_U",
    "KEY_I",
    "KEY_O",
    "KEY_P",
    "KEY_OEM_4",
    "KEY_OEM_6",
    "KEY_OEM_5",
    "KEY_CAPITAL",
    "KEY_A",
    "KEY_S",
    "KEY_D",
    "KEY_F",
    "KEY_G",
    "KEY_H",
    "KEY_J",
    "KEY_K",
    "KEY_L",
    "KEY_OEM_1",
    "KEY_OEM_7",
    "KEY_RETURN",
    "KEY_LSHIFT",
    "KEY_RSHIFT",
    "KEY_Z",
    "KEY_X",
    "KEY_C",
    "KEY_V",
    "KEY_B",
    "KEY_N",
    "KEY_M",
    "KEY_OEM_COMMA",
    "KEY_OEM_PERIOD",
    "KEY_OEM_2",
    "KEY_LCONTROL",
    "KEY_RCONTROL",
    "KEY_LWIN",
    "KEY_LMENU",
    "KEY_SPACE",
    "KEY_RMENU",
    "KEY_RWIN",
    "KEY_APPS",
    "KEY_INSERT",
    "KEY_HOME",
    "KEY_PRIOR",
    "KEY_DELETE",
    "KEY_END",
    "KEY_NEXT",
    "KEY_UP",
    "KEY_LEFT",
    "KEY_DOWN",
    "KEY_RIGHT",
    "KEY_NUMLOCK",
    "KEY_DIVIDE",
    "KEY_MULTIPLY",
    "KEY_SUBTRACT",
    "KEY_NUMPAD7",
    "KEY_NUMPAD8",
    "KEY_NUMPAD9",
    "KEY_ADD",
    "KEY_NUMPAD4",
    "KEY_NUMPAD5",
    "KEY_NUMPAD6",
    "KEY_NUMPAD1",
    "KEY_NUMPAD2",
    "KEY_NUMPAD3",
    "KEY_NUMPAD0",
    "KEY_DECIMAL",
    "KEY_SEPARATOR",
    "KEY_SHIFT",
    "KEY_CONTROL",
    "KEY_MENU",
    "KEY_PRINT",
];

/// The labels of the known keys, in the order of `KEY_TOKENS`.
pub const KEY_LABELS: [&'static str; 120] = [
    "Esc",
    "F1",
    "F2",
    "F3",
    "F4",
    "F5",
    "F6",
    "F7",
    "F8",
    "F9",
    "F10",
    "F11",
    "F12",
    "F13",
    "F14",
    "F15",
    "F16",
    "F17",
    "F18",
    "F19",
    "F20",
    "F21",
    "F22",
    "F23",
    "F24",
    "Print Screen",
    "Scroll Lock",
    "Pause",
    "`",
    "1",
    "2",
    "3",
    "4",
    "5",
    "6",
    "7",
    "8",
    "9",
    "0",
    "-",
    "=",
    "Backspace",
    "Tab",
    "Q",
    "W",
    "E",
    "R",
    "T",
    "Y",
    "U",
    "I",
    "O",
    "P",
    "[",
    "]",
    "\\",
    "Caps Lock",
    "A",
    "S",
    "D",
    "F",
    "G",
    "H",
    "J",
    "K",
    "L",
    ";",
    "'",
    "Enter",
    "Left Shift",
    "Right Shift",
    "Z",
    "X",
    "C",
    "V",
    "B",
    "N",
    "M",
    ",",
    ".",
    "/",
    "Left Ctrl",
    "Right Ctrl",
    "Left Win",
    "Left Alt",
    "Space",
    "Right Alt",
    "Right Win",
    "Menu",
    "Insert",
    "Home",
    "Page Up",
    "Delete",
    "End",
    "Page Down",
    "Up Arrow",
    "Left Arrow",
    "Down Arrow",
    "Right Arrow",
    "Num Lock",
    "Num /",
    "Num *",
    "Num -",
    "Num 7",
    "Num 8",
    "Num 9",
    "Num +",
    "Num 4",
    "Num 5",
    "Num 6",
    "Num 1",
    "Num 2",
    "Num 3",
    "Num 0",
    "Num .",
    "Num Separator",
    "Shift",
    "Ctrl",
    "Alt",
    "Print",
];

/// The tokens of the known keys, as character sequences.
pub open spec fn key_tokens() -> Seq<Seq<char>> {
    KEY_TOKENS@.map_values(|t: &str| t@)
}

/// The labels of the known keys, as character sequences.
pub open spec fn key_labels() -> Seq<Seq<char>> {
    KEY_LABELS@.map_values(|t: &str| t@)
}

/// The first known key at or after `i` whose token is `token`.
pub open spec fn find_token(token: Seq<char>, i: int) -> Option<int>
    decreases KEY_COUNT - i,
{
    if i < 0 || i >= KEY_COUNT {
        None
    } else if key_tokens()[i] == token {
        Some(i)
    } else {
        find_token(token, i + 1)
    }
}

/// The prefix of every keyboard token.
pub open spec fn key_prefix() -> Seq<char> {
    seq!['K', 'E', 'Y', '_']
}

/// `str::trim_start_matches("KEY_")`: `s` without any number of leading
/// `KEY_`.
pub open spec fn strip_key_prefixes(s: Seq<char>) -> Seq<char>
    decreases s.len(),
{
    if text::has_prefix(s, key_prefix()) {
        strip_key_prefixes(s.skip(4))
    } else {
        s
    }
}

/// `str::replace('_', " ")`.
pub open spec fn underscores_to_spaces(s: Seq<char>) -> Seq<char> {
    s.map_values(|c: char| if c == '_' { ' ' } else { c })
}

/// The label of a key: the known label of its token, else the token without
/// its `KEY_` prefix and with spaces for underscores.
pub open spec fn key_label_spec(token: Seq<char>) -> Seq<char> {
    match find_token(token, 0) {
        Some(i) => key_labels()[i],
        None => underscores_to_spaces(strip_key_prefixes(token)),
    }
}

/// The label to show for a key token.
pub fn key_label(token: &str) -> (res: String)
    ensures
        res@ == key_label_spec(token@),
{
    let t = text::chars_of(token);
    let mut i: usize = 0;
    while i < KEY_COUNT
        invariant
            t@ == token@,
            i <= KEY_COUNT,
            find_token(token@, 0) == find_token(token@, i as int),
        decreases KEY_COUNT - i,
    {
        if text::chars_eq_str(&t, KEY_TOKENS[i]) {
            assert(key_tokens()[i as int] == KEY_TOKENS@[i as int]@);
            let label = KEY_LABELS[i].to_owned();
            assert(key_labels()[i as int] == KEY_LABELS@[i as int]@);
            return label;
        }
        assert(key_tokens()[i as int] == KEY_TOKENS@[i as int]@);
        i = i + 1;
    }
    let mut start: usize = 0;
    assert(t@.skip(0) =~= t@);
    proof {
        reveal_strlit("KEY_");
    }
    while start < t.len() && text::starts_with_str(&t.as_slice()[start..t.len()], "KEY_")
        invariant
            start <= t.len(),
            "KEY_"@ == key_prefix(),
            strip_key_prefixes(t@) == strip_key_prefixes(t@.skip(start as int)),
        decreases t.len() - start,
    {
        assert(t@.subrange(start as int, t@.len() as int) =~= t@.skip(start as int));
        assert(t@.skip(start as int).skip(4) =~= t@.skip(start + 4));
        start = start + 4;
    }
    let ghost rest = t@.skip(start as int);
    assert(t@.subrange(start as int, t@.len() as int) =~= rest);
    assert(strip_key_prefixes(t@) == rest) by {
        if start < t.len() {
        } else {
            assert(rest.len() == 0);
        }
    }
    let mut res = String::new();
    let mut j: usize = start;
    while j < t.len()
        invariant
            start <= j <= t.len(),
            rest == t@.skip(start as int),
            res@ == underscores_to_spaces(rest.take(j - start)),
        decreases t.len() - j,
    {
        let c = t[j];
        if c == '_' {
            res.push(' ');
        } else {
            res.push(c);
        }
        j = j + 1;
        assert(res@ =~= underscores_to_spaces(rest.take(j - start)));
    }
    assert(rest.take(t.len() - start) =~= rest);
    res
}

/// Copies of the strings.
fn clone_strings(v: &Vec<String>) -> (res: Vec<String>)
    ensures
        config::string_views(res@) == config::string_views(v@),
{
    let mut res: Vec<String> = Vec::new();
    let mut i: usize = 0;
    while i < v.len()
        invariant
            i <= v.len(),
            config::string_views(res@) == config::string_views(v@).take(i as int),
        decreases v.len() - i,
    {
        let ghost before = config::string_views(res@);
        let c = v[i].clone();
        assert(c@ == v@[i as int]@);
        res.push(c);
        assert(config::string_views(res@) =~= before.push(v@[i as int]@));
        i = i + 1;
        assert(config::string_views(res@) =~= config::string_views(v@).take(i as int));
    }
    assert(config::string_views(v@).take(v.len() as int) =~= config::string_views(v@));
    res
}

/// The keys held at one poll, and those among the known keys, in their order,
/// that were not held at the poll before.
pub struct KeySnapshot {
    pub down: Vec<String>,
    pub newly_pressed: Vec<String>,
}

/// The known keys, among `tokens`, that are in `down` and not in `previous`,
/// in order.
pub open spec fn newly_pressed_spec(
    tokens: Seq<Seq<char>>,
    down: Seq<Seq<char>>,
    previous: Seq<Seq<char>>,
) -> Seq<Seq<char>>
    decreases tokens.len(),
{
    if tokens.len() == 0 {
        seq![]
    } else {
        let prev = newly_pressed_spec(tokens.drop_last(), down, previous);
        let t = tokens.last();
        if down.contains(t) && !previous.contains(t) {
            prev.push(t)
        } else {
            prev
        }
    }
}

/// Remembers the keys held at the last poll.
pub struct KeyScanner {
    previous: Vec<String>,
}

impl KeyScanner {
    /// The keys held at the last poll.
    pub closed spec fn held(&self) -> Seq<Seq<char>> {
        config::string_views(self.previous@)
    }

    /// A scanner that takes the keys held now as already held.
    pub fn new(down: Vec<String>) -> (res: KeyScanner)
        ensures
            res.held() == config::string_views(down@),
    {
        KeyScanner { previous: down }
    }

    /// Takes the keys held now: reports them, and the known keys among them
    /// that were not held at the last poll.
    pub fn poll(&mut self, down: Vec<String>) -> (snapshot: KeySnapshot)
        ensures
            config::string_views(snapshot.down@) == config::string_views(down@),
            config::string_views(snapshot.newly_pressed@) == newly_pressed_spec(
                key_tokens(),
                config::string_views(down@),
                old(self).held(),
            ),
            final(self).held() == config::string_views(down@),
    {
        let ghost dv = config::string_views(down@);
        let ghost pv = self.held();
        let mut newly_pressed: Vec<String> = Vec::new();
        let mut i: usize = 0;
        while i < KEY_COUNT
            invariant
                i <= KEY_COUNT,
                dv == config::string_views(down@),
                pv == config::string_views(self.previous@),
                config::string_views(newly_pressed@) == newly_pressed_spec(
                    key_tokens().take(i as int),
                    dv,
                    pv,
                ),
            decreases KEY_COUNT - i,
        {
            let token = KEY_TOKENS[i].to_owned();
            assert(key_tokens().take(i + 1).drop_last() =~= key_tokens().take(i as int));
            assert(key_tokens().take(i + 1).last() == KEY_TOKENS@[i as int]@);
            if config::contains_string(&down, &token) && !config::contains_string(
                &self.previous,
                &token,
            ) {
                let ghost before = config::string_views(newly_pressed@);
                let ghost tv = token@;
                newly_pressed.push(token);
                assert(config::string_views(newly_pressed@) =~= before.push(tv));
            }
            i = i + 1;
        }
        assert(key_tokens().take(KEY_COUNT as int) =~= key_tokens());
        self.previous = clone_strings(&down);
        KeySnapshot { down, newly_pressed }
    }
}

} // verus!
