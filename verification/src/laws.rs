//! Properties of the library that span several of its operations.

use vstd::prelude::*;

use crate::config::{self, ButtonConfig};
use crate::keys;
use crate::studio;
use crate::text;

verus! {

// ---------------------------------------------------------------------------
// Saving an unchanged document gives back the file
// ---------------------------------------------------------------------------

proof fn lemma_crlf_to_lf_plain(t: Seq<char>)
    requires
        !text::has_crlf(t),
    ensures
        text::crlf_to_lf(t) == t,
    decreases t.len(),
{
    if t.len() > 0 {
        let t1 = t.drop_first();
        assert(!text::has_crlf(t1)) by {
            if text::has_crlf(t1) {
                let i = choose|i: int| 0 <= i < t1.len() - 1 && t1[i] == '\r' && #[trigger] t1[i + 1] == '\n';
                assert(t[i + 1] == '\r' && t[i + 2] == '\n');
            }
        }
        lemma_crlf_to_lf_plain(t1);
        if t.len() > 1 && t[0] == '\r' {
            assert(t[1] != '\n');
        }
        assert(t =~= seq![t[0]] + t1);
    }
}

/// The last piece of a split is empty or ends with the text's last character.
proof fn lemma_split_last(s: Seq<char>, sep: char)
    ensures
        text::split_on(s, sep).len() > 0,
        text::split_on(s, sep).last().len() > 0 ==> s.len() > 0 && text::split_on(s, sep).last().last()
            == s.last(),
        s.len() > 0 && s.last() != sep ==> text::split_on(s, sep).last().len() > 0,
        s.len() > 0 && s.last() == sep ==> text::split_on(s, sep).last().len() == 0
            && text::split_on(s, sep).len() > 1,
{
    text::lemma_split_on_len(s, sep);
    if s.len() > 0 {
        text::lemma_split_on_len(s.drop_last(), sep);
        let p = text::split_on(s.drop_last(), sep);
        if s.last() != sep {
            assert(text::split_on(s, sep).last() == p.last().push(s.last()));
        }
    } else {
        assert(text::split_on(s, sep) =~= seq![Seq::<char>::empty()]);
    }
}

/// Where the text holds no `\r\n`, no piece that a line feed ends ends with a
/// carriage return.
proof fn lemma_split_no_trailing_cr(t: Seq<char>)
    requires
        !text::has_crlf(t),
    ensures
        forall|j: int|
            0 <= j < text::split_on(t, '\n').len() - 1 ==> text::strip_cr(
                #[trigger] text::split_on(t, '\n')[j],
            ) == text::split_on(t, '\n')[j],
    decreases t.len(),
{
    if t.len() > 0 {
        let u = t.drop_last();
        assert(!text::has_crlf(u)) by {
            if text::has_crlf(u) {
                let i = choose|i: int| 0 <= i < u.len() - 1 && u[i] == '\r' && #[trigger] u[i + 1] == '\n';
                assert(t[i] == '\r' && t[i + 1] == '\n');
            }
        }
        lemma_split_no_trailing_cr(u);
        lemma_split_last(u, '\n');
        let p = text::split_on(u, '\n');
        let q = text::split_on(t, '\n');
        assert forall|j: int| 0 <= j < q.len() - 1 implies text::strip_cr(#[trigger] q[j]) == q[j] by {
            if t.last() == '\n' {
                assert(q[j] == p[j]);
                if j == p.len() - 1 && p[j].len() > 0 {
                    assert(p[j].last() == u.last());
                    let k = t.len() - 2;
                    assert(t[k] == u.last());
                    if u.last() == '\r' {
                        assert(t[k] == '\r' && t[k + 1] == '\n');
                        assert(text::has_crlf(t));
                    }
                }
            } else {
                assert(q[j] == p[j]);
            }
        }
    }
}

/// Joining the pieces of a split by the separator gives back the text.
pub proof fn lemma_join_split(t: Seq<char>, sep: char)
    ensures
        text::join(text::split_on(t, sep), seq![sep]) == t,
    decreases t.len(),
{
    if t.len() == 0 {
        assert(text::split_on(t, sep) =~= seq![Seq::<char>::empty()]);
        assert(t =~= Seq::<char>::empty());
    } else {
        let u = t.drop_last();
        lemma_join_split(u, sep);
        text::lemma_split_on_len(u, sep);
        let p = text::split_on(u, sep);
        let q = text::split_on(t, sep);
        if t.last() == sep {
            assert(q.drop_last() =~= p);
            assert(t =~= u + seq![sep] + Seq::<char>::empty());
        } else {
            let l = p.last().push(t.last());
            if p.len() == 1 {
                assert(q =~= seq![l]);
                assert(text::join(p, seq![sep]) == p[0]);
                assert(t =~= u.push(t.last()));
            } else {
                assert(q.drop_last() =~= p.drop_last());
                assert(text::join(q, seq![sep]) == text::join(p.drop_last(), seq![sep]) + seq![sep] + l);
                assert(t =~= (text::join(p.drop_last(), seq![sep]) + seq![sep] + p.last()).push(t.last()));
            }
        }
    }
}

/// The lines of a text are its pieces between line feeds, less a last empty
/// one, where no piece ends with a carriage return.
proof fn lemma_lines_are_pieces(u: Seq<char>)
    requires
        !text::has_crlf(u),
    ensures
        ({
            let p = text::split_on(u, '\n');
            &&& p.len() > 0
            &&& u.len() > 0 && u.last() == '\n' ==> p.len() > 1 && p.last().len() == 0
                && text::lines_spec(u) == p.drop_last()
            &&& !(u.len() > 0 && u.last() == '\n') && u.len() > 0 ==> text::lines_spec(u) == p
            &&& u.len() == 0 ==> p == seq![Seq::<char>::empty()] && text::lines_spec(u) == Seq::<
                Seq<char>,
            >::empty()
        }),
{
    lemma_split_no_trailing_cr(u);
    lemma_split_last(u, '\n');
    let p = text::split_on(u, '\n');
    let ls = text::lines_spec(u);
    if u.len() > 0 && u.last() == '\n' {
        text::lemma_split_on_len(u.drop_last(), '\n');
        assert(ls =~= p.drop_last());
    } else if u.len() > 0 {
        assert(ls =~= p);
    } else {
        assert(p =~= seq![Seq::<char>::empty()]);
        assert(ls =~= Seq::<Seq<char>>::empty());
    }
}

/// Saving a document read from a text without `\r\n`, and not edited, writes
/// that text back unchanged.
pub proof fn law_render_parsed_lf_text(t: Seq<char>)
    requires
        !text::has_crlf(t),
    ensures
        config::render(
            text::lines_spec(text::crlf_to_lf(t)),
            config::newline_of(t),
            config::ends_with_lf(t),
        ) == t,
{
    lemma_crlf_to_lf_plain(t);
    lemma_lines_are_pieces(t);
    lemma_join_split(t, '\n');
    let p = text::split_on(t, '\n');
    let ls = text::lines_spec(t);
    let sep = seq!['\n'];
    if config::ends_with_lf(t) {
        assert(text::join(p, sep) == text::join(p.drop_last(), sep) + sep + p.last());
        assert(config::render(ls, sep, true) =~= text::join(p, sep));
    } else if t.len() > 0 {
        assert(config::render(ls, sep, false) =~= text::join(p, sep));
    }
}

/// Every line feed stands after a carriage return.
pub open spec fn lf_after_cr(t: Seq<char>) -> bool {
    forall|i: int| 0 <= i < t.len() && #[trigger] t[i] == '\n' ==> i > 0 && t[i - 1] == '\r'
}

/// No `\r\n` stands after another carriage return.
pub open spec fn no_cr_before_crlf(t: Seq<char>) -> bool {
    forall|i: int|
        0 < i < t.len() - 1 && #[trigger] t[i] == '\r' && t[i + 1] == '\n' ==> t[i - 1] != '\r'
}

/// Every line feed written as `\r\n`.
pub open spec fn lf_to_crlf(u: Seq<char>) -> Seq<char>
    decreases u.len(),
{
    if u.len() == 0 {
        seq![]
    } else if u.last() == '\n' {
        lf_to_crlf(u.drop_last()) + seq!['\r', '\n']
    } else {
        lf_to_crlf(u.drop_last()).push(u.last())
    }
}

proof fn lemma_lf_to_crlf_concat(a: Seq<char>, b: Seq<char>)
    ensures
        lf_to_crlf(a + b) == lf_to_crlf(a) + lf_to_crlf(b),
    decreases b.len(),
{
    if b.len() == 0 {
        assert(a + b =~= a);
        assert(lf_to_crlf(a) + lf_to_crlf(b) =~= lf_to_crlf(a));
    } else {
        lemma_lf_to_crlf_concat(a, b.drop_last());
        assert((a + b).drop_last() =~= a + b.drop_last());
        assert((a + b).last() == b.last());
        assert(lf_to_crlf(a + b) =~= lf_to_crlf(a) + lf_to_crlf(b));
    }
}

proof fn lemma_lf_to_crlf_single(c: char)
    ensures
        lf_to_crlf(seq![c]) == if c == '\n' {
            seq!['\r', '\n']
        } else {
            seq![c]
        },
{
    assert(seq![c].drop_last() =~= Seq::<char>::empty());
    assert(lf_to_crlf(Seq::<char>::empty()) =~= Seq::<char>::empty());
    if c == '\n' {
        assert(Seq::<char>::empty() + seq!['\r', '\n'] =~= seq!['\r', '\n']);
    } else {
        assert(Seq::<char>::empty().push(c) =~= seq![c]);
    }
}

/// What `\r\n` → `\n` makes of a text starts with a line feed only where the
/// text starts with one or with `\r\n`.
proof fn lemma_crlf_to_lf_first(s: Seq<char>)
    ensures
        text::crlf_to_lf(s).len() > 0 && text::crlf_to_lf(s)[0] == '\n' ==> s[0] == '\n' || (s.len()
            > 1 && s[0] == '\r' && s[1] == '\n'),
{
    if s.len() > 1 && s[0] == '\r' && s[1] == '\n' {
    } else if s.len() > 0 {
        assert((seq![s[0]] + text::crlf_to_lf(s.drop_first()))[0] == s[0]);
    }
}

/// Taking the carriage returns of the `\r\n` out of such a text and putting
/// them back gives the text; what was taken out holds no `\r\n`.
proof fn lemma_crlf_roundtrip(t: Seq<char>)
    requires
        forall|i: int| 0 <= i < t.len() && #[trigger] t[i] == '\n' ==> i > 0 && t[i - 1] == '\r',
        no_cr_before_crlf(t),
    ensures
        lf_to_crlf(text::crlf_to_lf(t)) == t,
        !text::has_crlf(text::crlf_to_lf(t)),
    decreases t.len(),
{
    if t.len() > 0 {
        assert(t[0] != '\n');
        let u = text::crlf_to_lf(t);
        if t.len() > 1 && t[0] == '\r' && t[1] == '\n' {
            let rest = t.skip(2);
            assert forall|i: int| 0 <= i < rest.len() && #[trigger] rest[i] == '\n' implies i > 0
                && rest[i - 1] == '\r' by {
                assert(t[i + 2] == '\n');
                if i == 0 {
                    assert(t[1] != '\r');
                }
            }
            assert forall|i: int|
                0 < i < rest.len() - 1 && #[trigger] rest[i] == '\r' && rest[i + 1] == '\n' implies rest[i - 1]
                != '\r' by {
                assert(t[i + 2] == '\r' && t[i + 3] == '\n');
            }
            lemma_crlf_roundtrip(rest);
            let t1 = t.drop_first();
            assert(t1.drop_first() =~= rest);
            assert(text::crlf_to_lf(t1) == seq![t1[0]] + text::crlf_to_lf(rest));
            lemma_lf_to_crlf_concat(seq!['\n'], text::crlf_to_lf(rest));
            lemma_lf_to_crlf_single('\n');
            assert(t =~= seq!['\r', '\n'] + rest);
            assert(!text::has_crlf(u)) by {
                if text::has_crlf(u) {
                    let i = choose|i: int| 0 <= i < u.len() - 1 && u[i] == '\r' && #[trigger] u[i + 1] == '\n';
                    let r = text::crlf_to_lf(rest);
                    assert(u[0] == '\n');
                    assert(i > 0);
                    let k = i - 1;
                    assert(u[i] == r[k]);
                    assert(u[i + 1] == r[k + 1]);
                    assert(text::has_crlf(r));
                }
            }
        } else {
            let t1 = t.drop_first();
            assert forall|i: int| 0 <= i < t1.len() && #[trigger] t1[i] == '\n' implies i > 0 && t1[i
                - 1] == '\r' by {
                assert(t[i + 1] == '\n');
            }
            assert forall|i: int|
                0 < i < t1.len() - 1 && #[trigger] t1[i] == '\r' && t1[i + 1] == '\n' implies t1[i - 1]
                != '\r' by {
                assert(t[i + 1] == '\r' && t[i + 2] == '\n');
            }
            lemma_crlf_roundtrip(t1);
            assert(u == seq![t[0]] + text::crlf_to_lf(t1));
            lemma_lf_to_crlf_concat(seq![t[0]], text::crlf_to_lf(t1));
            lemma_lf_to_crlf_single(t[0]);
            assert(t =~= seq![t[0]] + t1);
            lemma_crlf_to_lf_first(t1);
            assert(!text::has_crlf(u)) by {
                if text::has_crlf(u) {
                    let i = choose|i: int| 0 <= i < u.len() - 1 && u[i] == '\r' && #[trigger] u[i + 1] == '\n';
                    let r = text::crlf_to_lf(t1);
                    if i == 0 {
                        assert(t[0] == '\r');
                        assert(u[1] == r[0]);
                        assert(r[0] == '\n');
                        assert(t1[0] != '\n') by {
                            if t1[0] == '\n' {
                                assert(t[1] == '\n');
                            }
                        }
                        assert(t[1] == '\r' && t[2] == '\n');
                        assert(t[0] != '\r');
                    } else {
                        let k = i - 1;
                        assert(u[i] == r[k]);
                        assert(u[i + 1] == r[k + 1]);
                        assert(text::has_crlf(r));
                    }
                }
            }
        }
    }
}

/// Joining the pieces of a split at line feeds by `\r\n` writes every line
/// feed as `\r\n`.
proof fn lemma_join_split_crlf(u: Seq<char>)
    ensures
        text::join(text::split_on(u, '\n'), seq!['\r', '\n']) == lf_to_crlf(u),
    decreases u.len(),
{
    let sep = seq!['\r', '\n'];
    if u.len() == 0 {
        assert(text::split_on(u, '\n') =~= seq![Seq::<char>::empty()]);
    } else {
        let v = u.drop_last();
        lemma_join_split_crlf(v);
        text::lemma_split_on_len(v, '\n');
        let p = text::split_on(v, '\n');
        let q = text::split_on(u, '\n');
        if u.last() == '\n' {
            assert(q.drop_last() =~= p);
            assert(text::join(q, sep) =~= lf_to_crlf(v) + sep);
        } else {
            let l = p.last().push(u.last());
            if p.len() == 1 {
                assert(q =~= seq![l]);
                assert(text::join(p, sep) == p[0]);
                assert(text::join(q, sep) =~= lf_to_crlf(v).push(u.last()));
            } else {
                assert(q.drop_last() =~= p.drop_last());
                assert(text::join(q, sep) == text::join(p.drop_last(), sep) + sep + l);
                assert(text::join(q, sep) =~= (text::join(p.drop_last(), sep) + sep + p.last()).push(u.last()));
            }
        }
    }
}

/// Saving a document read from a text with `\r\n` line endings, and not
/// edited, writes that text back unchanged where every line feed stands after
/// a carriage return and no `\r\n` after another carriage return.
pub proof fn law_render_parsed_crlf_text(t: Seq<char>)
    requires
        text::has_crlf(t),
        lf_after_cr(t),
        no_cr_before_crlf(t),
    ensures
        config::render(
            text::lines_spec(text::crlf_to_lf(t)),
            config::newline_of(t),
            config::ends_with_lf(t),
        ) == t,
{
    lemma_crlf_roundtrip(t);
    let u = text::crlf_to_lf(t);
    let sep = seq!['\r', '\n'];
    lemma_lines_are_pieces(u);
    lemma_join_split_crlf(u);
    let p = text::split_on(u, '\n');
    let ls = text::lines_spec(u);
    // The text ends with a line feed exactly where `u` does.
    if u.len() > 0 {
        lemma_lf_to_crlf_concat(u.drop_last(), seq![u.last()]);
        assert(u =~= u.drop_last() + seq![u.last()]);
        lemma_lf_to_crlf_single(u.last());
        assert(config::ends_with_lf(t) == (u.last() == '\n'));
    } else {
        assert(t =~= Seq::<char>::empty());
    }
    if u.len() > 0 && u.last() == '\n' {
        assert(text::join(p, sep) == text::join(p.drop_last(), sep) + sep + p.last());
        assert(config::render(ls, sep, true) =~= text::join(p, sep));
    } else if u.len() > 0 {
        assert(config::render(ls, sep, false) =~= text::join(p, sep));
    }
}

// ---------------------------------------------------------------------------
// Reading back what an edit wrote
// ---------------------------------------------------------------------------

/// A key or action name as it stands in a binding line: not empty, without
/// whitespace.
pub open spec fn is_token(s: Seq<char>) -> bool {
    s.len() > 0 && text::no_ws(s)
}

proof fn lemma_words_token_then(w: Seq<char>, t: Seq<char>)
    requires
        is_token(w),
        t.len() == 0 || text::is_ws(t[0]),
    ensures
        text::words(w + t) == seq![w] + text::words(t),
    decreases w.len(),
{
    let s = w + t;
    assert(s[0] == w[0]);
    assert(s.drop_first() =~= w.drop_first() + t);
    if w.len() == 1 {
        assert(w =~= seq![w[0]]);
        assert(s.drop_first() =~= t);
        if s.len() > 1 {
            assert(s[1] == t[0]);
        }
    } else {
        let w2 = w.drop_first();
        assert(is_token(w2)) by {
            assert forall|i: int| 0 <= i < w2.len() implies !text::is_ws(#[trigger] w2[i]) by {
                assert(w2[i] == w[i + 1]);
            }
        }
        lemma_words_token_then(w2, t);
        assert(s[1] == w[1]);
        assert(seq![w[0]] + w2 =~= w);
        assert(text::words(s) =~= seq![w] + text::words(t));
    }
}

proof fn lemma_words_ws_then(c: char, t: Seq<char>)
    requires
        text::is_ws(c),
    ensures
        text::words(seq![c] + t) == text::words(t),
{
    assert((seq![c] + t).drop_first() =~= t);
}

/// Every field of a text is a token.
pub proof fn lemma_words_are_tokens(s: Seq<char>)
    ensures
        forall|k: int| 0 <= k < text::words(s).len() ==> is_token(#[trigger] text::words(s)[k]),
    decreases s.len(),
{
    if s.len() > 0 {
        let rest = text::words(s.drop_first());
        lemma_words_are_tokens(s.drop_first());
        let ws = text::words(s);
        if !text::is_ws(s[0]) {
            if s.len() > 1 && !text::is_ws(s[1]) {
                text::lemma_words_nonempty(s.drop_first());
                assert forall|k: int| 0 <= k < ws.len() implies is_token(#[trigger] ws[k]) by {
                    if k == 0 {
                        let w = seq![s[0]] + rest[0];
                        assert(is_token(rest[0]));
                        assert forall|i: int| 0 <= i < w.len() implies !text::is_ws(#[trigger] w[i]) by {
                            if i > 0 {
                                assert(w[i] == rest[0][i - 1]);
                            }
                        }
                    } else {
                        assert(ws[k] == rest[k]);
                    }
                }
            } else {
                assert forall|k: int| 0 <= k < ws.len() implies is_token(#[trigger] ws[k]) by {
                    if k > 0 {
                        assert(ws[k] == rest[k - 1]);
                    }
                }
            }
        }
    }
}

/// A binding line that the editor writes reads back as that binding.
pub proof fn lemma_device_line_reads_back(device: u8, source: Seq<char>, action: Seq<char>)
    requires
        is_token(source),
        is_token(action),
    ensures
        config::player_marker(config::device_line(device, source, action)) is None,
        config::device_entry(config::device_line(device, source, action)) == Some(
            (device, source, action),
        ),
{
    reveal_strlit("Device ");
    reveal_strlit(" ");
    reveal_strlit(" -> ");
    reveal_strlit("Device");
    reveal_strlit("->");
    reveal_strlit("Player ");
    let line = config::device_line(device, source, action);
    let dd = text::dec(device as nat);
    text::lemma_dec(device as nat);
    text::lemma_parse_dec(device);
    assert(is_token(dd)) by {
        assert forall|i: int| 0 <= i < dd.len() implies !text::is_ws(#[trigger] dd[i]) by {
            assert(text::is_digit(dd[i]));
        }
    }
    let dw = "Device"@;
    let ar = "->"@;
    let sp = seq![' '];
    assert(is_token(dw));
    assert(is_token(ar));
    let t4 = sp + action;
    let t3 = sp + ar + t4;
    let t2 = sp + source + t3;
    let t1 = sp + dd + t2;
    assert(line =~= dw + t1);
    lemma_words_token_then(action, Seq::<char>::empty());
    assert(action + Seq::<char>::empty() =~= action);
    assert(text::words(Seq::<char>::empty()) =~= Seq::<Seq<char>>::empty());
    lemma_words_ws_then(' ', action);
    lemma_words_token_then(ar, t4);
    assert(sp + ar + t4 =~= seq![' '] + (ar + t4));
    lemma_words_ws_then(' ', ar + t4);
    lemma_words_token_then(source, t3);
    lemma_words_ws_then(' ', source + t3);
    assert(sp + source + t3 =~= seq![' '] + (source + t3));
    lemma_words_token_then(dd, t2);
    lemma_words_ws_then(' ', dd + t2);
    assert(sp + dd + t2 =~= seq![' '] + (dd + t2));
    lemma_words_token_then(dw, t1);
    assert(text::words(line) =~= seq![dw, dd, source, ar, action]);
    // The line has no surrounding whitespace.
    assert(line[0] == 'D');
    assert(line.last() == action.last());
    assert(text::trim_start(line) == line);
    assert(text::trim_end(line) == line);
    assert(text::trim(line) == line);
    assert(line.take(7)[0] != "Player "@[0]);
}

// ---------------------------------------------------------------------------
// How the parse follows an edit of one line
// ---------------------------------------------------------------------------

/// The player in effect at line `j` depends on the lines before it only.
pub proof fn lemma_player_at_prefix(l1: Seq<Seq<char>>, l2: Seq<Seq<char>>, j: int)
    requires
        0 <= j <= l1.len(),
        j <= l2.len(),
        l1.take(j) == l2.take(j),
    ensures
        config::player_at(l1, j) == config::player_at(l2, j),
    decreases j,
{
    if j > 0 {
        assert(l1[j - 1] == l1.take(j)[j - 1]);
        assert(l2[j - 1] == l2.take(j)[j - 1]);
        assert(l1.take(j - 1) =~= l1.take(j).take(j - 1));
        assert(l2.take(j - 1) =~= l2.take(j).take(j - 1));
        lemma_player_at_prefix(l1, l2, j - 1);
    }
}

/// Each parsed binding is what its line holds, and the lines of the
/// bindings strictly increase.
pub proof fn lemma_parse_bindings_lines(lines: Seq<Seq<char>>, n: int)
    requires
        0 <= n <= lines.len(),
    ensures
        forall|k: int|
            0 <= k < config::parse_bindings(lines, n).len() ==> {
                let b = #[trigger] config::parse_bindings(lines, n)[k];
                0 <= b.line_index < n && config::binding_at(lines, b.line_index) == Some(b)
            },
        forall|k1: int, k2: int|
            0 <= k1 < k2 < config::parse_bindings(lines, n).len() ==> (#[trigger] config::parse_bindings(
                lines,
                n,
            )[k1]).line_index < (#[trigger] config::parse_bindings(lines, n)[k2]).line_index,
    decreases n,
{
    if n > 0 {
        lemma_parse_bindings_lines(lines, n - 1);
        let prev = config::parse_bindings(lines, n - 1);
        let cur = config::parse_bindings(lines, n);
        assert forall|k: int| 0 <= k < cur.len() implies {
            let b = #[trigger] cur[k];
            0 <= b.line_index < n && config::binding_at(lines, b.line_index) == Some(b)
        } by {
            if k < prev.len() {
                assert(cur[k] == prev[k]);
            }
        }
        assert forall|k1: int, k2: int| 0 <= k1 < k2 < cur.len() implies (#[trigger] cur[k1]).line_index
            < (#[trigger] cur[k2]).line_index by {
            assert(cur[k1] == prev[k1]);
            if k2 < prev.len() {
                assert(cur[k2] == prev[k2]);
            }
        }
    }
}

/// The binding found on a line is the one the line holds, at its place
/// among the bindings.
pub proof fn lemma_binding_on_line_index(lines: Seq<Seq<char>>, line: int)
    requires
        config::binding_on_line(config::all_bindings(lines), line) is Some,
    ensures
        ({
            let b = config::binding_on_line(config::all_bindings(lines), line)->0;
            &&& b.line_index == line
            &&& 0 <= line < lines.len()
            &&& config::binding_at(lines, line) == Some(b)
            &&& config::parse_bindings(lines, line).len() < config::all_bindings(lines).len()
            &&& config::all_bindings(lines)[config::parse_bindings(lines, line).len() as int] == b
        }),
{
    let bs = config::all_bindings(lines);
    lemma_parse_bindings_lines(lines, lines.len() as int);
    lemma_binding_on_line_in(bs, line);
    let k = choose|k: int| 0 <= k < bs.len() && bs[k] == config::binding_on_line(bs, line)->0;
    let b = bs[k];
    lemma_parse_count(lines, lines.len() as int, k);
}

/// The binding found on a line is one of the bindings, standing on it.
proof fn lemma_binding_on_line_in(bs: Seq<config::BindingSpec>, line: int)
    requires
        config::binding_on_line(bs, line) is Some,
    ensures
        exists|k: int|
            0 <= k < bs.len() && #[trigger] bs[k] == config::binding_on_line(bs, line)->0,
        config::binding_on_line(bs, line)->0.line_index == line,
    decreases bs.len(),
{
    if bs[0].line_index != line {
        lemma_binding_on_line_in(bs.drop_first(), line);
        let k = choose|k: int|
            0 <= k < bs.drop_first().len() && #[trigger] bs.drop_first()[k] == config::binding_on_line(
                bs.drop_first(),
                line,
            )->0;
        assert(bs[k + 1] == bs.drop_first()[k]);
    } else {
        assert(bs[0] == config::binding_on_line(bs, line)->0);
    }
}

/// The bindings before line `b.line_index` are the first `k` ones, where `k`
/// is the place of `b`.
proof fn lemma_parse_count(lines: Seq<Seq<char>>, n: int, k: int)
    requires
        0 <= n <= lines.len(),
        0 <= k < config::parse_bindings(lines, n).len(),
    ensures
        config::parse_bindings(lines, config::parse_bindings(lines, n)[k].line_index).len() == k,
        config::parse_bindings(lines, n)[k] == config::parse_bindings(
            lines,
            config::parse_bindings(lines, n)[k].line_index + 1,
        ).last(),
        config::parse_bindings(lines, config::parse_bindings(lines, n)[k].line_index + 1).len() == k + 1,
    decreases n,
{
    lemma_parse_bindings_lines(lines, n);
    let cur = config::parse_bindings(lines, n);
    let prev = config::parse_bindings(lines, n - 1);
    if k < prev.len() {
        assert(cur[k] == prev[k]);
        lemma_parse_count(lines, n - 1, k);
    } else {
        assert(cur[k].line_index == n - 1);
    }
}

/// A binding with another source key.
pub open spec fn with_new_source(b: config::BindingSpec, source: Seq<char>) -> config::BindingSpec {
    config::BindingSpec {
        line_index: b.line_index,
        player: b.player,
        device: b.device,
        source,
        action: b.action,
    }
}

/// Replacing a line that starts no section by another that starts none
/// leaves the player of every line as it was.
proof fn lemma_player_at_update(l: Seq<Seq<char>>, i: int, line: Seq<char>, j: int)
    requires
        0 <= i < l.len(),
        config::player_marker(l[i]) is None,
        config::player_marker(line) is None,
        0 <= j <= l.len(),
    ensures
        config::player_at(l.update(i, line), j) == config::player_at(l, j),
    decreases j,
{
    if j > 0 {
        lemma_player_at_update(l, i, line, j - 1);
        if j - 1 != i {
            assert(l.update(i, line)[j - 1] == l[j - 1]);
        }
    }
}

/// Replacing the binding line `i` by another binding line replaces that one
/// binding and keeps the macros.
proof fn lemma_parse_update(l: Seq<Seq<char>>, i: int, line: Seq<char>, n: int)
    requires
        0 <= i < l.len(),
        config::player_marker(l[i]) is None,
        config::player_marker(line) is None,
        config::binding_at(l, i) is Some,
        config::binding_at(l.update(i, line), i) is Some,
        0 <= n <= l.len(),
    ensures
        config::parse_bindings(l.update(i, line), n) == if n <= i {
            config::parse_bindings(l, n)
        } else {
            config::parse_bindings(l, n).update(
                config::parse_bindings(l, i).len() as int,
                config::binding_at(l.update(i, line), i)->0,
            )
        },
        config::parse_macros(l.update(i, line), n) == config::parse_macros(l, n),
        n > i ==> config::parse_bindings(l, n).len() > config::parse_bindings(l, i).len(),
    decreases n,
{
    let l2 = l.update(i, line);
    if n > 0 {
        lemma_parse_update(l, i, line, n - 1);
        let j = n - 1;
        lemma_player_at_update(l, i, line, j);
        if j != i {
            assert(l2[j] == l[j]);
            assert(config::binding_at(l2, j) == config::binding_at(l, j));
            assert(config::macro_at(l2, j) == config::macro_at(l, j));
        } else {
            assert(config::macro_at(l2, j) is None);
            assert(config::macro_at(l, j) is None);
        }
        if n - 1 == i {
            assert(config::parse_bindings(l2, n) =~= config::parse_bindings(l, n).update(
                config::parse_bindings(l, i).len() as int,
                config::binding_at(l2, i)->0,
            ));
        } else if n - 1 > i {
            assert(config::parse_bindings(l2, n) =~= config::parse_bindings(l, n).update(
                config::parse_bindings(l, i).len() as int,
                config::binding_at(l2, i)->0,
            ));
        }
    }
}

/// After `set_source` on a binding line, the bindings are those before, the
/// one on that line now bound to the new key (its player, device and action
/// kept); the macros are those before.
pub proof fn law_set_source_reads_back(
    before: ButtonConfig,
    after: ButtonConfig,
    line_index: int,
    source: Seq<char>,
    res: bool,
)
    requires
        before.wf(),
        config::set_source_effect(before, after, line_index, source, res),
        is_token(source),
    ensures
        res ==> {
            let bb = config::binding_views(before.bindings@);
            let ab = config::binding_views(after.bindings@);
            &&& ab.len() == bb.len()
            &&& forall|m: int|
                0 <= m < bb.len() ==> #[trigger] ab[m] == if bb[m].line_index == line_index {
                    with_new_source(bb[m], source)
                } else {
                    bb[m]
                }
            &&& config::macro_views(after.macros@) == config::macro_views(before.macros@)
        },
{
    if res {
        let l = before.text_lines();
        let bb = config::binding_views(before.bindings@);
        lemma_binding_on_line_index(l, line_index);
        let b = config::binding_on_line(bb, line_index)->0;
        let k = config::parse_bindings(l, line_index).len() as int;
        let line = config::device_line(b.device, source, b.action);
        // The old line's fields are tokens.
        lemma_words_are_tokens(text::trim(l[line_index]));
        assert(config::fields(l[line_index])[4] == b.action);
        assert(is_token(b.action));
        lemma_device_line_reads_back(b.device, source, b.action);
        let l2 = l.update(line_index, line);
        assert(after.text_lines() == l2);
        lemma_player_at_update(l, line_index, line, line_index);
        assert(config::binding_at(l2, line_index) == Some(with_new_source(b, source)));
        lemma_parse_update(l, line_index, line, l.len() as int);
        lemma_parse_bindings_lines(l, l.len() as int);
        let ab = config::binding_views(after.bindings@);
        assert(ab == bb.update(k, with_new_source(b, source)));
        assert forall|m: int| 0 <= m < bb.len() implies #[trigger] ab[m] == if bb[m].line_index
            == line_index {
            with_new_source(bb[m], source)
        } else {
            bb[m]
        } by {
            if m != k {
                if bb[m].line_index == line_index {
                    if m < k {
                        assert(bb[m].line_index < bb[k].line_index);
                    } else {
                        assert(bb[k].line_index < bb[m].line_index);
                    }
                }
            }
        }
    }
}

/// A binding moved by `d` lines.
pub open spec fn shifted(b: config::BindingSpec, d: int) -> config::BindingSpec {
    config::BindingSpec {
        line_index: b.line_index + d,
        player: b.player,
        device: b.device,
        source: b.source,
        action: b.action,
    }
}

/// The bindings with those from place `k` on moved by `d` lines.
pub open spec fn shift_from(bs: Seq<config::BindingSpec>, k: int, d: int) -> Seq<config::BindingSpec> {
    Seq::new(bs.len(), |m: int| if m >= k { shifted(bs[m], d) } else { bs[m] })
}

/// Taking out a line that starts no section: the lines after it keep their
/// player.
proof fn lemma_player_at_remove(l: Seq<Seq<char>>, i: int, j: int)
    requires
        0 <= i < l.len(),
        config::player_marker(l[i]) is None,
        0 <= j < l.len(),
    ensures
        j <= i ==> config::player_at(l.remove(i), j) == config::player_at(l, j),
        j >= i ==> config::player_at(l.remove(i), j) == config::player_at(l, j + 1),
    decreases j,
{
    let l2 = l.remove(i);
    if j <= i {
        assert(l2.take(j) =~= l.take(j));
        lemma_player_at_prefix(l2, l, j);
    }
    if j > i {
        lemma_player_at_remove(l, i, j - 1);
        assert(l2[j - 1] == l[j]);
    }
}

/// Taking out the binding line `i` takes out that binding and moves the later
/// ones up a line; the macros stay.
proof fn lemma_parse_remove(l: Seq<Seq<char>>, i: int, n: int)
    requires
        0 <= i < l.len(),
        config::player_marker(l[i]) is None,
        config::binding_at(l, i) is Some,
        0 <= n < l.len(),
    ensures
        n <= i ==> config::parse_bindings(l.remove(i), n) == config::parse_bindings(l, n),
        n <= i ==> config::parse_macros(l.remove(i), n) == config::parse_macros(l, n),
        n >= i ==> config::parse_bindings(l.remove(i), n) == shift_from(
            config::parse_bindings(l, n + 1).remove(config::parse_bindings(l, i).len() as int),
            config::parse_bindings(l, i).len() as int,
            -1,
        ),
        n >= i ==> config::parse_macros(l.remove(i), n) == config::parse_macros(l, n + 1),
        n >= i ==> config::parse_bindings(l, n + 1).len() > config::parse_bindings(l, i).len(),
    decreases n,
{
    let l2 = l.remove(i);
    let k = config::parse_bindings(l, i).len() as int;
    if n > 0 {
        lemma_parse_remove(l, i, n - 1);
    }
    if n <= i {
        if n > 0 {
            lemma_player_at_remove(l, i, n - 1);
            assert(l2[n - 1] == l[n - 1]);
            assert(config::binding_at(l2, n - 1) == config::binding_at(l, n - 1));
            assert(config::macro_at(l2, n - 1) == config::macro_at(l, n - 1));
        }
    }
    if n == i {
        assert(config::macro_at(l, i) is None);
        assert(config::parse_bindings(l, i + 1) == config::parse_bindings(l, i).push(
            config::binding_at(l, i)->0,
        ));
        assert(shift_from(config::parse_bindings(l, i + 1).remove(k), k, -1) =~= config::parse_bindings(l, i));
    }
    if n > i {
        let j = n - 1;
        lemma_player_at_remove(l, i, j);
        assert(l2[j] == l[j + 1]);
        let prev2 = config::parse_bindings(l2, j);
        let prev1 = config::parse_bindings(l, j + 1);
        match config::binding_at(l, j + 1) {
            Some(b) => {
                assert(config::binding_at(l2, j) == Some(shifted(b, -1)));
                assert(shift_from(prev1.push(b).remove(k), k, -1) =~= shift_from(prev1.remove(k), k, -1).push(shifted(b, -1)));
            },
            None => {
                assert(config::binding_at(l2, j) is None);
            },
        }
        assert(config::macro_at(l2, j) == config::macro_at(l, j + 1));
    }
}

/// The bindings without those on line `i`, the ones below it a line higher.
pub open spec fn without_line(bs: Seq<config::BindingSpec>, i: int) -> Seq<config::BindingSpec>
    decreases bs.len(),
{
    if bs.len() == 0 {
        bs
    } else {
        let rest = without_line(bs.drop_last(), i);
        let b = bs.last();
        if b.line_index == i {
            rest
        } else if b.line_index > i {
            rest.push(shifted(b, -1))
        } else {
            rest.push(b)
        }
    }
}

proof fn lemma_without_line_above(bs: Seq<config::BindingSpec>, i: int)
    requires
        forall|m: int| 0 <= m < bs.len() ==> (#[trigger] bs[m]).line_index < i,
    ensures
        without_line(bs, i) == bs,
    decreases bs.len(),
{
    if bs.len() > 0 {
        lemma_without_line_above(bs.drop_last(), i);
        assert(bs.drop_last().push(bs.last()) =~= bs);
    }
}

/// With the lines of the bindings strictly increasing and binding `k` on
/// line `i`, dropping line `i` is taking out binding `k` and moving the later
/// ones up a line.
proof fn lemma_without_line(bs: Seq<config::BindingSpec>, i: int, k: int)
    requires
        0 <= k < bs.len(),
        bs[k].line_index == i,
        forall|k1: int, k2: int|
            0 <= k1 < k2 < bs.len() ==> (#[trigger] bs[k1]).line_index < (#[trigger] bs[k2]).line_index,
    ensures
        without_line(bs, i) == shift_from(bs.remove(k), k, -1),
    decreases bs.len(),
{
    let init = bs.drop_last();
    if k == bs.len() - 1 {
        assert forall|m: int| 0 <= m < init.len() implies (#[trigger] init[m]).line_index < i by {
            assert(init[m] == bs[m]);
        }
        lemma_without_line_above(init, i);
        assert(shift_from(bs.remove(k), k, -1) =~= init);
    } else {
        assert(init[k] == bs[k]);
        lemma_without_line(init, i, k);
        assert(bs.last().line_index > i);
        assert(shift_from(bs.remove(k), k, -1) =~= shift_from(init.remove(k), k, -1).push(
            shifted(bs.last(), -1),
        ));
    }
}

/// After `remove_binding` took out a binding line, the bindings are those
/// before without that one, the later ones a line higher; the macros are
/// those before.
pub proof fn law_remove_binding_reads_back(
    before: ButtonConfig,
    after: ButtonConfig,
    line_index: int,
    res: bool,
)
    requires
        before.wf(),
        config::remove_binding_effect(before, after, line_index, res),
    ensures
        res ==> {
            let bb = config::binding_views(before.bindings@);
            let ab = config::binding_views(after.bindings@);
            &&& exists|k: int|
                0 <= k < bb.len() && (#[trigger] bb[k]).line_index == line_index && ab == shift_from(
                    bb.remove(k),
                    k,
                    -1,
                )
            &&& ab == without_line(bb, line_index)
            &&& config::macro_views(after.macros@) == config::macro_views(before.macros@)
        },
{
    if res {
        let l = before.text_lines();
        let bb = config::binding_views(before.bindings@);
        lemma_binding_on_line_index(l, line_index);
        let k = config::parse_bindings(l, line_index).len() as int;
        lemma_parse_bindings_lines(l, l.len() as int);
        lemma_without_line(bb, line_index, k);
        assert(l.len() > 0);
        if line_index == l.len() - 1 {
            // The last line: nothing follows it.
            lemma_parse_remove(l, line_index, line_index);
            assert(l.remove(line_index).len() == line_index);
        } else {
            lemma_parse_remove(l, line_index, l.len() - 1);
        }
        assert(after.text_lines() == l.remove(line_index));
        assert(bb[k].line_index == line_index);
    }
}

/// Putting in a line that starts no section: the lines after it keep their
/// player.
proof fn lemma_player_at_insert(l: Seq<Seq<char>>, pos: int, line: Seq<char>, j: int)
    requires
        0 <= pos <= l.len(),
        config::player_marker(line) is None,
        0 <= j <= l.len() + 1,
    ensures
        j <= pos ==> config::player_at(l.insert(pos, line), j) == config::player_at(l, j),
        j > pos ==> config::player_at(l.insert(pos, line), j) == config::player_at(l, j - 1),
    decreases j,
{
    let l2 = l.insert(pos, line);
    if j <= pos {
        assert(l2.take(j) =~= l.take(j));
        lemma_player_at_prefix(l2, l, j);
    } else {
        lemma_player_at_insert(l, pos, line, j - 1);
        if j - 1 > pos {
            assert(l2[j - 1] == l[j - 2]);
        }
    }
}

/// Putting in a binding line at `pos` adds that binding and moves the later
/// ones down a line; the macros stay.
proof fn lemma_parse_insert(l: Seq<Seq<char>>, pos: int, line: Seq<char>, n: int)
    requires
        0 <= pos <= l.len(),
        config::player_marker(line) is None,
        config::device_entry(line) is Some,
        config::player_at(l, pos) is Some,
        0 <= n <= l.len() + 1,
    ensures
        config::binding_at(l.insert(pos, line), pos) is Some,
        n <= pos ==> config::parse_bindings(l.insert(pos, line), n) == config::parse_bindings(l, n),
        n <= pos ==> config::parse_macros(l.insert(pos, line), n) == config::parse_macros(l, n),
        n > pos ==> config::parse_bindings(l.insert(pos, line), n) == shift_from(
            config::parse_bindings(l, n - 1).insert(
                config::parse_bindings(l, pos).len() as int,
                config::binding_at(l.insert(pos, line), pos)->0,
            ),
            config::parse_bindings(l, pos).len() + 1 as int,
            1,
        ),
        n > pos ==> config::parse_macros(l.insert(pos, line), n) == config::parse_macros(l, n - 1),
        n > pos ==> config::parse_bindings(l, n - 1).len() >= config::parse_bindings(l, pos).len(),
    decreases n,
{
    let l2 = l.insert(pos, line);
    let k = config::parse_bindings(l, pos).len() as int;
    lemma_player_at_insert(l, pos, line, pos);
    assert(l2[pos] == line);
    if n > 0 {
        lemma_parse_insert(l, pos, line, n - 1);
    }
    if n <= pos {
        if n > 0 {
            lemma_player_at_insert(l, pos, line, n - 1);
            assert(l2[n - 1] == l[n - 1]);
            assert(config::binding_at(l2, n - 1) == config::binding_at(l, n - 1));
            assert(config::macro_at(l2, n - 1) == config::macro_at(l, n - 1));
        }
    }
    if n == pos + 1 {
        let nb = config::binding_at(l2, pos)->0;
        assert(config::macro_at(l2, pos) is None);
        assert(shift_from(config::parse_bindings(l, pos).insert(k, nb), k + 1, 1)
            =~= config::parse_bindings(l, pos).push(nb));
    }
    if n > pos + 1 {
        let j = n - 1;
        lemma_player_at_insert(l, pos, line, j);
        assert(l2[j] == l[j - 1]);
        let nb = config::binding_at(l2, pos)->0;
        let prev1 = config::parse_bindings(l, j - 1);
        match config::binding_at(l, j - 1) {
            Some(b) => {
                assert(config::binding_at(l2, j) == Some(shifted(b, 1)));
                assert(shift_from(prev1.push(b).insert(k, nb), k + 1, 1) =~= shift_from(
                    prev1.insert(k, nb),
                    k + 1,
                    1,
                ).push(shifted(b, 1)));
            },
            None => {
                assert(config::binding_at(l2, j) is None);
            },
        }
        assert(config::macro_at(l2, j) == config::macro_at(l, j - 1));
    }
}

/// The first place in a section: the header `Player <n>` sets player `n`.
proof fn lemma_header_sets_player(line: Seq<char>, player: u8)
    requires
        text::trim(line) == config::player_line(player),
    ensures
        config::player_marker(line) == Some(Some(player)),
{
    reveal_strlit("Player ");
    let t = text::trim(line);
    assert(t.take(7) =~= "Player "@);
    assert(t.skip(7) =~= text::dec(player as nat));
    text::lemma_parse_dec(player);
}

proof fn lemma_next_section_range(l: Seq<Seq<char>>, i: int)
    requires
        0 <= i <= l.len(),
    ensures
        i <= config::next_section(l, i) <= l.len(),
        forall|q: int|
            i <= q < config::next_section(l, i) ==> !text::has_prefix(
                text::trim(#[trigger] l[q]),
                "Player "@,
            ),
    decreases l.len() - i,
{
    if i < l.len() && !text::has_prefix(text::trim(l[i]), "Player "@) {
        lemma_next_section_range(l, i + 1);
    }
}

/// Every line of a player's section, and the end of it, is in that player's
/// section.
proof fn lemma_section_players(l: Seq<Seq<char>>, player: u8, j: int)
    requires
        config::section_of(l, player) is Some,
        ({
            let (start, end) = config::section_of(l, player)->0;
            start <= j <= end
        }),
    ensures
        config::player_at(l, j) == Some(player),
    decreases j,
{
    let (start, end) = config::section_of(l, player)->0;
    config::lemma_find_trimmed_range(l, config::player_line(player), 0);
    lemma_next_section_range(l, start);
    if j == start {
        lemma_header_sets_player(l[start - 1], player);
    } else {
        lemma_section_players(l, player, j - 1);
        assert(!text::has_prefix(text::trim(l[j - 1]), "Player "@));
    }
}

proof fn lemma_keyboard_end_found(bs: Seq<config::BindingSpec>, player: u8)
    requires
        config::keyboard_end(bs, player) is Some,
    ensures
        exists|q: int|
            0 <= q < bs.len() && (#[trigger] bs[q]).player == player && bs[q].line_index + 1
                == config::keyboard_end(bs, player)->0,
    decreases bs.len(),
{
    let prev = config::keyboard_end(bs.drop_last(), player);
    let b = bs.last();
    if b.player == player && config::is_keyboard_source(b.source) && (prev is None || prev->0
        <= b.line_index + 1) {
        assert(bs[bs.len() - 1] == b);
    } else {
        lemma_keyboard_end_found(bs.drop_last(), player);
        let q = choose|q: int|
            0 <= q < bs.drop_last().len() && (#[trigger] bs.drop_last()[q]).player == player
                && bs.drop_last()[q].line_index + 1 == prev->0;
        assert(bs[q] == bs.drop_last()[q]);
    }
}

proof fn lemma_last_device_line_range(l: Seq<Seq<char>>, start: int, end: int)
    ensures
        config::last_device_line(l, start, end) matches Some(i) ==> start <= i < end,
    decreases end - start,
{
    if end > start && !text::has_prefix(l[end - 1], "Device "@) {
        lemma_last_device_line_range(l, start, end - 1);
    }
}

/// After `add_keyboard_binding` put a binding line in, the bindings are those
/// before with the new binding (the player, the device it was given, the key
/// and the action) at its place, the later ones a line lower; the macros are
/// those before.
pub proof fn law_add_binding_reads_back(
    before: ButtonConfig,
    after: ButtonConfig,
    player: u8,
    action: Seq<char>,
    source: Seq<char>,
    res: bool,
)
    requires
        before.wf(),
        config::add_binding_effect(before, after, player, action, source, res),
        is_token(action),
        is_token(source),
    ensures
        res ==> {
            let l = before.text_lines();
            let bb = config::binding_views(before.bindings@);
            let ab = config::binding_views(after.bindings@);
            let (start, end) = config::section_of(l, player)->0;
            let added = config::BindingSpec {
                line_index: config::insert_position(l, bb, player, start, end),
                player,
                device: config::new_binding_device(bb, player),
                source,
                action,
            };
            &&& 0 <= added.line_index <= l.len()
            &&& exists|k: int|
                0 <= k <= bb.len() && ab == shift_from(#[trigger] bb.insert(k, added), k + 1, 1)
            &&& config::macro_views(after.macros@) == config::macro_views(before.macros@)
        },
{
    if res {
        let l = before.text_lines();
        let bb = config::binding_views(before.bindings@);
        let (start, end) = config::section_of(l, player)->0;
        let pos = config::insert_position(l, bb, player, start, end);
        let device = config::new_binding_device(bb, player);
        let line = config::device_line(device, source, action);
        config::lemma_find_trimmed_range(l, config::player_line(player), 0);
        lemma_next_section_range(l, start);
        lemma_device_line_reads_back(device, source, action);
        lemma_parse_bindings_lines(l, l.len() as int);
        // The new line stands in the player's section.
        match config::keyboard_end(bb, player) {
            Some(m) => {
                lemma_keyboard_end_found(bb, player);
                let q = choose|q: int|
                    0 <= q < bb.len() && (#[trigger] bb[q]).player == player && bb[q].line_index
                        + 1 == m;
                assert(config::binding_at(l, bb[q].line_index) == Some(bb[q]));
                assert(config::player_at(l, m) == Some(player));
            },
            None => {
                lemma_last_device_line_range(l, start, end);
                lemma_section_players(l, player, pos);
            },
        }
        assert(0 <= pos <= l.len());
        let l2 = l.insert(pos, line);
        assert(after.text_lines() == l2);
        lemma_parse_insert(l, pos, line, l.len() + 1 as int);
        lemma_player_at_insert(l, pos, line, pos);
        let added = config::BindingSpec { line_index: pos, player, device, source, action };
        assert(config::binding_at(l2, pos) == Some(added));
        let k = config::parse_bindings(l, pos).len() as int;
        assert(config::parse_bindings(l, l.len() as int).len() >= k);
        assert(config::binding_views(after.bindings@) == shift_from(bb.insert(k, added), k + 1, 1));
    }
}

/// A binding that stands on `line` is found there.
proof fn lemma_binding_on_line_some(bs: Seq<config::BindingSpec>, k: int)
    requires
        0 <= k < bs.len(),
    ensures
        config::binding_on_line(bs, bs[k].line_index) is Some,
    decreases bs.len(),
{
    if bs[0].line_index != bs[k].line_index {
        assert(k > 0);
        assert(bs.drop_first()[k - 1] == bs[k]);
        lemma_binding_on_line_some(bs.drop_first(), k - 1);
    }
}

/// Removing the binding that `add_keyboard_binding` just put in gives back
/// the document's lines, bindings and macros.
pub proof fn law_remove_undoes_add(
    before: ButtonConfig,
    mid: ButtonConfig,
    after: ButtonConfig,
    player: u8,
    action: Seq<char>,
    source: Seq<char>,
    removed: bool,
)
    requires
        before.wf(),
        config::add_binding_effect(before, mid, player, action, source, true),
        is_token(action),
        is_token(source),
        config::remove_binding_effect(
            mid,
            after,
            ({
                let (start, end) = config::section_of(before.text_lines(), player)->0;
                config::insert_position(
                    before.text_lines(),
                    config::binding_views(before.bindings@),
                    player,
                    start,
                    end,
                )
            }),
            removed,
        ),
    ensures
        removed,
        after.text_lines() == before.text_lines(),
        config::binding_views(after.bindings@) == config::binding_views(before.bindings@),
        config::macro_views(after.macros@) == config::macro_views(before.macros@),
{
    let l = before.text_lines();
    let bb = config::binding_views(before.bindings@);
    let (start, end) = config::section_of(l, player)->0;
    let pos = config::insert_position(l, bb, player, start, end);
    law_add_binding_reads_back(before, mid, player, action, source, true);
    let added = config::BindingSpec {
        line_index: pos,
        player,
        device: config::new_binding_device(bb, player),
        source,
        action,
    };
    let k = choose|k: int|
        0 <= k <= bb.len() && config::binding_views(mid.bindings@) == shift_from(
            #[trigger] bb.insert(k, added),
            k + 1,
            1,
        );
    let mb = config::binding_views(mid.bindings@);
    assert(mb[k] == added);
    lemma_binding_on_line_some(mb, k);
    let line = config::device_line(config::new_binding_device(bb, player), source, action);
    assert(mid.text_lines() == l.insert(pos, line));
    assert(l.insert(pos, line).remove(pos) =~= l);
}

/// Polling again with the same keys held reports no newly pressed key.
pub proof fn law_poll_twice_reports_nothing_new(tokens: Seq<Seq<char>>, down: Seq<Seq<char>>)
    ensures
        keys::newly_pressed_spec(tokens, down, down) == Seq::<Seq<char>>::empty(),
    decreases tokens.len(),
{
    if tokens.len() > 0 {
        law_poll_twice_reports_nothing_new(tokens.drop_last(), down);
    }
}


proof fn lemma_newly_pressed_has(
    tokens: Seq<Seq<char>>,
    down: Seq<Seq<char>>,
    previous: Seq<Seq<char>>,
    a: int,
) -> (i: int)
    requires
        0 <= a < tokens.len(),
        down.contains(tokens[a]),
        !previous.contains(tokens[a]),
    ensures
        0 <= i < keys::newly_pressed_spec(tokens, down, previous).len(),
        keys::newly_pressed_spec(tokens, down, previous)[i] == tokens[a],
        keys::newly_pressed_spec(tokens.take(a + 1), down, previous).len() == i + 1,
    decreases tokens.len(),
{
    let rest = tokens.drop_last();
    if a == tokens.len() - 1 {
        assert(tokens.take(a + 1) =~= tokens);
        keys::newly_pressed_spec(rest, down, previous).len() as int
    } else {
        assert(rest[a] == tokens[a]);
        assert(rest.take(a + 1) =~= tokens.take(a + 1));
        lemma_newly_pressed_has(rest, down, previous, a)
    }
}

proof fn lemma_newly_pressed_prefix(
    tokens: Seq<Seq<char>>,
    down: Seq<Seq<char>>,
    previous: Seq<Seq<char>>,
    n: int,
)
    requires
        0 <= n <= tokens.len(),
    ensures
        keys::newly_pressed_spec(tokens.take(n), down, previous).len()
            <= keys::newly_pressed_spec(tokens, down, previous).len(),
        forall|i: int|
            0 <= i < keys::newly_pressed_spec(tokens.take(n), down, previous).len() ==> (
            #[trigger] keys::newly_pressed_spec(tokens.take(n), down, previous)[i])
                == keys::newly_pressed_spec(tokens, down, previous)[i],
    decreases tokens.len(),
{
    if n == tokens.len() {
        assert(tokens.take(n) =~= tokens);
    } else {
        let rest = tokens.drop_last();
        assert(rest.take(n) =~= tokens.take(n));
        lemma_newly_pressed_prefix(rest, down, previous, n);
    }
}

/// A poll reports the newly pressed keys in the order of the key table:
/// where the keys at places `a` and `b` of the table, `a` before `b`, are
/// both held and were not held at the poll before, the first is reported
/// before the second.
pub proof fn law_poll_reports_in_table_order(
    down: Seq<Seq<char>>,
    previous: Seq<Seq<char>>,
    a: int,
    b: int,
)
    requires
        0 <= a < b < keys::key_tokens().len(),
        down.contains(keys::key_tokens()[a]),
        !previous.contains(keys::key_tokens()[a]),
        down.contains(keys::key_tokens()[b]),
        !previous.contains(keys::key_tokens()[b]),
    ensures
        exists|i: int, j: int|
            0 <= i < j < keys::newly_pressed_spec(keys::key_tokens(), down, previous).len()
                && #[trigger] keys::newly_pressed_spec(keys::key_tokens(), down, previous)[i]
                == keys::key_tokens()[a] && #[trigger] keys::newly_pressed_spec(
                keys::key_tokens(),
                down,
                previous,
            )[j] == keys::key_tokens()[b],
{
    let t = keys::key_tokens();
    let out = keys::newly_pressed_spec(t, down, previous);
    let i = lemma_newly_pressed_has(t, down, previous, a);
    let j = lemma_newly_pressed_has(t, down, previous, b);
    lemma_newly_pressed_prefix(t, down, previous, a + 1);
    lemma_newly_pressed_prefix(t.take(b), down, previous, a + 1);
    assert(t.take(b).take(a + 1) =~= t.take(a + 1));
    let tb = t.take(b + 1);
    assert(tb.drop_last() =~= t.take(b));
    assert(tb.last() == t[b]);
    assert(i < j);
}

/// A left or right Shift, Control or Alt key pressed together with its
/// generic alias is reported before the alias, so that capturing a key takes
/// the specific one.
pub proof fn law_poll_reports_sided_keys_first(
    down: Seq<Seq<char>>,
    previous: Seq<Seq<char>>,
    sided: Seq<char>,
    generic: Seq<char>,
)
    requires
        (sided == "KEY_LSHIFT"@ || sided == "KEY_RSHIFT"@) && generic == "KEY_SHIFT"@ || (sided
            == "KEY_LCONTROL"@ || sided == "KEY_RCONTROL"@) && generic == "KEY_CONTROL"@ || (sided
            == "KEY_LMENU"@ || sided == "KEY_RMENU"@) && generic == "KEY_MENU"@,
        down.contains(sided),
        !previous.contains(sided),
        down.contains(generic),
        !previous.contains(generic),
    ensures
        exists|i: int, j: int|
            0 <= i < j < keys::newly_pressed_spec(keys::key_tokens(), down, previous).len()
                && #[trigger] keys::newly_pressed_spec(keys::key_tokens(), down, previous)[i]
                == sided && #[trigger] keys::newly_pressed_spec(keys::key_tokens(), down, previous)[j]
                == generic,
{
    let t = keys::key_tokens();
    assert(t[69] == "KEY_LSHIFT"@);
    assert(t[70] == "KEY_RSHIFT"@);
    assert(t[81] == "KEY_LCONTROL"@);
    assert(t[82] == "KEY_RCONTROL"@);
    assert(t[84] == "KEY_LMENU"@);
    assert(t[86] == "KEY_RMENU"@);
    assert(t[116] == "KEY_SHIFT"@);
    assert(t[117] == "KEY_CONTROL"@);
    assert(t[118] == "KEY_MENU"@);
    let a: int = if sided == "KEY_LSHIFT"@ {
        69
    } else if sided == "KEY_RSHIFT"@ {
        70
    } else if sided == "KEY_LCONTROL"@ {
        81
    } else if sided == "KEY_RCONTROL"@ {
        82
    } else if sided == "KEY_LMENU"@ {
        84
    } else {
        86
    };
    let b: int = if generic == "KEY_SHIFT"@ {
        116
    } else if generic == "KEY_CONTROL"@ {
        117
    } else {
        118
    };
    law_poll_reports_in_table_order(down, previous, a, b);
}


proof fn lemma_parse_bindings_has(lines: Seq<Seq<char>>, n: int, i: int)
    requires
        0 <= i < n <= lines.len(),
        config::binding_at(lines, i) is Some,
    ensures
        exists|k: int|
            0 <= k < config::parse_bindings(lines, n).len() && #[trigger] config::parse_bindings(
                lines,
                n,
            )[k] == config::binding_at(lines, i)->0,
    decreases n,
{
    let cur = config::parse_bindings(lines, n);
    if i == n - 1 {
        assert(cur[cur.len() - 1] == config::binding_at(lines, i)->0);
    } else {
        lemma_parse_bindings_has(lines, n - 1, i);
        let prev = config::parse_bindings(lines, n - 1);
        let k = choose|k: int| 0 <= k < prev.len() && #[trigger] prev[k] == config::binding_at(lines, i)->0;
        assert(cur[k] == prev[k]);
    }
}

proof fn lemma_parse_macros_lines(lines: Seq<Seq<char>>, n: int)
    requires
        0 <= n <= lines.len(),
    ensures
        forall|k: int|
            0 <= k < config::parse_macros(lines, n).len() ==> exists|i: int|
                0 <= i < n && config::macro_at(lines, i) == Some(
                    #[trigger] config::parse_macros(lines, n)[k],
                ),
        forall|i: int|
            0 <= i < n && (#[trigger] config::macro_at(lines, i)) is Some ==> exists|k: int|
                0 <= k < config::parse_macros(lines, n).len() && config::parse_macros(lines, n)[k]
                    == config::macro_at(lines, i)->0,
    decreases n,
{
    if n > 0 {
        lemma_parse_macros_lines(lines, n - 1);
        let prev = config::parse_macros(lines, n - 1);
        let cur = config::parse_macros(lines, n);
        assert forall|k: int| 0 <= k < cur.len() implies exists|i: int|
            0 <= i < n && config::macro_at(lines, i) == Some(#[trigger] cur[k]) by {
            if k < prev.len() {
                assert(cur[k] == prev[k]);
                let i = choose|i: int| 0 <= i < n - 1 && config::macro_at(lines, i) == Some(prev[k]);
            } else {
                assert(config::macro_at(lines, n - 1) == Some(cur[k]));
            }
        }
        assert forall|i: int| 0 <= i < n && (#[trigger] config::macro_at(lines, i)) is Some implies exists|k: int|
            0 <= k < cur.len() && cur[k] == config::macro_at(lines, i)->0 by {
            if i < n - 1 {
                let k = choose|k: int| 0 <= k < prev.len() && prev[k] == config::macro_at(lines, i)->0;
                assert(cur[k] == prev[k]);
            } else {
                assert(cur[cur.len() - 1] == config::macro_at(lines, i)->0);
            }
        }
    }
}

/// The bindings of a document are its binding lines: each stands on a line
/// that holds it, in line order, and each line that holds a binding (a
/// `Device` line in a player's section) gives one. The macros are likewise
/// its macro lines: each is what some line holds, and each line that holds
/// one gives one.
pub proof fn law_parse_gives_the_lines(doc: ButtonConfig)
    requires
        doc.wf(),
    ensures
        ({
            let l = doc.text_lines();
            let bb = config::binding_views(doc.bindings@);
            let mm = config::macro_views(doc.macros@);
            &&& forall|k: int|
                0 <= k < bb.len() ==> 0 <= (#[trigger] bb[k]).line_index < l.len()
                    && config::binding_at(l, bb[k].line_index) == Some(bb[k])
            &&& forall|k1: int, k2: int|
                0 <= k1 < k2 < bb.len() ==> (#[trigger] bb[k1]).line_index < (#[trigger] bb[k2]).line_index
            &&& forall|i: int|
                0 <= i < l.len() && (#[trigger] config::binding_at(l, i)) is Some ==> exists|k: int|
                    0 <= k < bb.len() && bb[k] == config::binding_at(l, i)->0
            &&& forall|k: int|
                0 <= k < mm.len() ==> exists|i: int|
                    0 <= i < l.len() && config::macro_at(l, i) == Some(#[trigger] mm[k])
            &&& forall|i: int|
                0 <= i < l.len() && (#[trigger] config::macro_at(l, i)) is Some ==> exists|k: int|
                    0 <= k < mm.len() && mm[k] == config::macro_at(l, i)->0
        }),
{
    let l = doc.text_lines();
    lemma_parse_bindings_lines(l, l.len() as int);
    lemma_parse_macros_lines(l, l.len() as int);
    assert forall|i: int|
        0 <= i < l.len() && (#[trigger] config::binding_at(l, i)) is Some implies exists|k: int|
        0 <= k < config::all_bindings(l).len() && config::all_bindings(l)[k] == config::binding_at(l, i)->0 by {
        lemma_parse_bindings_has(l, l.len() as int, i);
    }
}


// ---------------------------------------------------------------------------
// Macro inputs
// ---------------------------------------------------------------------------

/// A direction is named in a macro by its whole name or by its first letter,
/// and either stands for the direction's action.
pub proof fn law_directions_by_either_name(d: Seq<char>)
    requires
        d == "Up"@ || d == "Down"@ || d == "Left"@ || d == "Right"@,
    ensures
        config::normalize_spec(d) == Some(d),
        config::normalize_spec(d.take(1)) == Some(d),
{
    reveal_strlit("N");
    reveal_strlit("Neutral");
    reveal_strlit("U");
    reveal_strlit("Up");
    reveal_strlit("D");
    reveal_strlit("Down");
    reveal_strlit("L");
    reveal_strlit("Left");
    reveal_strlit("R");
    reveal_strlit("Right");
    let names: Seq<Seq<char>> = seq!["N"@, "Neutral"@, "U"@, "Up"@, "D"@, "Down"@, "L"@, "Left"@, "R"@, "Right"@];
    assert forall|a: int, b: int| 0 <= a < b < names.len() implies #[trigger] names[a] != #[trigger] names[b] by {
        if names[a].len() == names[b].len() {
            assert(names[a][0] != names[b][0]);
        }
    }
    if d == "Up"@ {
        assert(d.take(1) =~= "U"@);
        assert(names[3] == d && names[2] == d.take(1));
    } else if d == "Down"@ {
        assert(d.take(1) =~= "D"@);
        assert(names[5] == d && names[4] == d.take(1));
    } else if d == "Left"@ {
        assert(d.take(1) =~= "L"@);
        assert(names[7] == d && names[6] == d.take(1));
    } else {
        assert(d.take(1) =~= "R"@);
        assert(names[9] == d && names[8] == d.take(1));
    }
}

/// Neutral, by either name, stands for no action; an attack input
/// (`Atk...`) stands for that attack.
pub proof fn law_neutral_and_attack_inputs(input: Seq<char>)
    ensures
        input == "N"@ || input == "Neutral"@ ==> config::normalize_spec(input) is None,
        text::has_prefix(input, "Atk"@) ==> config::normalize_spec(input) == Some(input),
{
    reveal_strlit("N");
    reveal_strlit("Neutral");
    reveal_strlit("U");
    reveal_strlit("Up");
    reveal_strlit("D");
    reveal_strlit("Down");
    reveal_strlit("L");
    reveal_strlit("Left");
    reveal_strlit("R");
    reveal_strlit("Right");
    reveal_strlit("Atk");
    if text::has_prefix(input, "Atk"@) {
        assert(input.take(3)[0] == "Atk"@[0]);
        assert(input[0] == 'A');
        assert(input != "N"@ && input != "Neutral"@ && input != "U"@ && input != "Up"@);
        assert(input != "D"@ && input != "Down"@ && input != "L"@ && input != "Left"@);
        assert(input != "R"@ && input != "Right"@);
    }
}

/// Every input of a macro that stands for an action puts that action among
/// the macro's actions.
proof fn lemma_normalized_has(inputs: Seq<Seq<char>>, i: int)
    requires
        0 <= i < inputs.len(),
        config::normalize_spec(inputs[i]) is Some,
    ensures
        config::normalized(inputs).contains(config::normalize_spec(inputs[i])->0),
    decreases inputs.len(),
{
    let init = inputs.drop_last();
    if i == inputs.len() - 1 {
        let n = config::normalized(inputs);
        assert(n[n.len() - 1] == config::normalize_spec(inputs[i])->0);
    } else {
        assert(init[i] == inputs[i]);
        lemma_normalized_has(init, i);
        let a = config::normalize_spec(inputs[i])->0;
        let p = choose|p: int| 0 <= p < config::normalized(init).len() && config::normalized(init)[p] == a;
        assert(config::normalized(inputs)[p] == a);
    }
}

/// A macro that lists a direction, by its whole name or its first letter,
/// runs that direction's action.
pub proof fn law_macro_listing_a_direction_runs_it(inputs: Seq<Seq<char>>, i: int, d: Seq<char>)
    requires
        d == "Up"@ || d == "Down"@ || d == "Left"@ || d == "Right"@,
        0 <= i < inputs.len(),
        inputs[i] == d || inputs[i] == d.take(1),
    ensures
        config::normalized(inputs).contains(d),
{
    law_directions_by_either_name(d);
    lemma_normalized_has(inputs, i);
}

// ---------------------------------------------------------------------------
// The device of an added binding
// ---------------------------------------------------------------------------

proof fn lemma_first_keyboard_device(bs: Seq<config::BindingSpec>, player: u8, k: int)
    requires
        0 <= k < bs.len(),
        bs[k].player == player,
        text::has_prefix(bs[k].source, "KEY_"@),
        forall|j: int|
            0 <= j < k ==> !((#[trigger] bs[j]).player == player && text::has_prefix(
                bs[j].source,
                "KEY_"@,
            )),
    ensures
        config::first_keyboard_device(bs, player) == Some(bs[k].device),
    decreases k,
{
    if k > 0 {
        assert(!(bs[0].player == player && text::has_prefix(bs[0].source, "KEY_"@)));
        assert forall|j: int|
            0 <= j < k - 1 implies !((#[trigger] bs.drop_first()[j]).player == player
            && text::has_prefix(bs.drop_first()[j].source, "KEY_"@)) by {
            assert(bs.drop_first()[j] == bs[j + 1]);
        }
        lemma_first_keyboard_device(bs.drop_first(), player, k - 1);
    }
}

proof fn lemma_no_keyboard_device(bs: Seq<config::BindingSpec>, player: u8)
    requires
        forall|j: int|
            0 <= j < bs.len() ==> !((#[trigger] bs[j]).player == player && text::has_prefix(
                bs[j].source,
                "KEY_"@,
            )),
    ensures
        config::first_keyboard_device(bs, player) is None,
    decreases bs.len(),
{
    if bs.len() > 0 {
        assert(!(bs[0].player == player && text::has_prefix(bs[0].source, "KEY_"@)));
        assert forall|j: int| 0 <= j < bs.len() - 1 implies !((#[trigger] bs.drop_first()[j]).player
            == player && text::has_prefix(bs.drop_first()[j].source, "KEY_"@)) by {
            assert(bs.drop_first()[j] == bs[j + 1]);
        }
        lemma_no_keyboard_device(bs.drop_first(), player);
    }
}

/// The place a new binding of `player` goes to is within the document.
proof fn lemma_insert_position_range(before: ButtonConfig, player: u8)
    requires
        before.wf(),
        config::section_of(before.text_lines(), player) is Some,
    ensures
        ({
            let l = before.text_lines();
            let (start, end) = config::section_of(l, player)->0;
            let pos = config::insert_position(l, config::binding_views(before.bindings@), player, start, end);
            0 <= pos <= l.len()
        }),
{
    let l = before.text_lines();
    let bb = config::binding_views(before.bindings@);
    let (start, end) = config::section_of(l, player)->0;
    let pos = config::insert_position(l, bb, player, start, end);
    config::lemma_find_trimmed_range(l, config::player_line(player), 0);
    lemma_next_section_range(l, start);
    lemma_parse_bindings_lines(l, l.len() as int);
    match config::keyboard_end(bb, player) {
        Some(m) => {
            lemma_keyboard_end_found(bb, player);
            let q = choose|q: int|
                0 <= q < bb.len() && (#[trigger] bb[q]).player == player && bb[q].line_index + 1 == m;
            assert(config::binding_at(l, bb[q].line_index) == Some(bb[q]));
        },
        None => {
            lemma_last_device_line_range(l, start, end);
        },
    }
}

/// A binding that `add_keyboard_binding` puts in uses the device of the
/// player's first keyboard binding, so that the player's keys stay on one
/// device; only a player with no keyboard binding gets device `6 + player`.
pub proof fn law_added_binding_uses_the_players_device(
    before: ButtonConfig,
    after: ButtonConfig,
    player: u8,
    action: Seq<char>,
    source: Seq<char>,
)
    requires
        before.wf(),
        config::add_binding_effect(before, after, player, action, source, true),
    ensures
        ({
            let bb = config::binding_views(before.bindings@);
            &&& forall|k: int|
                0 <= k < bb.len() && (#[trigger] bb[k]).player == player && text::has_prefix(
                    bb[k].source,
                    "KEY_"@,
                ) && (forall|j: int|
                    0 <= j < k ==> !((#[trigger] bb[j]).player == player && text::has_prefix(
                        bb[j].source,
                        "KEY_"@,
                    ))) ==> exists|pos: int|
                    0 <= pos <= before.text_lines().len() && after.text_lines()
                        == #[trigger] before.text_lines().insert(
                        pos,
                        config::device_line(bb[k].device, source, action),
                    )
            &&& (player <= 249 && forall|j: int|
                0 <= j < bb.len() ==> !((#[trigger] bb[j]).player == player && text::has_prefix(
                    bb[j].source,
                    "KEY_"@,
                ))) ==> exists|pos: int|
                0 <= pos <= before.text_lines().len() && after.text_lines()
                    == #[trigger] before.text_lines().insert(
                    pos,
                    config::device_line((6 + player) as u8, source, action),
                )
        }),
{
    let bb = config::binding_views(before.bindings@);
    let l = before.text_lines();
    let (start, end) = config::section_of(l, player)->0;
    let pos = config::insert_position(l, bb, player, start, end);
    lemma_insert_position_range(before, player);
    assert forall|k: int|
        0 <= k < bb.len() && (#[trigger] bb[k]).player == player && text::has_prefix(
            bb[k].source,
            "KEY_"@,
        ) && (forall|j: int|
            0 <= j < k ==> !((#[trigger] bb[j]).player == player && text::has_prefix(
                bb[j].source,
                "KEY_"@,
            ))) implies exists|pos: int|
        0 <= pos <= l.len() && after.text_lines() == #[trigger] l.insert(
            pos,
            config::device_line(bb[k].device, source, action),
        ) by {
        lemma_first_keyboard_device(bb, player, k);
        assert(after.text_lines() == l.insert(pos, config::device_line(bb[k].device, source, action)));
    }
    if player <= 249 && forall|j: int|
        0 <= j < bb.len() ==> !((#[trigger] bb[j]).player == player && text::has_prefix(
            bb[j].source,
            "KEY_"@,
        )) {
        lemma_no_keyboard_device(bb, player);
        assert(after.text_lines() == l.insert(
            pos,
            config::device_line((6 + player) as u8, source, action),
        ));
    }
}

// ---------------------------------------------------------------------------
// Selections of bindings
// ---------------------------------------------------------------------------

/// A keyboard binding of `player`.
pub open spec fn is_players_key(b: config::BindingSpec, player: u8) -> bool {
    b.player == player && text::has_prefix(b.source, "KEY_"@)
}

proof fn lemma_keyboard_of_sound(bs: Seq<config::BindingSpec>, player: u8)
    ensures
        forall|p: int|
            0 <= p < config::keyboard_of(bs, player).len() ==> is_players_key(
                #[trigger] config::keyboard_of(bs, player)[p],
                player,
            ) && exists|i: int| 0 <= i < bs.len() && bs[i] == config::keyboard_of(bs, player)[p],
    decreases bs.len(),
{
    if bs.len() > 0 {
        let init = bs.drop_last();
        lemma_keyboard_of_sound(init, player);
        let r = config::keyboard_of(bs, player);
        let ri = config::keyboard_of(init, player);
        assert forall|p: int| 0 <= p < r.len() implies is_players_key(#[trigger] r[p], player)
            && exists|i: int| 0 <= i < bs.len() && bs[i] == r[p] by {
            if p < ri.len() {
                assert(r[p] == ri[p]);
                let i = choose|i: int| 0 <= i < init.len() && init[i] == ri[p];
                assert(bs[i] == init[i]);
            } else {
                assert(r[p] == bs[bs.len() - 1]);
            }
        }
    }
}

proof fn lemma_keyboard_of_has(bs: Seq<config::BindingSpec>, player: u8, i: int) -> (p: int)
    requires
        0 <= i < bs.len(),
        is_players_key(bs[i], player),
    ensures
        0 <= p < config::keyboard_of(bs, player).len(),
        config::keyboard_of(bs, player)[p] == bs[i],
        p < config::keyboard_of(bs.take(i + 1), player).len(),
    decreases bs.len(),
{
    let init = bs.drop_last();
    if i == bs.len() - 1 {
        assert(bs.take(i + 1) =~= bs);
        config::keyboard_of(init, player).len() as int
    } else {
        assert(init[i] == bs[i]);
        assert(init.take(i + 1) =~= bs.take(i + 1));
        lemma_keyboard_of_has(init, player, i)
    }
}

proof fn lemma_keyboard_of_order(bs: Seq<config::BindingSpec>, player: u8, i: int, j: int)
    requires
        0 <= i < j < bs.len(),
        is_players_key(bs[i], player),
        is_players_key(bs[j], player),
    ensures
        exists|p: int, q: int|
            0 <= p < q < config::keyboard_of(bs, player).len() && config::keyboard_of(bs, player)[p]
                == bs[i] && config::keyboard_of(bs, player)[q] == bs[j],
    decreases bs.len(),
{
    let init = bs.drop_last();
    assert(init[i] == bs[i]);
    if j == bs.len() - 1 {
        let p = lemma_keyboard_of_has(init, player, i);
        let q = config::keyboard_of(init, player).len() as int;
        assert(config::keyboard_of(bs, player)[p] == bs[i]);
        assert(config::keyboard_of(bs, player)[q] == bs[j]);
    } else {
        assert(init[j] == bs[j]);
        lemma_keyboard_of_order(init, player, i, j);
        let (p, q) = choose|p: int, q: int|
            0 <= p < q < config::keyboard_of(init, player).len() && config::keyboard_of(init, player)[p]
                == bs[i] && config::keyboard_of(init, player)[q] == bs[j];
        assert(config::keyboard_of(bs, player)[p] == bs[i]);
        assert(config::keyboard_of(bs, player)[q] == bs[j]);
    }
}

/// A player's keyboard list holds only that player's keyboard bindings, each
/// one of the document's; every keyboard binding of the player is in it, and
/// in the document's order.
pub proof fn law_keyboard_list_is_the_players_keys(bs: Seq<config::BindingSpec>, player: u8)
    ensures
        ({
            let r = config::keyboard_of(bs, player);
            &&& forall|p: int|
                0 <= p < r.len() ==> (#[trigger] r[p]).player == player && text::has_prefix(
                    r[p].source,
                    "KEY_"@,
                ) && exists|i: int| 0 <= i < bs.len() && bs[i] == r[p]
            &&& forall|i: int|
                0 <= i < bs.len() && (#[trigger] bs[i]).player == player && text::has_prefix(
                    bs[i].source,
                    "KEY_"@,
                ) ==> exists|p: int| 0 <= p < r.len() && r[p] == bs[i]
            &&& forall|i: int, j: int|
                0 <= i < j < bs.len() && is_players_key(#[trigger] bs[i], player) && is_players_key(
                    #[trigger] bs[j],
                    player,
                ) ==> exists|p: int, q: int| 0 <= p < q < r.len() && r[p] == bs[i] && r[q] == bs[j]
        }),
{
    let r = config::keyboard_of(bs, player);
    lemma_keyboard_of_sound(bs, player);
    assert forall|i: int|
        0 <= i < bs.len() && (#[trigger] bs[i]).player == player && text::has_prefix(
            bs[i].source,
            "KEY_"@,
        ) implies exists|p: int| 0 <= p < r.len() && r[p] == bs[i] by {
        lemma_keyboard_of_has(bs, player, i);
    }
    assert forall|i: int, j: int|
        0 <= i < j < bs.len() && is_players_key(#[trigger] bs[i], player) && is_players_key(
            #[trigger] bs[j],
            player,
        ) implies exists|p: int, q: int| 0 <= p < q < r.len() && r[p] == bs[i] && r[q] == bs[j] by {
        lemma_keyboard_of_order(bs, player, i, j);
    }
}

proof fn lemma_with_action_sound(bs: Seq<config::BindingSpec>, action: Seq<char>)
    ensures
        forall|p: int|
            0 <= p < studio::with_action(bs, action).len() ==> (#[trigger] studio::with_action(
                bs,
                action,
            )[p]).action == action && exists|i: int|
                0 <= i < bs.len() && bs[i] == studio::with_action(bs, action)[p],
    decreases bs.len(),
{
    if bs.len() > 0 {
        let init = bs.drop_last();
        lemma_with_action_sound(init, action);
        let r = studio::with_action(bs, action);
        let ri = studio::with_action(init, action);
        assert forall|p: int| 0 <= p < r.len() implies (#[trigger] r[p]).action == action && exists|
            i: int,
        | 0 <= i < bs.len() && bs[i] == r[p] by {
            if p < ri.len() {
                assert(r[p] == ri[p]);
                let i = choose|i: int| 0 <= i < init.len() && init[i] == ri[p];
                assert(bs[i] == init[i]);
            } else {
                assert(r[p] == bs[bs.len() - 1]);
            }
        }
    }
}

proof fn lemma_with_action_has(bs: Seq<config::BindingSpec>, action: Seq<char>, i: int) -> (p: int)
    requires
        0 <= i < bs.len(),
        bs[i].action == action,
    ensures
        0 <= p < studio::with_action(bs, action).len(),
        studio::with_action(bs, action)[p] == bs[i],
    decreases bs.len(),
{
    let init = bs.drop_last();
    if i == bs.len() - 1 {
        studio::with_action(init, action).len() as int
    } else {
        assert(init[i] == bs[i]);
        lemma_with_action_has(init, action, i)
    }
}

proof fn lemma_with_action_order(bs: Seq<config::BindingSpec>, action: Seq<char>, i: int, j: int)
    requires
        0 <= i < j < bs.len(),
        bs[i].action == action,
        bs[j].action == action,
    ensures
        exists|p: int, q: int|
            0 <= p < q < studio::with_action(bs, action).len() && studio::with_action(bs, action)[p]
                == bs[i] && studio::with_action(bs, action)[q] == bs[j],
    decreases bs.len(),
{
    let init = bs.drop_last();
    assert(init[i] == bs[i]);
    if j == bs.len() - 1 {
        let p = lemma_with_action_has(init, action, i);
        let q = studio::with_action(init, action).len() as int;
        assert(studio::with_action(bs, action)[p] == bs[i]);
        assert(studio::with_action(bs, action)[q] == bs[j]);
    } else {
        assert(init[j] == bs[j]);
        lemma_with_action_order(init, action, i, j);
        let (p, q) = choose|p: int, q: int|
            0 <= p < q < studio::with_action(init, action).len() && studio::with_action(init, action)[p]
                == bs[i] && studio::with_action(init, action)[q] == bs[j];
        assert(studio::with_action(bs, action)[p] == bs[i]);
        assert(studio::with_action(bs, action)[q] == bs[j]);
    }
}

/// The bindings shown for an action are exactly that action's bindings:
/// each has that action (no other action whose name merely begins the same)
/// and is one of the document's; every binding of the action is shown, in
/// the document's order.
pub proof fn law_bindings_for_action_are_exact(bs: Seq<config::BindingSpec>, action: Seq<char>)
    ensures
        ({
            let r = studio::with_action(bs, action);
            &&& forall|p: int|
                0 <= p < r.len() ==> (#[trigger] r[p]).action == action && exists|i: int|
                    0 <= i < bs.len() && bs[i] == r[p]
            &&& forall|i: int|
                0 <= i < bs.len() && (#[trigger] bs[i]).action == action ==> exists|p: int|
                    0 <= p < r.len() && r[p] == bs[i]
            &&& forall|i: int, j: int|
                0 <= i < j < bs.len() && (#[trigger] bs[i]).action == action && (#[trigger] bs[j]).action
                    == action ==> exists|p: int, q: int|
                    0 <= p < q < r.len() && r[p] == bs[i] && r[q] == bs[j]
        }),
{
    let r = studio::with_action(bs, action);
    lemma_with_action_sound(bs, action);
    assert forall|i: int| 0 <= i < bs.len() && (#[trigger] bs[i]).action == action implies exists|
        p: int,
    | 0 <= p < r.len() && r[p] == bs[i] by {
        lemma_with_action_has(bs, action, i);
    }
    assert forall|i: int, j: int|
        0 <= i < j < bs.len() && (#[trigger] bs[i]).action == action && (#[trigger] bs[j]).action
            == action implies exists|p: int, q: int|
        0 <= p < q < r.len() && r[p] == bs[i] && r[q] == bs[j] by {
        lemma_with_action_order(bs, action, i, j);
    }
}

// ---------------------------------------------------------------------------
// Conflicts
// ---------------------------------------------------------------------------

/// A keyboard binding on `key`, a key other than `KEY_NONE`.
pub open spec fn conflicts_on(b: config::BindingSpec, key: Seq<char>) -> bool {
    b.source == key && text::has_prefix(key, "KEY_"@) && key != "KEY_NONE"@
}

proof fn lemma_candidate_has(bs: Seq<config::BindingSpec>, key: Seq<char>, i: int) -> (p: int)
    requires
        0 <= i < bs.len(),
        conflicts_on(bs[i], key),
    ensures
        0 <= p < config::conflict_candidates(bs).len(),
        config::conflict_candidates(bs)[p] == bs[i],
        0 <= p < config::with_source(config::conflict_candidates(bs), key).len() ==> true,
    decreases bs.len(),
{
    let init = bs.drop_last();
    if i == bs.len() - 1 {
        config::conflict_candidates(init).len() as int
    } else {
        assert(init[i] == bs[i]);
        lemma_candidate_has(init, key, i)
    }
}

proof fn lemma_keyed_has(bs: Seq<config::BindingSpec>, key: Seq<char>, i: int) -> (p: int)
    requires
        0 <= i < bs.len(),
        conflicts_on(bs[i], key),
    ensures
        0 <= p < config::with_source(config::conflict_candidates(bs), key).len(),
        config::with_source(config::conflict_candidates(bs), key)[p] == bs[i],
    decreases bs.len(),
{
    let init = bs.drop_last();
    let ci = config::conflict_candidates(init);
    if i == bs.len() - 1 {
        assert(config::conflict_candidates(bs) == ci.push(bs[i]));
        assert(ci.push(bs[i]).drop_last() =~= ci);
        config::with_source(ci, key).len() as int
    } else {
        assert(init[i] == bs[i]);
        let p = lemma_keyed_has(init, key, i);
        let b = bs.last();
        if text::has_prefix(b.source, "KEY_"@) && b.source != "KEY_NONE"@ {
            assert(ci.push(b).drop_last() =~= ci);
        }
        p
    }
}

proof fn lemma_keyed_order(bs: Seq<config::BindingSpec>, key: Seq<char>, i: int, j: int)
    requires
        0 <= i < j < bs.len(),
        conflicts_on(bs[i], key),
        conflicts_on(bs[j], key),
    ensures
        exists|p: int, q: int|
            0 <= p < q < config::with_source(config::conflict_candidates(bs), key).len()
                && config::with_source(config::conflict_candidates(bs), key)[p] == bs[i]
                && config::with_source(config::conflict_candidates(bs), key)[q] == bs[j],
    decreases bs.len(),
{
    let init = bs.drop_last();
    let ci = config::conflict_candidates(init);
    let b = bs.last();
    assert(init[i] == bs[i]);
    if text::has_prefix(b.source, "KEY_"@) && b.source != "KEY_NONE"@ {
        assert(ci.push(b).drop_last() =~= ci);
    }
    let w = config::with_source(config::conflict_candidates(bs), key);
    let wi = config::with_source(ci, key);
    if j == bs.len() - 1 {
        let p = lemma_keyed_has(init, key, i);
        let q = wi.len() as int;
        assert(w[p] == bs[i]);
        assert(w[q] == bs[j]);
    } else {
        assert(init[j] == bs[j]);
        lemma_keyed_order(init, key, i, j);
        let (p, q) = choose|p: int, q: int|
            0 <= p < q < wi.len() && wi[p] == bs[i] && wi[q] == bs[j];
        assert(w[p] == bs[i]);
        assert(w[q] == bs[j]);
    }
}

/// Two keyboard bindings on the same key, any key but `KEY_NONE`, conflict:
/// the conflict groups have a group for that key, and it holds both, in
/// the document's order.
pub proof fn law_shared_keys_are_grouped(
    bs: Seq<config::BindingSpec>,
    gs: Seq<config::ConflictGroupSpec>,
    key: Seq<char>,
    i: int,
    j: int,
)
    requires
        config::conflict_groups_of(bs, gs),
        0 <= i < j < bs.len(),
        bs[i].source == key,
        bs[j].source == key,
        text::has_prefix(key, "KEY_"@),
        key != "KEY_NONE"@,
    ensures
        exists|g: int|
            0 <= g < gs.len() && (#[trigger] gs[g]).key == key && exists|p: int, q: int|
                0 <= p < q < gs[g].members.len() && gs[g].members[p] == bs[i] && gs[g].members[q]
                    == bs[j],
{
    let cand = config::conflict_candidates(bs);
    let k = lemma_candidate_has(bs, key, i);
    lemma_keyed_order(bs, key, i, j);
    assert(cand[k].source == key);
    assert(config::with_source(cand, cand[k].source).len() > 1);
    assert(config::has_group(gs, cand[k].source));
    let g = choose|g: int| 0 <= g < gs.len() && (#[trigger] gs[g]).key == key;
    assert(gs[g].members == config::with_source(cand, key));
}

} // verus!
