//! Character-level text helpers with their specifications.
//!
//! These mirror the `str` operations that the configuration format relies
//! on (`trim`, `split_whitespace`, `parse::<u8>`, `lines`, ...), stated over
//! sequences of characters.

use vstd::prelude::*;

verus! {

/// `String::push` appends one character at the end of the string.
pub assume_specification[ String::push ](s: &mut String, ch: char)
    ensures
        final(s)@ == old(s)@.push(ch),
;

// ---------------------------------------------------------------------------
// Whitespace
// ---------------------------------------------------------------------------

/// The Unicode `White_Space` property, as tested by `char::is_whitespace`.
pub open spec fn is_ws(c: char) -> bool {
    ||| ('\u{9}' <= c && c <= '\u{d}')
    ||| c == ' '
    ||| c == '\u{85}'
    ||| c == '\u{a0}'
    ||| c == '\u{1680}'
    ||| ('\u{2000}' <= c && c <= '\u{200a}')
    ||| c == '\u{2028}'
    ||| c == '\u{2029}'
    ||| c == '\u{202f}'
    ||| c == '\u{205f}'
    ||| c == '\u{3000}'
}

pub fn is_whitespace(c: char) -> (res: bool)
    ensures
        res == is_ws(c),
{
    ('\u{9}' <= c && c <= '\u{d}') || c == ' ' || c == '\u{85}' || c == '\u{a0}' || c
        == '\u{1680}' || ('\u{2000}' <= c && c <= '\u{200a}') || c == '\u{2028}' || c
        == '\u{2029}' || c == '\u{202f}' || c == '\u{205f}' || c == '\u{3000}'
}

/// No character of `s` is whitespace.
pub open spec fn no_ws(s: Seq<char>) -> bool {
    forall|i: int| 0 <= i < s.len() ==> !is_ws(#[trigger] s[i])
}

// ---------------------------------------------------------------------------
// Conversions between strings and character vectors
// ---------------------------------------------------------------------------

/// The characters of `s`, in order.
pub fn chars_of(s: &str) -> (v: Vec<char>)
    ensures
        v@ == s@,
{
    let mut v: Vec<char> = Vec::new();
    for c in it: s.chars()
        invariant
            v@ == it.seq().take(it.index() as int),
    {
        v.push(c);
    }
    v
}

/// A string made of the characters of `v`.
pub fn string_from(v: &[char]) -> (s: String)
    ensures
        s@ == v@,
{
    let mut s = String::new();
    let mut i: usize = 0;
    while i < v.len()
        invariant
            i <= v.len(),
            s@ == v@.take(i as int),
        decreases v.len() - i,
    {
        s.push(v[i]);
        i = i + 1;
        assert(v@.take(i as int) =~= v@.take(i - 1).push(v@[i - 1]));
    }
    assert(v@.take(v.len() as int) =~= v@);
    s
}

/// `v` holds exactly the characters of `lit`.
pub fn chars_eq_str(v: &[char], lit: &str) -> (res: bool)
    ensures
        res == (v@ == lit@),
{
    let n = lit.unicode_len();
    if v.len() != n {
        return false;
    }
    let mut i: usize = 0;
    while i < n
        invariant
            n == lit@.len(),
            v.len() == n,
            i <= n,
            forall|j: int| 0 <= j < i ==> v@[j] == lit@[j],
        decreases n - i,
    {
        if v[i] != lit.get_char(i) {
            return false;
        }
        i = i + 1;
    }
    assert(v@ =~= lit@);
    true
}

/// Two character sequences are equal.
pub fn chars_eq(a: &[char], b: &[char]) -> (res: bool)
    ensures
        res == (a@ == b@),
{
    if a.len() != b.len() {
        return false;
    }
    let mut i: usize = 0;
    while i < a.len()
        invariant
            a.len() == b.len(),
            i <= a.len(),
            forall|j: int| 0 <= j < i ==> a@[j] == b@[j],
        decreases a.len() - i,
    {
        if a[i] != b[i] {
            return false;
        }
        i = i + 1;
    }
    assert(a@ =~= b@);
    true
}

/// `prefix` is a prefix of `s`.
pub open spec fn has_prefix(s: Seq<char>, prefix: Seq<char>) -> bool {
    prefix.len() <= s.len() && s.take(prefix.len() as int) == prefix
}

/// `v` starts with the characters of `lit`.
pub fn starts_with_str(v: &[char], lit: &str) -> (res: bool)
    ensures
        res == has_prefix(v@, lit@),
{
    let n = lit.unicode_len();
    if v.len() < n {
        return false;
    }
    let mut i: usize = 0;
    while i < n
        invariant
            n == lit@.len(),
            n <= v.len(),
            i <= n,
            forall|j: int| 0 <= j < i ==> v@[j] == lit@[j],
        decreases n - i,
    {
        if v[i] != lit.get_char(i) {
            assert(v@.take(n as int)[i as int] != lit@[i as int]);
            return false;
        }
        i = i + 1;
    }
    assert(v@.take(n as int) =~= lit@);
    true
}

// ---------------------------------------------------------------------------
// Trimming
// ---------------------------------------------------------------------------

/// `s` without its leading whitespace.
pub open spec fn trim_start(s: Seq<char>) -> Seq<char>
    decreases s.len(),
{
    if s.len() > 0 && is_ws(s[0]) {
        trim_start(s.drop_first())
    } else {
        s
    }
}

/// `s` without its trailing whitespace.
pub open spec fn trim_end(s: Seq<char>) -> Seq<char>
    decreases s.len(),
{
    if s.len() > 0 && is_ws(s.last()) {
        trim_end(s.drop_last())
    } else {
        s
    }
}

/// `str::trim`: `s` without leading and trailing whitespace.
pub open spec fn trim(s: Seq<char>) -> Seq<char> {
    trim_end(trim_start(s))
}

proof fn lemma_trim_start_skip(s: Seq<char>, a: int)
    requires
        0 <= a <= s.len(),
        forall|j: int| 0 <= j < a ==> is_ws(#[trigger] s[j]),
        a == s.len() || !is_ws(s[a]),
    ensures
        trim_start(s) == s.skip(a),
    decreases a,
{
    if a == 0 {
        assert(s.skip(0) =~= s);
    } else {
        let t = s.drop_first();
        assert forall|j: int| 0 <= j < a - 1 implies is_ws(#[trigger] t[j]) by {
            assert(t[j] == s[j + 1]);
        }
        lemma_trim_start_skip(t, a - 1);
        assert(t.skip(a - 1) =~= s.skip(a));
    }
}

proof fn lemma_trim_end_take(s: Seq<char>, b: int)
    requires
        0 <= b <= s.len(),
        forall|j: int| b <= j < s.len() ==> is_ws(#[trigger] s[j]),
        b == 0 || !is_ws(s[b - 1]),
    ensures
        trim_end(s) == s.take(b),
    decreases s.len() - b,
{
    if b == s.len() {
        assert(s.take(b) =~= s);
    } else {
        let t = s.drop_last();
        assert forall|j: int| b <= j < t.len() implies is_ws(#[trigger] t[j]) by {
            assert(t[j] == s[j]);
        }
        lemma_trim_end_take(t, b);
        assert(t.take(b) =~= s.take(b));
    }
}

/// `str::trim` on a character vector.
pub fn trimmed(v: &[char]) -> (res: Vec<char>)
    ensures
        res@ == trim(v@),
{
    let n = v.len();
    let mut a: usize = 0;
    while a < n && is_whitespace(v[a])
        invariant
            n == v.len(),
            a <= n,
            forall|j: int| 0 <= j < a ==> is_ws(#[trigger] v@[j]),
        decreases n - a,
    {
        a = a + 1;
    }
    proof {
        lemma_trim_start_skip(v@, a as int);
    }
    let mut b: usize = n;
    while b > a && is_whitespace(v[b - 1])
        invariant
            n == v.len(),
            a <= b <= n,
            forall|j: int| b <= j < n ==> is_ws(#[trigger] v@[j]),
        decreases b,
    {
        b = b - 1;
    }
    let ghost t = v@.skip(a as int);
    proof {
        assert forall|j: int| b - a <= j < t.len() implies is_ws(#[trigger] t[j]) by {
            assert(t[j] == v@[j + a]);
        }
        if b > a {
            assert(t[b - a - 1] == v@[b - 1]);
        }
        lemma_trim_end_take(t, b - a);
    }
    let mut res: Vec<char> = Vec::new();
    let mut i: usize = a;
    while i < b
        invariant
            n == v.len(),
            a <= i <= b <= n,
            res@ == v@.subrange(a as int, i as int),
        decreases b - i,
    {
        res.push(v[i]);
        i = i + 1;
        assert(res@ =~= v@.subrange(a as int, i as int));
    }
    assert(t.take(b - a) =~= v@.subrange(a as int, b as int));
    res
}

// ---------------------------------------------------------------------------
// Splitting at whitespace
// ---------------------------------------------------------------------------

/// `str::split_whitespace`: the maximal runs of non-whitespace characters, in
/// order.
pub open spec fn words(s: Seq<char>) -> Seq<Seq<char>>
    decreases s.len(),
{
    if s.len() == 0 {
        seq![]
    } else {
        let rest = words(s.drop_first());
        if is_ws(s[0]) {
            rest
        } else if s.len() > 1 && !is_ws(s[1]) {
            rest.update(0, seq![s[0]] + rest[0])
        } else {
            seq![seq![s[0]]] + rest
        }
    }
}

/// A suffix that starts with a non-whitespace character has a first word.
pub proof fn lemma_words_nonempty(s: Seq<char>)
    requires
        s.len() > 0,
        !is_ws(s[0]),
    ensures
        words(s).len() > 0,
    decreases s.len(),
{
    if s.len() > 1 && !is_ws(s[1]) {
        lemma_words_nonempty(s.drop_first());
    }
}

/// The deep view of a character vector is its view.
pub proof fn lemma_chars_deep_view(w: Vec<char>)
    ensures
        w.deep_view() == w@,
{
    assert(w.deep_view() =~= w@);
}

/// `str::split_whitespace` on a character vector.
pub fn split_words(v: &[char]) -> (res: Vec<Vec<char>>)
    ensures
        res.deep_view() == words(v@),
{
    let n = v.len();
    let mut acc: Vec<Vec<char>> = Vec::new();
    let mut i: usize = n;
    assert(v@.skip(n as int) =~= Seq::<char>::empty());
    while i > 0
        invariant
            n == v.len(),
            i <= n,
            acc.deep_view() == words(v@.skip(i as int)),
        decreases i,
    {
        let c = v[i - 1];
        let ghost s = v@.skip(i - 1);
        assert(s.drop_first() =~= v@.skip(i as int));
        assert(s[0] == c);
        if is_whitespace(c) {
        } else if i < n && !is_whitespace(v[i]) {
            assert(s[1] == v@[i as int]);
            proof {
                lemma_words_nonempty(v@.skip(i as int));
            }
            let ghost old_dv = acc.deep_view();
            let mut first = acc.remove(0);
            proof {
                lemma_chars_deep_view(first);
            }
            first.insert(0, c);
            proof {
                lemma_chars_deep_view(first);
            }
            acc.insert(0, first);
            assert(first@ =~= seq![c] + old_dv[0]);
            assert(acc.deep_view() =~= old_dv.update(0, seq![c] + old_dv[0]));
        } else {
            let mut w: Vec<char> = Vec::new();
            w.push(c);
            let ghost old_dv = acc.deep_view();
            proof {
                lemma_chars_deep_view(w);
            }
            acc.insert(0, w);
            assert(w@ =~= seq![c]);
            assert(acc.deep_view() =~= seq![seq![c]] + old_dv);
        }
        i = i - 1;
    }
    assert(v@.skip(0) =~= v@);
    acc
}

// ---------------------------------------------------------------------------
// Decimal numbers
// ---------------------------------------------------------------------------

/// An ASCII decimal digit.
pub open spec fn is_digit(c: char) -> bool {
    '0' <= c && c <= '9'
}

/// The value of a decimal digit character.
pub open spec fn digit_val(c: char) -> nat {
    (c as int - '0' as int) as nat
}

/// The character of a decimal digit.
pub open spec fn digit_char(d: nat) -> char {
    (d + '0' as int) as char
}

/// Every character of `s` is a decimal digit.
pub open spec fn all_digits(s: Seq<char>) -> bool {
    forall|i: int| 0 <= i < s.len() ==> is_digit(#[trigger] s[i])
}

/// The number that the decimal digits `s` denote.
pub open spec fn digits_value(s: Seq<char>) -> nat
    decreases s.len(),
{
    if s.len() == 0 {
        0
    } else {
        digits_value(s.drop_last()) * 10 + digit_val(s.last())
    }
}

/// `str::parse::<u8>`: an optional `+`, then one or more decimal digits
/// whose value is at most 255.
pub open spec fn parse_u8_spec(s: Seq<char>) -> Option<u8> {
    let d = if s.len() > 0 && s[0] == '+' {
        s.drop_first()
    } else {
        s
    };
    if d.len() > 0 && all_digits(d) && digits_value(d) <= 255 {
        Some(digits_value(d) as u8)
    } else {
        None
    }
}

/// The decimal representation of `n`, without leading zeros.
pub open spec fn dec(n: nat) -> Seq<char>
    decreases n,
{
    if n < 10 {
        seq![digit_char(n)]
    } else {
        dec(n / 10).push(digit_char(n % 10))
    }
}

/// `n` written with at least `width` digits, padded with leading zeros.
pub open spec fn dec_padded(n: nat, width: nat) -> Seq<char> {
    let d = dec(n);
    if d.len() < width {
        Seq::new((width - d.len()) as nat, |i: int| '0') + d
    } else {
        d
    }
}

proof fn lemma_digit_char(d: nat)
    requires
        d < 10,
    ensures
        is_digit(digit_char(d)),
        digit_val(digit_char(d)) == d,
{
}

proof fn lemma_digits_value_prefix(s: Seq<char>, k: int)
    requires
        0 <= k <= s.len(),
    ensures
        digits_value(s.take(k)) <= digits_value(s),
    decreases s.len() - k,
{
    if k < s.len() {
        lemma_digits_value_prefix(s.drop_last(), k);
        assert(s.drop_last().take(k) =~= s.take(k));
    } else {
        assert(s.take(k) =~= s);
    }
}

/// The decimal representation is made of digits and denotes `n`.
pub proof fn lemma_dec(n: nat)
    ensures
        dec(n).len() > 0,
        all_digits(dec(n)),
        digits_value(dec(n)) == n,
    decreases n,
{
    lemma_digit_char(n % 10);
    if n < 10 {
        assert(dec(n).drop_last() =~= Seq::<char>::empty());
        assert(digits_value(Seq::<char>::empty()) == 0);
        assert(dec(n).last() == digit_char(n));
    } else {
        lemma_dec(n / 10);
        let d = dec(n);
        assert(d.drop_last() =~= dec(n / 10));
        assert(d.last() == digit_char(n % 10));
        assert(digits_value(d) == digits_value(dec(n / 10)) * 10 + n % 10);
        assert(n == (n / 10) * 10 + n % 10);
        assert forall|i: int| 0 <= i < d.len() implies is_digit(#[trigger] d[i]) by {
            if i < d.len() - 1 {
                assert(d[i] == dec(n / 10)[i]);
            }
        }
    }
}

/// A decimal representation of a byte parses back to the byte.
pub proof fn lemma_parse_dec(n: u8)
    ensures
        parse_u8_spec(dec(n as nat)) == Some(n),
{
    lemma_dec(n as nat);
    assert(is_digit(dec(n as nat)[0]));
}

/// `str::parse::<u8>` on a character vector.
pub fn parse_u8(v: &[char]) -> (res: Option<u8>)
    ensures
        res == parse_u8_spec(v@),
{
    let n = v.len();
    let start: usize = if n > 0 && v[0] == '+' {
        1
    } else {
        0
    };
    let ghost d = if v@.len() > 0 && v@[0] == '+' {
        v@.drop_first()
    } else {
        v@
    };
    assert(d =~= v@.skip(start as int));
    assert(parse_u8_spec(v@) == (if d.len() > 0 && all_digits(d) && digits_value(d) <= 255 {
        Some(digits_value(d) as u8)
    } else {
        None
    }));
    if start >= n {
        return None;
    }
    let mut value: u32 = 0;
    let mut i: usize = start;
    while i < n
        invariant
            n == v.len(),
            start <= i <= n,
            d == v@.skip(start as int),
            parse_u8_spec(v@) == (if d.len() > 0 && all_digits(d) && digits_value(d) <= 255 {
                Some(digits_value(d) as u8)
            } else {
                None
            }),
            value == digits_value(d.take(i - start)),
            value <= 255,
            all_digits(d.take(i - start)),
        decreases n - i,
    {
        let c = v[i];
        if !('0' <= c && c <= '9') {
            assert(d[i - start] == c);
            assert(!is_digit(d[i - start]));
            assert(!all_digits(d));
            assert(parse_u8_spec(v@).is_none());
            return None;
        }
        assert(d.take(i - start + 1).drop_last() =~= d.take(i - start));
        assert(d.take(i - start + 1).last() == c);
        value = value * 10 + (c as u32 - '0' as u32);
        assert(value == digits_value(d.take(i - start + 1)));
        if value > 255 {
            proof {
                if all_digits(d) {
                    lemma_digits_value_prefix(d, i - start + 1);
                }
                assert(parse_u8_spec(v@).is_none());
            }
            return None;
        }
        i = i + 1;
        assert forall|j: int| 0 <= j < i - start implies is_digit(#[trigger] d.take(i - start)[j]) by {
            if j < i - start - 1 {
                assert(d.take(i - start)[j] == d.take(i - start - 1)[j]);
            }
        }
    }
    assert(d.take(n - start) =~= d);
    Some(value as u8)
}

/// The decimal digit character of `d`.
fn digit_to_char(d: u64) -> (c: char)
    requires
        d < 10,
    ensures
        c == digit_char(d as nat),
{
    let b: u8 = 48 + d as u8;
    b as char
}

/// Appends the decimal representation of `n` to `out`.
pub fn push_dec(out: &mut String, n: u64)
    ensures
        final(out)@ == old(out)@ + dec(n as nat),
    decreases n,
{
    if n >= 10 {
        push_dec(out, n / 10);
    }
    let c = digit_to_char(n % 10);
    out.push(c);
    assert(final(out)@ =~= old(out)@ + dec(n as nat));
}

/// Appends `n` to `out`, padded with leading zeros to at least `width`
/// digits (`format!("{n:0width$}")`).
pub fn push_dec_padded(out: &mut String, n: u32, width: usize)
    ensures
        final(out)@ == old(out)@ + dec_padded(n as nat, width as nat),
{
    let mut digits = String::new();
    push_dec(&mut digits, n as u64);
    let len = digits.as_str().unicode_len();
    if len < width {
        let mut k: usize = 0;
        while k < width - len
            invariant
                len < width,
                k <= width - len,
                out@ == old(out)@ + Seq::new(k as nat, |i: int| '0'),
            decreases width - len - k,
        {
            out.push('0');
            k = k + 1;
            assert(out@ =~= old(out)@ + Seq::new(k as nat, |i: int| '0'));
        }
    }
    out.append(digits.as_str());
    assert(out@ =~= old(out)@ + dec_padded(n as nat, width as nat));
}

// ---------------------------------------------------------------------------
// Splitting at a separator, lines
// ---------------------------------------------------------------------------

/// `str::split(sep)`: the pieces of `s` between occurrences of `sep`; one
/// more piece than there are separators.
pub open spec fn split_on(s: Seq<char>, sep: char) -> Seq<Seq<char>>
    decreases s.len(),
{
    if s.len() == 0 {
        seq![seq![]]
    } else {
        let p = split_on(s.drop_last(), sep);
        if s.last() == sep {
            p.push(seq![])
        } else {
            p.update(p.len() - 1, p.last().push(s.last()))
        }
    }
}

pub proof fn lemma_split_on_len(s: Seq<char>, sep: char)
    ensures
        split_on(s, sep).len() > 0,
    decreases s.len(),
{
    if s.len() > 0 {
        lemma_split_on_len(s.drop_last(), sep);
    }
}

/// `str::split(sep)` on a character vector.
pub fn split_at_char(v: &[char], sep: char) -> (res: Vec<Vec<char>>)
    ensures
        res.deep_view() == split_on(v@, sep),
        res.len() > 0,
{
    let mut res: Vec<Vec<char>> = Vec::new();
    let mut cur: Vec<char> = Vec::new();
    let mut i: usize = 0;
    assert(v@.take(0) =~= Seq::<char>::empty());
    while i < v.len()
        invariant
            i <= v.len(),
            res.deep_view().push(cur@) == split_on(v@.take(i as int), sep),
        decreases v.len() - i,
    {
        let c = v[i];
        let ghost t = v@.take(i + 1);
        assert(t.drop_last() =~= v@.take(i as int));
        proof {
            lemma_split_on_len(v@.take(i as int), sep);
        }
        if c == sep {
            let ghost before = res.deep_view();
            let ghost old_cur = cur@;
            proof {
                lemma_chars_deep_view(cur);
            }
            res.push(cur);
            cur = Vec::new();
            assert(res.deep_view() =~= before.push(old_cur));
            assert(res.deep_view().push(cur@) =~= split_on(t, sep));
        } else {
            cur.push(c);
            assert(res.deep_view().push(cur@) =~= split_on(t, sep));
        }
        i = i + 1;
    }
    proof {
        lemma_chars_deep_view(cur);
    }
    let ghost before = res.deep_view();
    res.push(cur);
    assert(res.deep_view() =~= before.push(cur@));
    assert(v@.take(v.len() as int) =~= v@);
    res
}

/// `l` without one trailing carriage return.
pub open spec fn strip_cr(l: Seq<char>) -> Seq<char> {
    if l.len() > 0 && l.last() == '\r' {
        l.drop_last()
    } else {
        l
    }
}

/// `str::lines`: the pieces between line feeds, each that ended at a line
/// feed without one trailing carriage return; a last empty piece is not a
/// line.
pub open spec fn lines_spec(s: Seq<char>) -> Seq<Seq<char>> {
    let p = split_on(s, '\n');
    let n = if p.last().len() == 0 {
        p.len() - 1
    } else {
        p.len() as int
    };
    Seq::new(n as nat, |j: int| if j < p.len() - 1 { strip_cr(p[j]) } else { p[j] })
}

/// `str::lines` on a character vector, each line as a string.
pub fn lines_of(v: &[char]) -> (res: Vec<String>)
    ensures
        res@.map_values(|l: String| l@) == lines_spec(v@),
{
    let pieces = split_at_char(v, '\n');
    let ghost p = split_on(v@, '\n');
    let np = pieces.len();
    let last_empty = pieces[np - 1].len() == 0;
    let n = if last_empty {
        np - 1
    } else {
        np
    };
    assert(pieces.deep_view()[np - 1] == pieces@[np - 1].deep_view());
    proof {
        lemma_chars_deep_view(pieces@[np - 1]);
    }
    let mut res: Vec<String> = Vec::new();
    let mut j: usize = 0;
    while j < n
        invariant
            np == pieces.len(),
            n <= np,
            pieces.deep_view() == p,
            j <= n,
            res@.map_values(|l: String| l@) == Seq::new(
                j as nat,
                |k: int| if k < p.len() - 1 { strip_cr(p[k]) } else { p[k] },
            ),
        decreases n - j,
    {
        let piece = &pieces[j];
        proof {
            lemma_chars_deep_view(*piece);
        }
        assert(p[j as int] == piece@);
        let k = piece.len();
        let end = if j + 1 < np && k > 0 && piece[k - 1] == '\r' {
            k - 1
        } else {
            k
        };
        let line = string_from(&piece.as_slice()[0..end]);
        let ghost before = res@.map_values(|l: String| l@);
        let ghost line_view = line@;
        res.push(line);
        assert(res@.map_values(|l: String| l@) =~= before.push(line_view));
        assert(piece@.subrange(0, end as int) =~= if j < p.len() - 1 { strip_cr(p[j as int]) } else { p[j as int] });
        j = j + 1;
        assert(res@.map_values(|l: String| l@) =~= Seq::new(
            j as nat,
            |k: int| if k < p.len() - 1 { strip_cr(p[k]) } else { p[k] },
        ));
    }
    assert(lines_spec(v@) =~= Seq::new(
        n as nat,
        |k: int| if k < p.len() - 1 { strip_cr(p[k]) } else { p[k] },
    ));
    res
}

/// `str::replace("\r\n", "\n")`: every carriage return that stands directly
/// before a line feed is taken out.
pub open spec fn crlf_to_lf(s: Seq<char>) -> Seq<char>
    decreases s.len(),
{
    if s.len() == 0 {
        s
    } else if s.len() > 1 && s[0] == '\r' && s[1] == '\n' {
        crlf_to_lf(s.drop_first())
    } else {
        seq![s[0]] + crlf_to_lf(s.drop_first())
    }
}

/// `str::replace("\r\n", "\n")` on a character vector.
pub fn replace_crlf(v: &[char]) -> (res: Vec<char>)
    ensures
        res@ == crlf_to_lf(v@),
{
    let n = v.len();
    let mut res: Vec<char> = Vec::new();
    let mut i: usize = 0;
    assert(v@.skip(0) =~= v@);
    while i < n
        invariant
            n == v.len(),
            i <= n,
            res@ + crlf_to_lf(v@.skip(i as int)) == crlf_to_lf(v@),
        decreases n - i,
    {
        let ghost t = v@.skip(i as int);
        assert(t.drop_first() =~= v@.skip(i + 1));
        if i + 1 < n && v[i] == '\r' && v[i + 1] == '\n' {
        } else {
            let ghost before = res@;
            res.push(v[i]);
            assert(res@ + crlf_to_lf(v@.skip(i + 1)) =~= before + crlf_to_lf(t));
        }
        i = i + 1;
    }
    assert(v@.skip(n as int) =~= Seq::<char>::empty());
    assert(res@ + Seq::<char>::empty() =~= res@);
    res
}

/// `s` holds a carriage return directly followed by a line feed.
pub open spec fn has_crlf(s: Seq<char>) -> bool {
    exists|i: int| 0 <= i < s.len() - 1 && s[i] == '\r' && #[trigger] s[i + 1] == '\n'
}

/// `str::contains("\r\n")` on a character vector.
pub fn contains_crlf(v: &[char]) -> (res: bool)
    ensures
        res == has_crlf(v@),
{
    if v.len() < 2 {
        return false;
    }
    let mut i: usize = 0;
    while i < v.len() - 1
        invariant
            v.len() >= 2,
            i <= v.len(),
            forall|k: int| 0 <= k < i && k < v.len() - 1 ==> !(v@[k] == '\r' && #[trigger] v@[k + 1] == '\n'),
        decreases v.len() - i,
    {
        if v[i] == '\r' && v[i + 1] == '\n' {
            return true;
        }
        i = i + 1;
    }
    false
}

/// `slice::join(sep)`: the pieces with `sep` between each two.
pub open spec fn join(pieces: Seq<Seq<char>>, sep: Seq<char>) -> Seq<char>
    decreases pieces.len(),
{
    if pieces.len() == 0 {
        seq![]
    } else if pieces.len() == 1 {
        pieces[0]
    } else {
        join(pieces.drop_last(), sep) + sep + pieces.last()
    }
}

/// `slice::join(sep)` on strings.
pub fn join_strings(pieces: &Vec<String>, sep: &str) -> (res: String)
    ensures
        res@ == join(pieces@.map_values(|l: String| l@), sep@),
{
    let ghost ps = pieces@.map_values(|l: String| l@);
    let mut res = String::new();
    let mut i: usize = 0;
    while i < pieces.len()
        invariant
            i <= pieces.len(),
            ps == pieces@.map_values(|l: String| l@),
            res@ == join(ps.take(i as int), sep@),
        decreases pieces.len() - i,
    {
        assert(ps.take(i + 1).drop_last() =~= ps.take(i as int));
        if i > 0 {
            res.append(sep);
        }
        res.append(pieces[i].as_str());
        i = i + 1;
        assert(ps.take(i as int).last() == pieces@[i - 1]@);
        if i == 1 {
            assert(res@ =~= join(ps.take(i as int), sep@));
        }
    }
    assert(ps.take(pieces.len() as int) =~= ps);
    res
}

// ---------------------------------------------------------------------------
// Ordering
// ---------------------------------------------------------------------------

/// The order of `String`: lexicographic by character (code point) values.
pub open spec fn lex_lt(a: Seq<char>, b: Seq<char>) -> bool
    decreases a.len(),
{
    if b.len() == 0 {
        false
    } else if a.len() == 0 {
        true
    } else if a[0] != b[0] {
        a[0] < b[0]
    } else {
        lex_lt(a.drop_first(), b.drop_first())
    }
}

pub proof fn lemma_lex_irreflexive(a: Seq<char>)
    ensures
        !lex_lt(a, a),
    decreases a.len(),
{
    if a.len() > 0 {
        lemma_lex_irreflexive(a.drop_first());
    }
}

pub proof fn lemma_lex_transitive(a: Seq<char>, b: Seq<char>, c: Seq<char>)
    requires
        lex_lt(a, b),
        lex_lt(b, c),
    ensures
        lex_lt(a, c),
    decreases a.len(),
{
    if a.len() > 0 && b.len() > 0 && c.len() > 0 && a[0] == b[0] && b[0] == c[0] {
        lemma_lex_transitive(a.drop_first(), b.drop_first(), c.drop_first());
    }
}

pub proof fn lemma_lex_total(a: Seq<char>, b: Seq<char>)
    ensures
        a == b || lex_lt(a, b) || lex_lt(b, a),
    decreases a.len(),
{
    if a.len() > 0 && b.len() > 0 && a[0] == b[0] {
        lemma_lex_total(a.drop_first(), b.drop_first());
        if a.drop_first() == b.drop_first() {
            assert(a =~= seq![a[0]] + a.drop_first());
            assert(b =~= seq![b[0]] + b.drop_first());
        }
    } else if a.len() == 0 && b.len() == 0 {
        assert(a =~= b);
    }
}

/// `a < b` for strings.
pub fn str_lt(a: &str, b: &str) -> (res: bool)
    ensures
        res == lex_lt(a@, b@),
{
    let va = chars_of(a);
    let vb = chars_of(b);
    let mut i: usize = 0;
    assert(va@.skip(0) =~= va@);
    assert(vb@.skip(0) =~= vb@);
    while i < va.len() && i < vb.len() && va[i] == vb[i]
        invariant
            i <= va.len(),
            i <= vb.len(),
            lex_lt(va@.skip(i as int), vb@.skip(i as int)) == lex_lt(va@, vb@),
        decreases va.len() - i,
    {
        assert(va@.skip(i as int).drop_first() =~= va@.skip(i + 1));
        assert(vb@.skip(i as int).drop_first() =~= vb@.skip(i + 1));
        i = i + 1;
    }
    if i == vb.len() {
        false
    } else if i == va.len() {
        true
    } else {
        va[i] < vb[i]
    }
}

} // verus!
