//! What the editor remembers between sessions of a project, in a small
//! settings file of `key = value` lines.
//!
//! Written and read by hand rather than through a TOML library: a handful of
//! fields does not justify one, and a file that cannot be read must not stop a
//! project from opening, so anything unreadable falls back to the default.

use crate::text::{chars_of, string_of, trim, trimmed, trim_quotes_end, trim_quotes_start, unquote, is_white_space, lemma_trimmed};
use vstd::prelude::*;

verus! {

/// The pieces of `s` between each `c`, as `str::split` gives them: always at
/// least one, empty ones included.
pub open spec fn pieces(s: Seq<char>, c: char) -> Seq<Seq<char>>
    decreases s.len(),
{
    if s.len() == 0 {
        seq![Seq::<char>::empty()]
    } else if s.last() == c {
        pieces(s.drop_last(), c).push(Seq::<char>::empty())
    } else {
        let p = pieces(s.drop_last(), c);
        p.update(p.len() - 1, p.last().push(s.last()))
    }
}

pub proof fn lemma_pieces_nonempty(s: Seq<char>, c: char)
    ensures
        pieces(s, c).len() >= 1,
    decreases s.len(),
{
    if s.len() > 0 {
        lemma_pieces_nonempty(s.drop_last(), c);
    }
}

/// A line without the `\r` of a `\r\n` ending.
pub open spec fn without_cr(line: Seq<char>) -> Seq<char> {
    if line.len() > 0 && line.last() == '\r' {
        line.drop_last()
    } else {
        line
    }
}

/// The lines of a text as `str::lines` gives them: split at each `\n`, a
/// `\r` before it dropped, and no empty line for a final `\n` or an empty
/// text.
pub open spec fn text_lines(s: Seq<char>) -> Seq<Seq<char>> {
    let p = pieces(s, '\n');
    let ended = p.drop_last().map_values(|l: Seq<char>| without_cr(l));
    if p.last().len() == 0 {
        ended
    } else {
        ended.push(p.last())
    }
}

/// The index of the first `c` in `s`, or -1.
pub open spec fn first_index(s: Seq<char>, c: char) -> int
    decreases s.len(),
{
    if s.len() == 0 {
        -1
    } else if s[0] == c {
        0
    } else if first_index(s.drop_first(), c) < 0 {
        -1
    } else {
        first_index(s.drop_first(), c) + 1
    }
}

/// The value of a run of decimal digits.
pub open spec fn digits_value(d: Seq<char>) -> nat
    decreases d.len(),
{
    if d.len() == 0 {
        0
    } else {
        digits_value(d.drop_last()) * 10 + ((d.last() as nat) - ('0' as nat)) as nat
    }
}

pub open spec fn is_digit(c: char) -> bool {
    '0' <= c && c <= '9'
}

/// Whether every character of `d` is a decimal digit.
pub open spec fn all_digits(d: Seq<char>) -> bool {
    forall|i: int| 0 <= i < d.len() ==> is_digit(#[trigger] d[i])
}

/// `s` without the `+` it may start with.
pub open spec fn unsigned_digits(s: Seq<char>) -> Seq<char> {
    if s.len() > 0 && s[0] == '+' {
        s.drop_first()
    } else {
        s
    }
}

/// What `str::parse::<u32>` gives: an optional `+` then one or more decimal
/// digits whose value fits, or nothing.
pub open spec fn parsed_u32(s: Seq<char>) -> Option<u32> {
    let d = unsigned_digits(s);
    if d.len() > 0 && all_digits(d) && digits_value(d) <= u32::MAX {
        Some(digits_value(d) as u32)
    } else {
        None
    }
}

/// A zoom brought within 1 to 16: a zoom of zero would make the view unusable.
pub open spec fn clamped_zoom(z: u32) -> u32 {
    if z < 1 {
        1
    } else if z > 16 {
        16
    } else {
        z
    }
}

/// The settings as plain values: the last scene opened, snapping, the grid,
/// the zoom.
pub type SettingsView = (Option<Seq<char>>, bool, bool, u32);

/// What one line does to the settings: `snap`, `grid`, `zoom` and `scene`
/// are read, anything else is left alone, and so is a zoom that is not a
/// number.
pub open spec fn apply_line(s: SettingsView, line: Seq<char>) -> SettingsView {
    let eq = first_index(line, '=');
    if eq < 0 {
        s
    } else {
        let key = trimmed(line.subrange(0, eq));
        let value = trimmed(line.subrange(eq + 1, line.len() as int));
        if key == "snap"@ {
            (s.0, value == "true"@, s.2, s.3)
        } else if key == "grid"@ {
            (s.0, s.1, value == "true"@, s.3)
        } else if key == "zoom"@ {
            match parsed_u32(value) {
                Some(z) => (s.0, s.1, s.2, clamped_zoom(z)),
                None => s,
            }
        } else if key == "scene"@ {
            (Some(trim_quotes_end(trim_quotes_start(value))), s.1, s.2, s.3)
        } else {
            s
        }
    }
}

/// The settings read from `lines`, in order, starting from `start`.
pub open spec fn apply_lines(start: SettingsView, lines: Seq<Seq<char>>) -> SettingsView
    decreases lines.len(),
{
    if lines.len() == 0 {
        start
    } else {
        apply_line(apply_lines(start, lines.drop_last()), lines.last())
    }
}

/// Whatever a settings file holds, the zoom read back from it is usable:
/// from 1 to 16.
pub proof fn a_zoom_read_back_is_always_usable(lines: Seq<Seq<char>>)
    ensures
        1 <= apply_lines(default_settings(), lines).3 <= 16,
    decreases lines.len(),
{
    if lines.len() > 0 {
        a_zoom_read_back_is_always_usable(lines.drop_last());
    }
}

/// The settings of a fresh project: snapping and the grid on, a zoom of two,
/// no scene.
pub open spec fn default_settings() -> SettingsView {
    (None, true, true, 2)
}

/// The layout line's value, unquoted, that the last `tree` line of `lines`
/// holds, if any.
pub open spec fn layout_line(lines: Seq<Seq<char>>) -> Option<Seq<char>>
    decreases lines.len(),
{
    if lines.len() == 0 {
        None
    } else {
        let line = lines.last();
        let eq = first_index(line, '=');
        if eq >= 0 && trimmed(line.subrange(0, eq)) == "tree"@ {
            Some(trim_quotes_end(trim_quotes_start(trimmed(line.subrange(eq + 1, line.len() as int)))))
        } else {
            layout_line(lines.drop_last())
        }
    }
}

/// The text of `n` in decimal.
pub open spec fn decimal_text(n: nat) -> Seq<char>
    decreases n,
{
    if n < 10 {
        seq![(n + ('0' as nat)) as char]
    } else {
        decimal_text(n / 10).push(((n % 10) + ('0' as nat)) as char)
    }
}

/// The text of a boolean.
pub open spec fn bool_text(b: bool) -> Seq<char> {
    if b {
        "true"@
    } else {
        "false"@
    }
}

/// A string as `{:?}` writes it: quoted, with what needs it escaped.
pub uninterp spec fn debug_text(s: Seq<char>) -> Seq<char>;

/// Whether `s` is printable ASCII with no `"` and no `\`: text that `{:?}`
/// writes as itself, between quotes.
pub open spec fn plain_text(s: Seq<char>) -> bool {
    forall|i: int| 0 <= i < s.len() ==> ' ' <= #[trigger] s[i] && s[i] <= '~' && s[i] != '"' && s[i] != '\\'
}

/// `s` between double quotes.
pub open spec fn quoted(s: Seq<char>) -> Seq<char> {
    seq!['"'] + s + seq!['"']
}

/// `<str as Debug>::fmt`, through `format!("{s:?}")`: the string quoted, with
/// what needs it escaped. Only plain text is stated, written as itself
/// between quotes; the escaping of anything else is only named.
#[verifier::external_body]
fn debug_quoted(s: &str) -> (r: String)
    ensures
        r@ == debug_text(s@),
        plain_text(s@) ==> r@ == quoted(s@),
{
    format!("{s:?}")
}

/// The text of `lines`, each followed by a line feed.
pub open spec fn ended_lines(lines: Seq<Seq<char>>) -> Seq<char>
    decreases lines.len(),
{
    if lines.len() == 0 {
        Seq::empty()
    } else {
        ended_lines(lines.drop_last()) + lines.last() + seq!['\n']
    }
}

/// A `key = value` line.
pub open spec fn entry(key: Seq<char>, value: Seq<char>) -> Seq<char> {
    key + seq![' ', '=', ' '] + value
}

/// The lines of a settings file: the settings under `[session]`, the scene
/// only when there is one, then the layout under `[layout]`; `scene` and
/// `tree` as they are written.
pub open spec fn settings_lines(s: SettingsView, scene: Seq<char>, tree: Seq<char>) -> Seq<Seq<char>> {
    let head = Seq::<Seq<char>>::empty().push("[session]"@).push(entry("snap"@, bool_text(s.1))).push(
        entry("grid"@, bool_text(s.2)),
    ).push(entry("zoom"@, decimal_text(s.3 as nat)));
    let with_scene = if s.0 is Some {
        head.push(entry("scene"@, scene))
    } else {
        head
    };
    with_scene.push(Seq::<char>::empty()).push("[layout]"@).push(entry("tree"@, tree))
}

/// The settings file's text: the settings under `[session]`, then the
/// layout's own text under `[layout]`, each text as `{:?}` writes it.
pub open spec fn settings_text(s: SettingsView, tree: Seq<char>) -> Seq<char> {
    let scene = match s.0 {
        Some(name) => debug_text(name),
        None => Seq::<char>::empty(),
    };
    ended_lines(settings_lines(s, scene, debug_text(tree)))
}

/// The settings file's text when the scene and the layout are plain text,
/// which is written as itself between quotes.
pub open spec fn plain_settings_text(s: SettingsView, tree: Seq<char>) -> Seq<char> {
    let scene = match s.0 {
        Some(name) => quoted(name),
        None => Seq::<char>::empty(),
    };
    ended_lines(settings_lines(s, scene, quoted(tree)))
}

proof fn lemma_ended_lines_push(lines: Seq<Seq<char>>, line: Seq<char>)
    ensures
        ended_lines(lines.push(line)) == ended_lines(lines) + line + seq!['\n'],
{
    assert(lines.push(line).drop_last() =~= lines);
}

proof fn lemma_apply_lines_push(start: SettingsView, lines: Seq<Seq<char>>, line: Seq<char>)
    ensures
        apply_lines(start, lines.push(line)) == apply_line(apply_lines(start, lines), line),
{
    assert(lines.push(line).drop_last() =~= lines);
}

/// Splitting text that has a line appended without a line feed extends the
/// last piece.
proof fn lemma_pieces_append(s: Seq<char>, t: Seq<char>)
    requires
        forall|i: int| 0 <= i < t.len() ==> #[trigger] t[i] != '\n',
    ensures
        pieces(s + t, '\n') == pieces(s, '\n').update(
            pieces(s, '\n').len() - 1,
            pieces(s, '\n').last() + t,
        ),
    decreases t.len(),
{
    lemma_pieces_nonempty(s, '\n');
    if t.len() == 0 {
        assert(s + t =~= s);
        assert(pieces(s, '\n').last() + t =~= pieces(s, '\n').last());
        assert(pieces(s, '\n').update(pieces(s, '\n').len() - 1, pieces(s, '\n').last()) =~= pieces(s, '\n'));
    } else {
        let u = t.drop_last();
        assert((s + t).drop_last() =~= s + u);
        assert((s + t).last() == t.last());
        lemma_pieces_append(s, u);
        lemma_pieces_nonempty(s + u, '\n');
        assert((pieces(s, '\n').last() + u).push(t.last()) =~= pieces(s, '\n').last() + t);
        assert(pieces(s + t, '\n') =~= pieces(s, '\n').update(
            pieces(s, '\n').len() - 1,
            pieces(s, '\n').last() + t,
        ));
    }
}

/// Whether a line can be written as it is: no line feed in it, and no
/// carriage return at its end.
pub open spec fn whole_line(l: Seq<char>) -> bool {
    &&& forall|i: int| 0 <= i < l.len() ==> #[trigger] l[i] != '\n'
    &&& (l.len() == 0 || l.last() != '\r')
}

proof fn lemma_pieces_of_ended(lines: Seq<Seq<char>>)
    requires
        forall|k: int| 0 <= k < lines.len() ==> whole_line(#[trigger] lines[k]),
    ensures
        pieces(ended_lines(lines), '\n') == lines.push(Seq::<char>::empty()),
    decreases lines.len(),
{
    if lines.len() == 0 {
        assert(lines.push(Seq::<char>::empty()) =~= seq![Seq::<char>::empty()]);
    } else {
        let rest = lines.drop_last();
        let l = lines.last();
        assert forall|k: int| 0 <= k < rest.len() implies whole_line(#[trigger] rest[k]) by {
            assert(rest[k] == lines[k]);
        }
        lemma_pieces_of_ended(rest);
        assert(whole_line(lines[lines.len() - 1]));
        lemma_pieces_append(ended_lines(rest), l);
        let e = ended_lines(rest) + l;
        assert(ended_lines(lines) == e + seq!['\n']);
        assert((e + seq!['\n']).drop_last() =~= e);
        assert(Seq::<char>::empty() + l =~= l);
        assert(pieces(e, '\n') =~= rest.push(l));
        assert(rest.push(l) =~= lines);
    }
}

/// Splitting the text of whole lines gives them back.
pub proof fn lemma_text_lines_of_ended(lines: Seq<Seq<char>>)
    requires
        forall|k: int| 0 <= k < lines.len() ==> whole_line(#[trigger] lines[k]),
    ensures
        text_lines(ended_lines(lines)) == lines,
{
    lemma_pieces_of_ended(lines);
    let p = pieces(ended_lines(lines), '\n');
    assert(p.drop_last() =~= lines);
    assert(p.drop_last().map_values(|l: Seq<char>| without_cr(l)) =~= lines) by {
        assert forall|k: int| 0 <= k < lines.len() implies without_cr(#[trigger] lines[k]) == lines[k] by {
            assert(whole_line(lines[k]));
        }
    }
}

/// The first `c` of `a + b`, when `a` has none and `b` starts with one, is
/// where `b` starts.
proof fn lemma_first_index_at(a: Seq<char>, b: Seq<char>, c: char)
    requires
        forall|i: int| 0 <= i < a.len() ==> #[trigger] a[i] != c,
        b.len() > 0,
        b[0] == c,
    ensures
        first_index(a + b, c) == a.len(),
    decreases a.len(),
{
    if a.len() == 0 {
        assert(a + b =~= b);
    } else {
        assert((a + b).drop_first() =~= a.drop_first() + b);
        assert((a + b)[0] == a[0]);
        lemma_first_index_at(a.drop_first(), b, c);
    }
}

/// A text without `c` has no first `c`.
proof fn lemma_first_index_none(s: Seq<char>, c: char)
    requires
        forall|i: int| 0 <= i < s.len() ==> #[trigger] s[i] != c,
    ensures
        first_index(s, c) < 0,
    decreases s.len(),
{
    if s.len() > 0 {
        assert(s[0] != c);
        lemma_first_index_none(s.drop_first(), c);
    }
}

/// The decimal text of a number is one or more digits, worth the number.
proof fn lemma_decimal_text(n: nat)
    ensures
        decimal_text(n).len() > 0,
        all_digits(decimal_text(n)),
        digits_value(decimal_text(n)) == n,
    decreases n,
{
    if n >= 10 {
        lemma_decimal_text(n / 10);
        let d = decimal_text(n);
        assert(d.drop_last() =~= decimal_text(n / 10));
        assert forall|i: int| 0 <= i < d.len() implies is_digit(#[trigger] d[i]) by {
            if i < d.len() - 1 {
                assert(d[i] == decimal_text(n / 10)[i]);
            }
        }
        let c = ((n % 10) + ('0' as nat)) as char;
        assert(d.last() == c);
        assert(c as nat == (n % 10) + ('0' as nat));
        assert(digits_value(d) == digits_value(d.drop_last()) * 10 + ((d.last() as nat) - ('0' as nat)) as nat);
        assert(digits_value(d) == (n / 10) * 10 + n % 10) by (nonlinear_arith)
            requires
                digits_value(d) == digits_value(decimal_text(n / 10)) * 10 + n % 10,
                digits_value(decimal_text(n / 10)) == n / 10;
    } else {
        let d = decimal_text(n);
        let c = (n + ('0' as nat)) as char;
        assert(d == seq![c]);
        assert(c as nat == n + ('0' as nat));
        assert(d.drop_last() =~= Seq::<char>::empty());
        assert(d.last() == c);
        assert(digits_value(d) == digits_value(d.drop_last()) * 10 + ((d.last() as nat) - ('0' as nat)) as nat);
        assert(d[0] == c);
    }
}

/// Whether `s` neither starts nor ends with whitespace, and has something.
pub open spec fn solid(s: Seq<char>) -> bool {
    s.len() > 0 && !is_white_space(s[0]) && !is_white_space(s.last())
}

/// A `key = value` line is read back as its key and its value.
proof fn lemma_entry(key: Seq<char>, value: Seq<char>)
    requires
        solid(key),
        solid(value),
        forall|i: int| 0 <= i < key.len() ==> #[trigger] key[i] != '=',
    ensures
        first_index(entry(key, value), '=') == key.len() + 1,
        trimmed(entry(key, value).subrange(0, key.len() as int + 1)) == key,
        trimmed(entry(key, value).subrange(key.len() as int + 2, entry(key, value).len() as int)) == value,
{
    let line = entry(key, value);
    assert(line =~= key.push(' ') + (seq!['=', ' '] + value));
    assert forall|i: int| 0 <= i < key.push(' ').len() implies #[trigger] key.push(' ')[i] != '=' by {
        if i < key.len() {
            assert(key.push(' ')[i] == key[i]);
        }
    }
    lemma_first_index_at(key.push(' '), seq!['=', ' '] + value, '=');
    assert(line.subrange(0, key.len() as int + 1) =~= Seq::<char>::empty() + key + seq![' ']);
    lemma_trimmed(Seq::<char>::empty(), key, seq![' ']);
    assert(line.subrange(key.len() as int + 2, line.len() as int) =~= seq![' '] + value + Seq::<char>::empty());
    lemma_trimmed(seq![' '], value, Seq::<char>::empty());
}

/// Plain text between quotes loses exactly its quotes.
proof fn lemma_unquoted(s: Seq<char>)
    requires
        plain_text(s),
    ensures
        trim_quotes_end(trim_quotes_start(quoted(s))) == s,
{
    let q = quoted(s);
    assert(q.len() > 0 && q[0] == '"');
    assert(q.drop_first() =~= s.push('"'));
    assert(trim_quotes_start(q) == trim_quotes_start(s.push('"')));
    if s.len() == 0 {
        let t = s.push('"');
        assert(t.len() == 1 && t[0] == '"');
        assert(t.drop_first() =~= Seq::<char>::empty());
        assert(trim_quotes_start(t) == trim_quotes_start(Seq::<char>::empty()));
        assert(trim_quotes_start(Seq::<char>::empty()) == Seq::<char>::empty());
        assert(trim_quotes_end(Seq::<char>::empty()) == Seq::<char>::empty());
        assert(s =~= Seq::<char>::empty());
    } else {
        let t = s.push('"');
        assert(t[0] == s[0]);
        assert(s[0] != '"');
        assert(trim_quotes_start(t) == t);
        assert(t.last() == '"');
        assert(t.drop_last() =~= s);
        assert(trim_quotes_end(t) == trim_quotes_end(s));
        assert(s.last() != '"');
        assert(trim_quotes_end(s) == s);
    }
}

/// Plain text between quotes is a solid whole line with no `=` at its start.
proof fn lemma_quoted_solid(s: Seq<char>)
    requires
        plain_text(s),
    ensures
        solid(quoted(s)),
        whole_line(quoted(s)),
{
    let q = quoted(s);
    assert(q[0] == '"');
    assert(q.last() == '"');
    assert forall|i: int| 0 <= i < q.len() implies #[trigger] q[i] != '\n' by {
        if 0 < i < q.len() - 1 {
            assert(q[i] == s[i - 1]);
        }
    }
}

/// A key and a whole value make a whole line.
proof fn lemma_entry_whole(key: Seq<char>, value: Seq<char>)
    requires
        whole_line(key),
        whole_line(value),
        value.len() > 0,
    ensures
        whole_line(entry(key, value)),
{
    let line = entry(key, value);
    assert forall|i: int| 0 <= i < line.len() implies #[trigger] line[i] != '\n' by {
        if i < key.len() {
            assert(line[i] == key[i]);
        } else if i >= key.len() + 3 {
            assert(line[i] == value[i - key.len() - 3]);
        }
    }
    assert(line.last() == value.last());
}

/// What a settings line without `=` does: nothing.
proof fn lemma_no_entry(st: SettingsView, line: Seq<char>)
    requires
        forall|i: int| 0 <= i < line.len() ==> #[trigger] line[i] != '=',
    ensures
        apply_line(st, line) == st,
{
    lemma_first_index_none(line, '=');
}

/// Settings written to a file come back when it is read: the scene, snapping,
/// the grid and the zoom (brought within 1 to 16) from the settings, and the
/// layout's text from its line, whenever the scene and the layout are plain
/// text.
pub proof fn written_settings_come_back(s: SettingsView, tree: Seq<char>)
    requires
        s.0 is Some ==> plain_text(s.0->0),
        plain_text(tree),
    ensures
        apply_lines(default_settings(), text_lines(plain_settings_text(s, tree))) == (
            s.0,
            s.1,
            s.2,
            clamped_zoom(s.3),
        ),
        layout_line(text_lines(plain_settings_text(s, tree))) == Some(tree),
{
    reveal_strlit("[session]");
    reveal_strlit("snap");
    reveal_strlit("grid");
    reveal_strlit("zoom");
    reveal_strlit("scene");
    reveal_strlit("[layout]");
    reveal_strlit("tree");
    reveal_strlit("true");
    reveal_strlit("false");
    let scene_q = match s.0 {
        Some(name) => quoted(name),
        None => Seq::<char>::empty(),
    };
    let tq = quoted(tree);
    let z = decimal_text(s.3 as nat);
    lemma_decimal_text(s.3 as nat);
    lemma_quoted_solid(tree);
    lemma_unquoted(tree);
    if s.0 is Some {
        lemma_quoted_solid(s.0->0);
        lemma_unquoted(s.0->0);
    }
    assert(solid(z)) by {
        assert(is_digit(z[0]));
        assert(is_digit(z[z.len() - 1]));
    }
    assert(whole_line(z)) by {
        assert forall|i: int| 0 <= i < z.len() implies #[trigger] z[i] != '\n' by {
            assert(is_digit(z[i]));
        }
        assert(is_digit(z[z.len() - 1]));
    }
    assert(parsed_u32(z) == Some(s.3)) by {
        assert(z[0] != '+') by {
            assert(is_digit(z[0]));
        }
    }
    let l0 = Seq::<Seq<char>>::empty();
    let e_snap = entry("snap"@, bool_text(s.1));
    let e_grid = entry("grid"@, bool_text(s.2));
    let e_zoom = entry("zoom"@, z);
    let e_scene = entry("scene"@, scene_q);
    let e_tree = entry("tree"@, tq);
    let l1 = l0.push("[session]"@);
    let l2 = l1.push(e_snap);
    let l3 = l2.push(e_grid);
    let l4 = l3.push(e_zoom);
    let l5 = if s.0 is Some {
        l4.push(e_scene)
    } else {
        l4
    };
    let l6 = l5.push(Seq::<char>::empty());
    let l7 = l6.push("[layout]"@);
    let l8 = l7.push(e_tree);
    assert(l8 == settings_lines(s, scene_q, tq));
    assert("snap"@ =~= seq!['s', 'n', 'a', 'p']);
    assert("grid"@ =~= seq!['g', 'r', 'i', 'd']);
    assert("zoom"@ =~= seq!['z', 'o', 'o', 'm']);
    assert("tree"@ =~= seq!['t', 'r', 'e', 'e']);
    assert("scene"@ =~= seq!['s', 'c', 'e', 'n', 'e']);
    assert("true"@ =~= seq!['t', 'r', 'u', 'e']);
    assert("false"@ =~= seq!['f', 'a', 'l', 's', 'e']);
    assert("snap"@ != "grid"@ && "snap"@ != "zoom"@ && "snap"@ != "scene"@ && "snap"@ != "tree"@) by {
        assert("snap"@[0] != "grid"@[0]);
        assert("snap"@[0] != "zoom"@[0]);
        assert("snap"@.len() != "scene"@.len());
        assert("snap"@[0] != "tree"@[0]);
    }
    assert("grid"@ != "zoom"@ && "grid"@ != "scene"@ && "grid"@ != "tree"@) by {
        assert("grid"@[0] != "zoom"@[0]);
        assert("grid"@.len() != "scene"@.len());
        assert("grid"@[0] != "tree"@[0]);
    }
    assert("zoom"@ != "scene"@ && "zoom"@ != "tree"@) by {
        assert("zoom"@.len() != "scene"@.len());
        assert("zoom"@[0] != "tree"@[0]);
    }
    assert("scene"@ != "tree"@) by {
        assert("scene"@.len() != "tree"@.len());
    }
    assert("false"@ != "true"@) by {
        assert("false"@.len() != "true"@.len());
    }
    assert(bool_text(s.1) == "true"@ <==> s.1);
    assert(bool_text(s.2) == "true"@ <==> s.2);
    assert(solid(bool_text(s.1)) && solid(bool_text(s.2)));
    lemma_entry("snap"@, bool_text(s.1));
    lemma_entry("grid"@, bool_text(s.2));
    lemma_entry("zoom"@, z);
    lemma_entry("tree"@, tq);
    lemma_entry_whole("snap"@, bool_text(s.1));
    lemma_entry_whole("grid"@, bool_text(s.2));
    lemma_entry_whole("zoom"@, z);
    lemma_entry_whole("tree"@, tq);
    if s.0 is Some {
        lemma_entry("scene"@, scene_q);
        lemma_entry_whole("scene"@, scene_q);
    }
    assert forall|k: int| 0 <= k < l8.len() implies whole_line(#[trigger] l8[k]) by {
        if s.0 is Some {
            assert(k == 4 ==> l8[k] == e_scene);
        }
    }
    lemma_text_lines_of_ended(l8);
    assert(text_lines(plain_settings_text(s, tree)) == l8);
    let st0 = default_settings();
    lemma_apply_lines_push(st0, l0, "[session]"@);
    lemma_no_entry(st0, "[session]"@);
    assert(apply_lines(st0, l1) == st0);
    lemma_apply_lines_push(st0, l1, e_snap);
    assert(apply_lines(st0, l2) == (None::<Seq<char>>, s.1, true, 2u32));
    lemma_apply_lines_push(st0, l2, e_grid);
    assert(apply_lines(st0, l3) == (None::<Seq<char>>, s.1, s.2, 2u32));
    lemma_apply_lines_push(st0, l3, e_zoom);
    let st4 = (None::<Seq<char>>, s.1, s.2, clamped_zoom(s.3));
    assert(apply_lines(st0, l4) == st4);
    if s.0 is Some {
        lemma_apply_lines_push(st0, l4, e_scene);
    }
    assert(apply_lines(st0, l5) == (s.0, s.1, s.2, clamped_zoom(s.3)));
    lemma_apply_lines_push(st0, l5, Seq::<char>::empty());
    lemma_no_entry(apply_lines(st0, l5), Seq::<char>::empty());
    lemma_apply_lines_push(st0, l6, "[layout]"@);
    lemma_no_entry(apply_lines(st0, l6), "[layout]"@);
    lemma_apply_lines_push(st0, l7, e_tree);
}

/// The lines of `text`.
fn lines_of(text: &str) -> (r: Vec<Vec<char>>)
    ensures
        r@.map_values(|l: Vec<char>| l@) == text_lines(text@),
{
    let chars = chars_of(text);
    let mut done: Vec<Vec<char>> = Vec::new();
    let mut current: Vec<char> = Vec::new();
    let mut i: usize = 0;
    while i < chars.len()
        invariant
            i <= chars@.len(),
            done@.len() + 1 == pieces(chars@.take(i as int), '\n').len(),
            forall|k: int|
                0 <= k < done@.len() ==> (#[trigger] done@[k])@ == without_cr(
                    pieces(chars@.take(i as int), '\n')[k],
                ),
            current@ == pieces(chars@.take(i as int), '\n').last(),
        decreases chars@.len() - i,
    {
        let c = chars[i];
        proof {
            assert(chars@.take(i as int + 1).drop_last() == chars@.take(i as int));
            assert(chars@.take(i as int + 1).last() == c);
            lemma_pieces_nonempty(chars@.take(i as int), '\n');
        }
        if c == '\n' {
            let mut line = current;
            let n = line.len();
            if n > 0 && line[n - 1] == '\r' {
                line.pop();
            }
            done.push(line);
            current = Vec::new();
        } else {
            current.push(c);
        }
        i = i + 1;
    }
    proof {
        assert(chars@.take(i as int) == chars@);
        lemma_pieces_nonempty(chars@, '\n');
    }
    let ghost p = pieces(text@, '\n');
    proof {
        assert(done@.map_values(|l: Vec<char>| l@) =~= p.drop_last().map_values(|l: Seq<char>| without_cr(l)));
    }
    if current.len() > 0 {
        let ghost before = done@;
        done.push(current);
        proof {
            assert(done@.map_values(|l: Vec<char>| l@) =~= before.map_values(|l: Vec<char>| l@).push(p.last()));
        }
    }
    done
}

/// The first `c` of `s`, if any.
fn find_first(s: &Vec<char>, c: char) -> (r: Option<usize>)
    ensures
        r is None <==> first_index(s@, c) < 0,
        r is Some ==> r->0 == first_index(s@, c) && r->0 < s@.len(),
{
    proof {
        assert(s@.skip(0) =~= s@);
    }
    let mut i: usize = 0;
    while i < s.len()
        invariant
            i <= s@.len(),
            forall|k: int| 0 <= k < i ==> s@[k] != c,
            first_index(s@, c) == (if first_index(s@.skip(i as int), c) < 0 {
                -1
            } else {
                first_index(s@.skip(i as int), c) + i
            }),
        decreases s@.len() - i,
    {
        if s[i] == c {
            proof {
                assert(s@.skip(i as int)[0] == c);
            }
            return Some(i);
        }
        proof {
            assert(s@.skip(i as int)[0] == s@[i as int]);
            assert(s@.skip(i as int).drop_first() =~= s@.skip(i as int + 1));
        }
        i = i + 1;
    }
    proof {
        assert(s@.skip(i as int) =~= Seq::<char>::empty());
    }
    None
}

/// The characters of `s` from `from` to `to`, as a string.
fn piece(s: &Vec<char>, from: usize, to: usize) -> (r: String)
    requires
        from <= to <= s@.len(),
    ensures
        r@ == s@.subrange(from as int, to as int),
{
    let mut out: Vec<char> = Vec::new();
    let mut i: usize = from;
    while i < to
        invariant
            from <= i <= to,
            to <= s@.len(),
            out@ == s@.subrange(from as int, i as int),
        decreases to - i,
    {
        out.push(s[i]);
        i = i + 1;
    }
    string_of(&out)
}

/// What `str::parse::<u32>` gives.
fn parse_u32(s: &str) -> (r: Option<u32>)
    ensures
        r == parsed_u32(s@),
{
    let chars = chars_of(s);
    let start: usize = if chars.len() > 0 && chars[0] == '+' {
        1
    } else {
        0
    };
    let ghost d = unsigned_digits(s@);
    proof {
        assert(d =~= chars@.skip(start as int));
    }
    if start >= chars.len() {
        proof {
            assert(d.len() == 0);
        }
        return None;
    }
    let mut value: u64 = 0;
    let mut i: usize = start;
    while i < chars.len()
        invariant
            start <= i <= chars@.len(),
            chars@ == s@,
            d == unsigned_digits(s@),
            d == chars@.skip(start as int),
            forall|k: int| start <= k < i ==> is_digit(#[trigger] chars@[k]),
            value == digits_value(chars@.subrange(start as int, i as int)),
            value <= u32::MAX,
        decreases chars@.len() - i,
    {
        let c = chars[i];
        if c < '0' || c > '9' {
            proof {
                assert(d[i - start] == c);
                assert(!is_digit(d[i - start]));
                assert(!all_digits(d));
            }
            return None;
        }
        let digit = (c as u32 - '0' as u32) as u64;
        proof {
            let before = chars@.subrange(start as int, i as int);
            let after = chars@.subrange(start as int, i + 1);
            assert(after.drop_last() =~= before);
            assert(after.last() == c);
            assert(digit == (c as nat) - ('0' as nat));
            assert(digits_value(after) == value * 10 + digit);
        }
        let next = value * 10 + digit;
        if next > u32::MAX as u64 {
            proof {
                if all_digits(d) {
                    assert(d.subrange(0, i + 1 - start) =~= chars@.subrange(start as int, i + 1));
                    lemma_digits_grow(chars@.subrange(start as int, i + 1), d);
                }
            }
            return None;
        }
        value = next;
        i = i + 1;
    }
    proof {
        assert(chars@.subrange(start as int, i as int) =~= d);
    }
    Some(value as u32)
}

/// A run of digits is worth at least any of its prefixes.
proof fn lemma_digits_grow(prefix: Seq<char>, whole: Seq<char>)
    requires
        prefix.len() <= whole.len(),
        whole.subrange(0, prefix.len() as int) == prefix,
        forall|i: int| 0 <= i < whole.len() ==> is_digit(#[trigger] whole[i]),
    ensures
        digits_value(prefix) <= digits_value(whole),
    decreases whole.len(),
{
    if prefix.len() < whole.len() {
        assert(whole.drop_last().subrange(0, prefix.len() as int) =~= prefix);
        assert forall|i: int| 0 <= i < whole.drop_last().len() implies is_digit(#[trigger] whole.drop_last()[i]) by {
            assert(whole.drop_last()[i] == whole[i]);
        }
        lemma_digits_grow(prefix, whole.drop_last());
    } else {
        assert(whole =~= prefix);
    }
}

/// Appends the decimal text of `n`.
fn push_decimal(out: &mut Vec<char>, n: u32)
    ensures
        final(out)@ == old(out)@ + decimal_text(n as nat),
    decreases n,
{
    if n >= 10 {
        push_decimal(out, n / 10);
    }
    let digit = n % 10;
    let c = if digit == 0 {
        '0'
    } else if digit == 1 {
        '1'
    } else if digit == 2 {
        '2'
    } else if digit == 3 {
        '3'
    } else if digit == 4 {
        '4'
    } else if digit == 5 {
        '5'
    } else if digit == 6 {
        '6'
    } else if digit == 7 {
        '7'
    } else if digit == 8 {
        '8'
    } else {
        '9'
    };
    let ghost mid = out@;
    out.push(c);
    proof {
        assert(c == (((n % 10) as nat) + ('0' as nat)) as char);
        if n >= 10 {
            assert(out@ =~= old(out)@ + decimal_text((n / 10) as nat).push(c));
        } else {
            assert(out@ =~= old(out)@ + seq![c]);
        }
    }
}

/// Appends the characters of `s`.
fn push_text(out: &mut Vec<char>, s: &str)
    ensures
        final(out)@ == old(out)@ + s@,
{
    let chars = chars_of(s);
    let mut i: usize = 0;
    while i < chars.len()
        invariant
            i <= chars@.len(),
            out@ == old(out)@ + chars@.take(i as int),
        decreases chars@.len() - i,
    {
        out.push(chars[i]);
        proof {
            assert(chars@.take(i as int + 1) =~= chars@.take(i as int).push(chars@[i as int]));
        }
        i = i + 1;
    }
    proof {
        assert(chars@.take(i as int) =~= chars@);
    }
}

/// What the editor remembers between two sessions of a project.
#[derive(Debug, Clone)]
pub struct Settings {
    /// The last scene opened, opened again at start.
    pub scene: Option<String>,
    pub snap: bool,
    pub show_grid: bool,
    pub zoom: u32,
}

impl Settings {
    /// The settings as plain values.
    pub open spec fn view_of(&self) -> SettingsView {
        (
            match self.scene {
                Some(s) => Some(s@),
                None => None,
            },
            self.snap,
            self.show_grid,
            self.zoom,
        )
    }

    /// The file the settings live in, inside the project.
    pub const FILE: &'static str = ".raster-session.toml";

    /// The settings of a fresh project.
    pub fn new() -> (s: Self)
        ensures
            s.view_of() == default_settings(),
    {
        Settings { scene: None, snap: true, show_grid: true, zoom: 2 }
    }

    /// Reads settings back, keeping the default for anything missing or
    /// unreadable: a settings file that cannot be read must not stop a
    /// project from opening.
    pub fn from_toml(text: &str) -> (s: Self)
        ensures
            s.view_of() == apply_lines(default_settings(), text_lines(text@)),
    {
        let lines = lines_of(text);
        let ghost all = lines@.map_values(|l: Vec<char>| l@);
        let mut settings = Self::new();
        let mut k: usize = 0;
        while k < lines.len()
            invariant
                k <= lines@.len(),
                all == lines@.map_values(|l: Vec<char>| l@),
                settings.view_of() == apply_lines(default_settings(), all.take(k as int)),
            decreases lines@.len() - k,
        {
            proof {
                assert(all.take(k as int + 1).drop_last() =~= all.take(k as int));
                assert(all.take(k as int + 1).last() == lines@[k as int]@);
            }
            settings.apply(&lines[k]);
            k = k + 1;
        }
        proof {
            assert(all.take(k as int) =~= all);
        }
        settings
    }

    /// Applies one `key = value` line.
    fn apply(&mut self, line: &Vec<char>)
        ensures
            final(self).view_of() == apply_line(old(self).view_of(), line@),
    {
        proof {
            reveal_strlit("snap");
            reveal_strlit("grid");
            reveal_strlit("zoom");
            reveal_strlit("scene");
            reveal_strlit("true");
        }
        let n = line.len();
        let eq = match find_first(line, '=') {
            Some(eq) => eq,
            None => return,
        };
        let key_text = piece(line, 0, eq);
        let value_text = piece(line, eq + 1, n);
        let key = trim(key_text.as_str());
        let value = trim(value_text.as_str());
        if crate::text::same_name(key, "snap") {
            self.snap = crate::text::same_name(value, "true");
        } else if crate::text::same_name(key, "grid") {
            self.show_grid = crate::text::same_name(value, "true");
        } else if crate::text::same_name(key, "zoom") {
            if let Some(z) = parse_u32(value) {
                self.zoom = if z < 1 {
                    1
                } else if z > 16 {
                    16
                } else {
                    z
                };
            }
        } else if crate::text::same_name(key, "scene") {
            self.scene = Some(unquote(value));
        }
    }

    /// Writes the settings, then the layout's own text under `[layout]`. A
    /// plain scene name and layout text are written as themselves between
    /// quotes, and then read back (see `written_settings_come_back`).
    pub fn to_toml(&self, tree: &str) -> (r: String)
        ensures
            r@ == settings_text(self.view_of(), tree@),
            (self.view_of().0 is Some ==> plain_text(self.view_of().0->0)) && plain_text(tree@) ==> r@
                == plain_settings_text(self.view_of(), tree@),
    {
        proof {
            reveal_strlit("[session]\nsnap = ");
            reveal_strlit("\ngrid = ");
            reveal_strlit("\nzoom = ");
            reveal_strlit("\n");
            reveal_strlit("scene = ");
            reveal_strlit("\n[layout]\ntree = ");
            reveal_strlit("true");
            reveal_strlit("false");
        }
        let mut out: Vec<char> = Vec::new();
        push_text(&mut out, "[session]\nsnap = ");
        push_text(&mut out, if self.snap {
            "true"
        } else {
            "false"
        });
        push_text(&mut out, "\ngrid = ");
        push_text(&mut out, if self.show_grid {
            "true"
        } else {
            "false"
        });
        push_text(&mut out, "\nzoom = ");
        push_decimal(&mut out, self.zoom);
        push_text(&mut out, "\n");
        let ghost head = out@;
        if let Some(scene) = &self.scene {
            push_text(&mut out, "scene = ");
            let written = debug_quoted(scene.as_str());
            push_text(&mut out, written.as_str());
            push_text(&mut out, "\n");
        }
        let ghost with_scene = out@;
        push_text(&mut out, "\n[layout]\ntree = ");
        let written = debug_quoted(tree);
        push_text(&mut out, written.as_str());
        push_text(&mut out, "\n");
        proof {
            reveal_strlit("[session]");
            reveal_strlit("snap");
            reveal_strlit("grid");
            reveal_strlit("zoom");
            reveal_strlit("scene");
            reveal_strlit("[layout]");
            reveal_strlit("tree");
            let v = self.view_of();
            let scene_q = match v.0 {
                Some(name) => debug_text(name),
                None => Seq::<char>::empty(),
            };
            let l0 = Seq::<Seq<char>>::empty();
            let l1 = l0.push("[session]"@);
            let l2 = l1.push(entry("snap"@, bool_text(v.1)));
            let l3 = l2.push(entry("grid"@, bool_text(v.2)));
            let l4 = l3.push(entry("zoom"@, decimal_text(v.3 as nat)));
            lemma_ended_lines_push(l0, "[session]"@);
            lemma_ended_lines_push(l1, entry("snap"@, bool_text(v.1)));
            lemma_ended_lines_push(l2, entry("grid"@, bool_text(v.2)));
            lemma_ended_lines_push(l3, entry("zoom"@, decimal_text(v.3 as nat)));
            assert(head =~= ended_lines(l4));
            let l5 = if v.0 is Some {
                l4.push(entry("scene"@, scene_q))
            } else {
                l4
            };
            if v.0 is Some {
                lemma_ended_lines_push(l4, entry("scene"@, scene_q));
            }
            assert(with_scene =~= ended_lines(l5));
            let l6 = l5.push(Seq::<char>::empty());
            let l7 = l6.push("[layout]"@);
            let l8 = l7.push(entry("tree"@, debug_text(tree@)));
            lemma_ended_lines_push(l5, Seq::<char>::empty());
            lemma_ended_lines_push(l6, "[layout]"@);
            lemma_ended_lines_push(l7, entry("tree"@, debug_text(tree@)));
            assert(l8 == settings_lines(v, scene_q, debug_text(tree@)));
            assert(out@ =~= ended_lines(l8));
            if (v.0 is Some ==> plain_text(v.0->0)) && plain_text(tree@) {
                assert(debug_text(tree@) == quoted(tree@));
                if v.0 is Some {
                    assert(scene_q == quoted(v.0->0));
                }
            }
        }
        string_of(&out)
    }

    /// The layout's text that the last `tree` line of a settings file holds,
    /// unquoted, if the file has one.
    pub fn layout_of(text: &str) -> (r: Option<String>)
        ensures
            r is Some <==> layout_line(text_lines(text@)) is Some,
            r is Some ==> r->0@ == layout_line(text_lines(text@))->0,
    {
        proof {
            reveal_strlit("tree");
        }
        let lines = lines_of(text);
        let ghost all = lines@.map_values(|l: Vec<char>| l@);
        let mut found: Option<String> = None;
        let mut k: usize = 0;
        while k < lines.len()
            invariant
                k <= lines@.len(),
                all == lines@.map_values(|l: Vec<char>| l@),
                found is Some <==> layout_line(all.take(k as int)) is Some,
                found is Some ==> found->0@ == layout_line(all.take(k as int))->0,
            decreases lines@.len() - k,
        {
            proof {
                assert(all.take(k as int + 1).drop_last() =~= all.take(k as int));
                assert(all.take(k as int + 1).last() == lines@[k as int]@);
            }
            let line = &lines[k];
            let n = line.len();
            if let Some(eq) = find_first(line, '=') {
                let key_text = piece(line, 0, eq);
                if crate::text::same_name(trim(key_text.as_str()), "tree") {
                    let value_text = piece(line, eq + 1, n);
                    found = Some(unquote(trim(value_text.as_str())));
                }
            }
            k = k + 1;
        }
        proof {
            assert(all.take(k as int) =~= all);
        }
        found
    }
}

impl Default for Settings {
    fn default() -> (s: Self)
        ensures
            s.view_of() == default_settings(),
    {
        Self::new()
    }
}

} // verus!
