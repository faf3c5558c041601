//! Text as sequences of characters: splitting on separators and joining back.

use vstd::prelude::*;

verus! {

/// The characters of a string, in order.
pub(crate) fn chars_of(s: &str) -> (v: Vec<char>)
    ensures
        v@ == s@,
{
    let mut v: Vec<char> = Vec::new();
    for c in it: s.chars()
        invariant
            it.seq() == s@,
            v@ == it.seq().take(it.index() as int),
    {
        v.push(c);
    }
    v
}

/// `std`'s `String: FromIterator<char>`: the string made of these characters,
/// in order.
#[verifier::external_body]
pub(crate) fn string_of(chars: &Vec<char>) -> (s: String)
    ensures
        s@ == chars@,
{
    chars.iter().collect()
}

/// Whether `c` is whitespace as Unicode's `White_Space` property defines it:
/// the ASCII tab, line feed, vertical tab, form feed, carriage return and
/// space, next line, no-break space, the Ogham space mark, the spaces from
/// the en quad to the hair space, the line and paragraph separators, the
/// narrow no-break space, the medium mathematical space and the ideographic
/// space.
pub open spec fn is_white_space(c: char) -> bool {
    ||| ('\u{9}' <= c && c <= '\u{d}')
    ||| c == ' '
    ||| c == '\u{85}'
    ||| c == '\u{a0}'
    ||| c == '\u{1680}'
    ||| ('\u{2000}' <= c && c <= '\u{200a}')
    ||| c == '\u{2028}'
    ||| c == '\u{2029}'
    ||| c == '\u{202f}'
    ||| c == '\u{205f}'
    ||| c == '\u{3000}'
}

/// `s` without the whitespace it starts with.
pub open spec fn trimmed_start(s: Seq<char>) -> Seq<char>
    decreases s.len(),
{
    if s.len() > 0 && is_white_space(s[0]) {
        trimmed_start(s.drop_first())
    } else {
        s
    }
}

/// `s` without the whitespace it ends with.
pub open spec fn trimmed_end(s: Seq<char>) -> Seq<char>
    decreases s.len(),
{
    if s.len() > 0 && is_white_space(s.last()) {
        trimmed_end(s.drop_last())
    } else {
        s
    }
}

/// What `str::trim` leaves of a string: the whitespace at both ends gone.
pub open spec fn trimmed(s: Seq<char>) -> Seq<char> {
    trimmed_end(trimmed_start(s))
}

/// Whitespace before a text that does not start with whitespace goes.
pub proof fn lemma_trimmed_start(w: Seq<char>, t: Seq<char>)
    requires
        forall|i: int| 0 <= i < w.len() ==> is_white_space(#[trigger] w[i]),
        t.len() == 0 || !is_white_space(t[0]),
    ensures
        trimmed_start(w + t) == t,
    decreases w.len(),
{
    if w.len() == 0 {
        assert(w + t =~= t);
    } else {
        assert((w + t).drop_first() =~= w.drop_first() + t);
        assert((w + t)[0] == w[0]);
        lemma_trimmed_start(w.drop_first(), t);
    }
}

/// Whitespace after a text that does not end with whitespace goes.
pub proof fn lemma_trimmed_end(t: Seq<char>, w: Seq<char>)
    requires
        forall|i: int| 0 <= i < w.len() ==> is_white_space(#[trigger] w[i]),
        t.len() == 0 || !is_white_space(t.last()),
    ensures
        trimmed_end(t + w) == t,
    decreases w.len(),
{
    if w.len() == 0 {
        assert(t + w =~= t);
    } else {
        assert((t + w).drop_last() =~= t + w.drop_last());
        assert((t + w).last() == w.last());
        lemma_trimmed_end(t, w.drop_last());
    }
}

/// A text that neither starts nor ends with whitespace, between runs of
/// whitespace, is what trimming leaves.
pub proof fn lemma_trimmed(a: Seq<char>, t: Seq<char>, b: Seq<char>)
    requires
        forall|i: int| 0 <= i < a.len() ==> is_white_space(#[trigger] a[i]),
        forall|i: int| 0 <= i < b.len() ==> is_white_space(#[trigger] b[i]),
        t.len() > 0,
        !is_white_space(t[0]),
        !is_white_space(t.last()),
    ensures
        trimmed(a + t + b) == t,
{
    assert(a + t + b =~= a + (t + b));
    lemma_trimmed_start(a, t + b);
    lemma_trimmed_end(t, b);
}

/// `str::trim`: the whitespace at both ends gone, as `trimmed` says.
#[verifier::external_body]
pub(crate) fn trim(s: &str) -> (r: &str)
    ensures
        r@ == trimmed(s@),
{
    s.trim()
}

/// Whether `c` separates path segments: `/`, and `\` too when `backslash` is
/// set.
pub open spec fn is_separator(c: char, backslash: bool) -> bool {
    c == '/' || (backslash && c == '\\')
}

/// The segments `s` splits into at each separator, as `str::split` yields
/// them: always at least one, empty ones included.
pub open spec fn segments(s: Seq<char>, backslash: bool) -> Seq<Seq<char>>
    decreases s.len(),
{
    if s.len() == 0 {
        seq![Seq::<char>::empty()]
    } else if is_separator(s.last(), backslash) {
        segments(s.drop_last(), backslash).push(Seq::<char>::empty())
    } else {
        let p = segments(s.drop_last(), backslash);
        p.update(p.len() - 1, p.last().push(s.last()))
    }
}

pub proof fn lemma_segments_nonempty(s: Seq<char>, backslash: bool)
    ensures
        segments(s, backslash).len() >= 1,
    decreases s.len(),
{
    if s.len() > 0 {
        lemma_segments_nonempty(s.drop_last(), backslash);
    }
}

/// `parts` joined with `sep` between each two.
pub open spec fn join(parts: Seq<Seq<char>>, sep: char) -> Seq<char>
    decreases parts.len(),
{
    if parts.len() == 0 {
        Seq::<char>::empty()
    } else if parts.len() == 1 {
        parts[0]
    } else {
        join(parts.drop_last(), sep).push(sep) + parts.last()
    }
}

/// Splits `s` into its segments.
pub(crate) fn split(s: &Vec<char>, backslash: bool) -> (r: Vec<Vec<char>>)
    ensures
        r@.len() == segments(s@, backslash).len(),
        forall|k: int| 0 <= k < r@.len() ==> (#[trigger] r@[k])@ == segments(s@, backslash)[k],
{
    let mut done: Vec<Vec<char>> = Vec::new();
    let mut current: Vec<char> = Vec::new();
    let mut i: usize = 0;
    while i < s.len()
        invariant
            i <= s@.len(),
            done@.len() + 1 == segments(s@.take(i as int), backslash).len(),
            forall|k: int| 0 <= k < done@.len() ==> (#[trigger] done@[k])@ == segments(s@.take(i as int), backslash)[k],
            current@ == segments(s@.take(i as int), backslash).last(),
        decreases s@.len() - i,
    {
        let c = s[i];
        proof {
            assert(s@.take(i as int + 1).drop_last() == s@.take(i as int));
            assert(s@.take(i as int + 1).last() == c);
            lemma_segments_nonempty(s@.take(i as int), backslash);
        }
        if c == '/' || (backslash && c == '\\') {
            let finished = current;
            done.push(finished);
            current = Vec::new();
        } else {
            current.push(c);
        }
        i = i + 1;
    }
    proof {
        assert(s@.take(i as int) == s@);
        lemma_segments_nonempty(s@, backslash);
    }
    let last = current;
    done.push(last);
    done
}

/// Joins `parts` with `sep` between each two.
pub(crate) fn join_with(parts: &Vec<Vec<char>>, sep: char) -> (r: Vec<char>)
    ensures
        r@ == join(parts@.map_values(|p: Vec<char>| p@), sep),
{
    let ghost views = parts@.map_values(|p: Vec<char>| p@);
    let mut out: Vec<char> = Vec::new();
    let mut k: usize = 0;
    while k < parts.len()
        invariant
            k <= parts@.len(),
            views == parts@.map_values(|p: Vec<char>| p@),
            out@ == join(views.take(k as int), sep),
        decreases parts@.len() - k,
    {
        proof {
            assert(views.take(k as int + 1).drop_last() == views.take(k as int));
        }
        if k > 0 {
            out.push(sep);
        }
        let mut j: usize = 0;
        let ghost start = out@;
        while j < parts[k].len()
            invariant
                k < parts@.len(),
                j <= parts@[k as int]@.len(),
                out@ == start + parts@[k as int]@.take(j as int),
            decreases parts@[k as int]@.len() - j,
        {
            out.push(parts[k][j]);
            proof {
                assert(parts@[k as int]@.take(j as int + 1) == parts@[k as int]@.take(j as int).push(parts@[k as int]@[j as int]));
            }
            j = j + 1;
        }
        proof {
            assert(parts@[k as int]@.take(j as int) == parts@[k as int]@);
            assert(views.take(k as int + 1).last() == parts@[k as int]@);
            if k == 0 {
                assert(start == Seq::<char>::empty());
                assert(out@ == parts@[0]@);
            }
        }
        k = k + 1;
    }
    proof {
        assert(views.take(k as int) == views);
    }
    out
}

/// Whether two names are the same text.
pub(crate) fn same_name(a: &str, b: &str) -> (r: bool)
    ensures
        r == (a@ == b@),
{
    let x = String::from_str(a);
    let y = String::from_str(b);
    x == y
}

/// Whether two character sequences are equal.
pub(crate) fn same_chars(a: &Vec<char>, b: &Vec<char>) -> (r: bool)
    ensures
        r == (a@ == b@),
{
    if a.len() != b.len() {
        return false;
    }
    let mut i: usize = 0;
    while i < a.len()
        invariant
            a@.len() == b@.len(),
            i <= a@.len(),
            forall|k: int| 0 <= k < i ==> a@[k] == b@[k],
        decreases a@.len() - i,
    {
        if a[i] != b[i] {
            return false;
        }
        i = i + 1;
    }
    proof {
        assert(a@ =~= b@);
    }
    true
}

} // verus!

verus! {

/// Whether `a` sorts strictly before `b`, as Rust orders strings: character
/// by character by code point (which is also the order of their UTF-8
/// bytes), a proper prefix first.
pub open spec fn lex_less(a: Seq<char>, b: Seq<char>) -> bool
    decreases a.len(),
{
    if a.len() == 0 {
        b.len() > 0
    } else if b.len() == 0 {
        false
    } else if a[0] != b[0] {
        a[0] < b[0]
    } else {
        lex_less(a.drop_first(), b.drop_first())
    }
}

/// The order is strict: nothing sorts before itself, and of two sequences at
/// most one sorts before the other.
pub proof fn lemma_lex_asymmetric(a: Seq<char>, b: Seq<char>)
    ensures
        !lex_less(a, a),
        lex_less(a, b) ==> !lex_less(b, a),
    decreases a.len(),
{
    if a.len() > 0 && b.len() > 0 {
        lemma_lex_asymmetric(a.drop_first(), b.drop_first());
    }
    if a.len() > 0 {
        lemma_lex_asymmetric(a.drop_first(), a.drop_first());
    }
}

/// The order is transitive.
pub proof fn lemma_lex_transitive(a: Seq<char>, b: Seq<char>, c: Seq<char>)
    requires
        lex_less(a, b),
        lex_less(b, c),
    ensures
        lex_less(a, c),
    decreases a.len(),
{
    if a.len() > 0 && b.len() > 0 && c.len() > 0 && a[0] == b[0] && b[0] == c[0] {
        lemma_lex_transitive(a.drop_first(), b.drop_first(), c.drop_first());
    }
}

/// The order is total: of two different sequences one sorts first.
pub proof fn lemma_lex_total(a: Seq<char>, b: Seq<char>)
    ensures
        a != b ==> lex_less(a, b) || lex_less(b, a),
    decreases a.len(),
{
    if a.len() > 0 && b.len() > 0 {
        lemma_lex_total(a.drop_first(), b.drop_first());
        if a[0] == b[0] && a.drop_first() == b.drop_first() {
            let ta = a.drop_first();
            let tb = b.drop_first();
            assert(ta.len() == a.len() - 1);
            assert(tb.len() == b.len() - 1);
            assert(a.len() == b.len());
            assert(a =~= b) by {
                assert forall|i: int| 0 <= i < a.len() implies a[i] == b[i] by {
                    if i > 0 {
                        assert(a[i] == ta[i - 1]);
                        assert(b[i] == tb[i - 1]);
                        assert(ta[i - 1] == tb[i - 1]);
                    }
                }
            }
        }
    } else if a.len() == 0 && b.len() == 0 {
        assert(a =~= b);
    }
}

/// Past a common prefix, the order is that of what follows.
proof fn lemma_lex_skip(a: Seq<char>, b: Seq<char>, i: int)
    requires
        0 <= i <= a.len(),
        i <= b.len(),
        a.take(i) == b.take(i),
    ensures
        lex_less(a, b) == lex_less(a.skip(i), b.skip(i)),
    decreases i,
{
    if i > 0 {
        assert(a[0] == a.take(i)[0]);
        assert(b[0] == b.take(i)[0]);
        assert(a.drop_first().take(i - 1) =~= a.take(i).drop_first());
        assert(b.drop_first().take(i - 1) =~= b.take(i).drop_first());
        lemma_lex_skip(a.drop_first(), b.drop_first(), i - 1);
        assert(a.drop_first().skip(i - 1) =~= a.skip(i));
        assert(b.drop_first().skip(i - 1) =~= b.skip(i));
    } else {
        assert(a.skip(0) =~= a);
        assert(b.skip(0) =~= b);
    }
}

/// Whether `a` sorts strictly before `b`.
pub(crate) fn precedes(a: &Vec<char>, b: &Vec<char>) -> (r: bool)
    ensures
        r == lex_less(a@, b@),
{
    let mut i: usize = 0;
    while i < a.len() && i < b.len()
        invariant
            i <= a@.len(),
            i <= b@.len(),
            a@.take(i as int) == b@.take(i as int),
        decreases a@.len() - i,
    {
        if a[i] != b[i] {
            proof {
                lemma_lex_skip(a@, b@, i as int);
                assert(a@.skip(i as int)[0] == a@[i as int]);
                assert(b@.skip(i as int)[0] == b@[i as int]);
            }
            return a[i] < b[i];
        }
        proof {
            assert(a@.take(i as int + 1) =~= a@.take(i as int).push(a@[i as int]));
            assert(b@.take(i as int + 1) =~= b@.take(i as int).push(b@[i as int]));
        }
        i = i + 1;
    }
    proof {
        lemma_lex_skip(a@, b@, i as int);
    }
    i < b.len()
}

} // verus!

verus! {

/// `s` without the double quotes it starts with.
pub open spec fn trim_quotes_start(s: Seq<char>) -> Seq<char>
    decreases s.len(),
{
    if s.len() > 0 && s[0] == '"' {
        trim_quotes_start(s.drop_first())
    } else {
        s
    }
}

/// `s` without the double quotes it ends with.
pub open spec fn trim_quotes_end(s: Seq<char>) -> Seq<char>
    decreases s.len(),
{
    if s.len() > 0 && s.last() == '"' {
        trim_quotes_end(s.drop_last())
    } else {
        s
    }
}

/// A value read from a settings line, without the double quotes around it:
/// every quote at either end goes, as `str::trim_matches('"')` does.
pub fn unquote(value: &str) -> (r: String)
    ensures
        r@ == trim_quotes_end(trim_quotes_start(value@)),
{
    let chars = chars_of(value);
    proof {
        assert(chars@.skip(0) =~= chars@);
    }
    let mut start: usize = 0;
    while start < chars.len() && chars[start] == '"'
        invariant
            start <= chars@.len(),
            trim_quotes_start(chars@.skip(start as int)) == trim_quotes_start(chars@),
        decreases chars@.len() - start,
    {
        proof {
            assert(chars@.skip(start as int).drop_first() =~= chars@.skip(start as int + 1));
        }
        start = start + 1;
    }
    proof {
        if start == chars@.len() {
            assert(chars@.skip(start as int) =~= Seq::<char>::empty());
        } else {
            assert(chars@.skip(start as int)[0] == chars@[start as int]);
        }
        assert(trim_quotes_start(chars@.skip(start as int)) == chars@.skip(start as int));
        assert(chars@.subrange(start as int, chars@.len() as int) =~= chars@.skip(start as int));
    }
    let mut end: usize = chars.len();
    while end > start && chars[end - 1] == '"'
        invariant
            start <= end <= chars@.len(),
            trim_quotes_start(chars@) == chars@.skip(start as int),
            trim_quotes_end(chars@.subrange(start as int, end as int)) == trim_quotes_end(chars@.skip(start as int)),
        decreases end,
    {
        proof {
            assert(chars@.subrange(start as int, end as int).drop_last() =~= chars@.subrange(start as int, end - 1));
        }
        end = end - 1;
    }
    let mut out: Vec<char> = Vec::new();
    let mut i: usize = start;
    while i < end
        invariant
            start <= i <= end,
            end <= chars@.len(),
            out@ == chars@.subrange(start as int, i as int),
        decreases end - i,
    {
        out.push(chars[i]);
        i = i + 1;
    }
    proof {
        let rest = chars@.subrange(start as int, end as int);
        assert(!(rest.len() > 0 && rest.last() == '"'));
        assert(trim_quotes_end(rest) == rest);
    }
    string_of(&out)
}

} // verus!
