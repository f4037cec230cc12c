use vstd::prelude::*;
use crate::text::{chars_range, from_chars, to_chars};
use crate::config::Config;
use crate::path::{file_name, join, path_file_name, path_join};

verus! {

/// Index of the first `\n` in `s`, or `s.len()` when there is none.
pub open spec fn first_newline(s: Seq<char>) -> int
    decreases s.len(),
{
    if s.len() == 0 {
        0
    } else if s[0] == '\n' {
        0
    } else {
        1 + first_newline(s.drop_first())
    }
}

pub proof fn lemma_first_newline(s: Seq<char>)
    ensures
        0 <= first_newline(s) <= s.len(),
        first_newline(s) < s.len() ==> s[first_newline(s)] == '\n',
        forall|j: int| 0 <= j < first_newline(s) ==> s[j] != '\n',
    decreases s.len(),
{
    if s.len() > 0 && s[0] != '\n' {
        lemma_first_newline(s.drop_first());
        assert forall|j: int| 0 <= j < first_newline(s) implies s[j] != '\n' by {
            if j > 0 {
                assert(s[j] == s.drop_first()[j - 1]);
            }
        }
    }
}

pub proof fn lemma_first_newline_unique(s: Seq<char>, i: int)
    requires
        0 <= i <= s.len(),
        i < s.len() ==> s[i] == '\n',
        forall|j: int| 0 <= j < i ==> s[j] != '\n',
    ensures
        first_newline(s) == i,
    decreases s.len(),
{
    if s.len() > 0 && s[0] != '\n' {
        assert forall|j: int| 0 <= j < i - 1 implies s.drop_first()[j] != '\n' by {
            assert(s.drop_first()[j] == s[j + 1]);
        }
        if i - 1 < s.len() - 1 {
            assert(s.drop_first()[i - 1] == s[i]);
        }
        lemma_first_newline_unique(s.drop_first(), i - 1);
    }
}

/// A line without the `\r` of a `\r\n` line ending.
pub open spec fn strip_cr(line: Seq<char>) -> Seq<char> {
    if line.len() > 0 && line.last() == '\r' {
        line.drop_last()
    } else {
        line
    }
}

/// The lines of a text: split at each `\n`, a `\r` before the `\n` dropped;
/// a final line ending adds no empty line, and the empty text has no lines.
pub open spec fn lines(s: Seq<char>) -> Seq<Seq<char>>
    decreases s.len(),
{
    if s.len() == 0 {
        Seq::empty()
    } else {
        let i = first_newline(s);
        proof { lemma_first_newline(s); }
        if i >= s.len() {
            seq![s]
        } else {
            seq![strip_cr(s.subrange(0, i))] + lines(s.subrange(i + 1, s.len() as int))
        }
    }
}

/// The characters `char::is_whitespace` accepts (Unicode `White_Space`).
pub open spec fn is_whitespace(c: char) -> bool {
    ||| '\t' <= c <= '\r'
    ||| c == ' '
    ||| c == '\u{85}'
    ||| c == '\u{a0}'
    ||| c == '\u{1680}'
    ||| '\u{2000}' <= c <= '\u{200a}'
    ||| c == '\u{2028}'
    ||| c == '\u{2029}'
    ||| c == '\u{202f}'
    ||| c == '\u{205f}'
    ||| c == '\u{3000}'
}

/// Number of leading whitespace characters of `s`.
pub open spec fn leading_ws(s: Seq<char>) -> int
    decreases s.len(),
{
    if s.len() > 0 && is_whitespace(s[0]) {
        1 + leading_ws(s.drop_first())
    } else {
        0
    }
}

/// `s` without its leading whitespace.
pub open spec fn trim_start(s: Seq<char>) -> Seq<char>
    decreases s.len(),
{
    if s.len() > 0 && is_whitespace(s[0]) {
        trim_start(s.drop_first())
    } else {
        s
    }
}

/// A theme.conf line that sets the background: after leading whitespace it
/// starts with `background=` or `Background=`.
pub open spec fn is_background_line(line: Seq<char>) -> bool {
    let t = trim_start(line);
    let key = seq!['a', 'c', 'k', 'g', 'r', 'o', 'u', 'n', 'd', '='];
    &&& t.len() >= 11
    &&& (t[0] == 'b' || t[0] == 'B')
    &&& t.subrange(1, 11) == key
}

/// The line that points the theme at `Backgrounds/<name>`.
pub open spec fn background_line(name: Seq<char>) -> Seq<char> {
    seq!['b', 'a', 'c', 'k', 'g', 'r', 'o', 'u', 'n', 'd', '=', 'B', 'a', 'c', 'k', 'g', 'r', 'o', 'u', 'n', 'd', 's', '/'] + name
}

/// The lines joined by `\n`.
pub open spec fn join_lines(ls: Seq<Seq<char>>) -> Seq<char>
    decreases ls.len(),
{
    if ls.len() == 0 {
        Seq::empty()
    } else if ls.len() == 1 {
        ls[0]
    } else {
        join_lines(ls.drop_last()) + seq!['\n'] + ls.last()
    }
}

/// Each background line replaced by the line for `name`.
pub open spec fn replace_background(ls: Seq<Seq<char>>, name: Seq<char>) -> Seq<Seq<char>> {
    ls.map_values(|l: Seq<char>| if is_background_line(l) { background_line(name) } else { l })
}

/// Whether some line sets the background.
pub open spec fn has_background(ls: Seq<Seq<char>>) -> bool {
    exists|i: int| 0 <= i < ls.len() && is_background_line(#[trigger] ls[i])
}

/// theme.conf with its background pointed at `Backgrounds/<name>`: every
/// background line is replaced, and one is added at the end when there was
/// none. Lines are joined by `\n`, without a final line ending.
pub open spec fn rewrite_conf(content: Seq<char>, name: Seq<char>) -> Seq<char> {
    let ls = lines(content);
    let replaced = replace_background(ls, name);
    if has_background(ls) {
        join_lines(replaced)
    } else {
        join_lines(replaced.push(background_line(name)))
    }
}

/// The lines of `v` (see [`lines`]).
fn split_lines(v: &Vec<char>) -> (r: Vec<Vec<char>>)
    ensures
        r@.len() == lines(v@).len(),
        forall|i: int| 0 <= i < r@.len() ==> (#[trigger] r@[i])@ == lines(v@)[i],
{
    let mut out: Vec<Vec<char>> = Vec::new();
    let ghost acc: Seq<Seq<char>> = Seq::empty();
    let mut pos: usize = 0;
    assert(v@.subrange(0, v@.len() as int) == v@);
    while pos < v.len()
        invariant
            pos <= v.len(),
            out@.len() == acc.len(),
            forall|i: int| 0 <= i < out@.len() ==> (#[trigger] out@[i])@ == acc[i],
            lines(v@) == acc + lines(v@.subrange(pos as int, v@.len() as int)),
        decreases v.len() - pos,
    {
        let ghost rest = v@.subrange(pos as int, v@.len() as int);
        let mut i = pos;
        while i < v.len() && v[i] != '\n'
            invariant
                pos <= i <= v.len(),
                forall|j: int| pos <= j < i ==> v@[j] != '\n',
            decreases v.len() - i,
        {
            i = i + 1;
        }
        proof {
            assert forall|j: int| 0 <= j < i - pos implies rest[j] != '\n' by {
                assert(rest[j] == v@[j + pos]);
            }
            if i < v.len() {
                assert(rest[i - pos] == v@[i as int]);
            }
            lemma_first_newline_unique(rest, i - pos);
        }
        let mut end = i;
        if i < v.len() && end > pos && v[end - 1] == '\r' {
            end = end - 1;
        }
        let line = chars_range(v, pos, end);
        proof {
            let seg = rest.subrange(0, i - pos);
            assert(seg == v@.subrange(pos as int, i as int));
            if i < v.len() {
                assert(strip_cr(seg) == line@) by {
                    if seg.len() > 0 && seg.last() == '\r' {
                        assert(seg.drop_last() =~= line@);
                    } else {
                        assert(seg =~= line@);
                    }
                }
                assert(rest.subrange(i - pos + 1, rest.len() as int)
                    =~= v@.subrange(i + 1, v@.len() as int));
                assert(lines(rest) == seq![line@] + lines(v@.subrange(i + 1, v@.len() as int)));
            } else {
                assert(seg =~= rest);
                assert(line@ =~= rest);
                assert(lines(rest) == seq![line@]);
            }
        }
        let ghost old_out = out@;
        out.push(line);
        proof {
            acc = acc.push(line@);
            assert forall|k: int| 0 <= k < out@.len() implies (#[trigger] out@[k])@ == acc[k] by {
                if k < old_out.len() {
                    assert(out@[k] == old_out[k]);
                }
            }
        }
        if i < v.len() {
            proof {
                assert(lines(v@) =~= acc + lines(v@.subrange(i + 1, v@.len() as int)));
            }
            pos = i + 1;
        } else {
            proof {
                assert(v@.subrange(v@.len() as int, v@.len() as int) =~= Seq::<char>::empty());
                assert(lines(v@) =~= acc + lines(v@.subrange(i as int, v@.len() as int)));
            }
            pos = i;
        }
    }
    proof {
        assert(v@.subrange(pos as int, v@.len() as int) =~= Seq::<char>::empty());
        assert(lines(v@) =~= acc);
    }
    out
}

fn whitespace(c: char) -> (r: bool)
    ensures
        r == is_whitespace(c),
{
    ('\t' <= c && c <= '\r') || c == ' ' || c == '\u{85}' || c == '\u{a0}' || c == '\u{1680}'
        || ('\u{2000}' <= c && c <= '\u{200a}') || c == '\u{2028}' || c == '\u{2029}'
        || c == '\u{202f}' || c == '\u{205f}' || c == '\u{3000}'
}

/// Whether the line sets the background (see [`is_background_line`]).
fn background_line_test(line: &Vec<char>) -> (r: bool)
    ensures
        r == is_background_line(line@),
{
    let mut i: usize = 0;
    assert(line@.skip(0) == line@);
    while i < line.len() && whitespace(line[i])
        invariant
            i <= line.len(),
            trim_start(line@) == trim_start(line@.skip(i as int)),
        decreases line.len() - i,
    {
        assert(line@.skip(i as int).drop_first() == line@.skip(i + 1));
        i = i + 1;
    }
    let ghost t = line@.skip(i as int);
    assert(trim_start(t) == t) by {
        if t.len() > 0 {
            assert(t[0] == line@[i as int]);
        }
    }
    if line.len() - i < 11 {
        return false;
    }
    if line[i] != 'b' && line[i] != 'B' {
        assert(t[0] == line@[i as int]);
        return false;
    }
    let key = ['a', 'c', 'k', 'g', 'r', 'o', 'u', 'n', 'd', '='];
    let mut j: usize = 0;
    while j < 10
        invariant
            j <= 10,
            i + 11 <= line.len(),
            t == line@.skip(i as int),
            trim_start(line@) == t,
            key@ == seq!['a', 'c', 'k', 'g', 'r', 'o', 'u', 'n', 'd', '='],
            forall|k: int| 0 <= k < j ==> t[k + 1] == key@[k],
        decreases 10 - j,
    {
        if line[i + 1 + j] != key[j] {
            assert(t[j + 1] == line@[i + 1 + j]);
            assert(t.subrange(1, 11)[j as int] != key@[j as int]);
            return false;
        }
        assert(t[j + 1] == line@[i + 1 + j]);
        j = j + 1;
    }
    assert(t.subrange(1, 11) =~= key@);
    assert(t[0] == line@[i as int]);
    true
}

fn push_all(out: &mut Vec<char>, s: &Vec<char>)
    ensures
        final(out)@ == old(out)@ + s@,
{
    let mut i: usize = 0;
    let ghost start = out@;
    while i < s.len()
        invariant
            i <= s.len(),
            out@ == start + s@.take(i as int),
        decreases s.len() - i,
    {
        out.push(s[i]);
        assert(s@.take(i + 1) == s@.take(i as int).push(s@[i as int]));
        i = i + 1;
    }
    assert(s@.take(s.len() as int) == s@);
}

fn make_background_line(name: &Vec<char>) -> (r: Vec<char>)
    ensures
        r@ == background_line(name@),
{
    let mut r: Vec<char> = Vec::new();
    let prefix = ['b', 'a', 'c', 'k', 'g', 'r', 'o', 'u', 'n', 'd', '=', 'B', 'a', 'c', 'k', 'g', 'r', 'o', 'u', 'n', 'd', 's', '/'];
    let mut i: usize = 0;
    while i < 23
        invariant
            i <= 23,
            prefix@ == seq!['b', 'a', 'c', 'k', 'g', 'r', 'o', 'u', 'n', 'd', '=', 'B', 'a', 'c', 'k', 'g', 'r', 'o', 'u', 'n', 'd', 's', '/'],
            r@ == prefix@.take(i as int),
        decreases 23 - i,
    {
        r.push(prefix[i]);
        assert(prefix@.take(i + 1) == prefix@.take(i as int).push(prefix@[i as int]));
        i = i + 1;
    }
    assert(prefix@.take(23) == prefix@);
    push_all(&mut r, name);
    r
}

/// theme.conf rewritten so the SDDM theme shows `Backgrounds/<name>` (see
/// [`rewrite_conf`]).
pub fn rewrite_theme_conf(content: &str, name: &str) -> (r: String)
    ensures
        r@ == rewrite_conf(content@, name@),
{
    let ls = split_lines(&to_chars(content));
    let bg = make_background_line(&to_chars(name));
    let ghost lv = lines(content@);
    let ghost replaced = replace_background(lv, name@);
    let mut found = false;
    let mut out: Vec<char> = Vec::new();
    let mut i: usize = 0;
    while i < ls.len()
        invariant
            i <= ls.len(),
            ls@.len() == lv.len(),
            forall|k: int| 0 <= k < ls@.len() ==> (#[trigger] ls@[k])@ == lv[k],
            bg@ == background_line(name@),
            replaced == replace_background(lv, name@),
            out@ == join_lines(replaced.take(i as int)),
            found == exists|k: int| 0 <= k < i && is_background_line(#[trigger] lv[k]),
        decreases ls.len() - i,
    {
        let is_bg = background_line_test(&ls[i]);
        assert(replaced[i as int] == if is_bg { background_line(name@) } else { lv[i as int] });
        if i > 0 {
            out.push('\n');
        }
        if is_bg {
            push_all(&mut out, &bg);
            found = true;
        } else {
            push_all(&mut out, &ls[i]);
        }
        proof {
            let t = replaced.take(i + 1);
            assert(t.drop_last() == replaced.take(i as int));
            assert(t.last() == replaced[i as int]);
            if i == 0 {
                assert(join_lines(t) == t[0]);
                assert(join_lines(replaced.take(0)) == Seq::<char>::empty());
            }
            assert(out@ =~= join_lines(t));
            if is_bg {
                assert(is_background_line(lv[i as int]));
            }
        }
        i = i + 1;
    }
    assert(replaced.take(ls.len() as int) =~= replaced);
    assert(found == has_background(lv));
    if !found {
        proof {
            let t = replaced.push(background_line(name@));
            assert(t.drop_last() == replaced);
            if replaced.len() == 0 {
                assert(join_lines(replaced) == Seq::<char>::empty());
            }
        }
        if ls.len() > 0 {
            out.push('\n');
        }
        push_all(&mut out, &bg);
        assert(out@ =~= join_lines(replaced.push(background_line(name@))));
    }
    from_chars(&out)
}

/// The lines joined by `\n`, built from the front.
spec fn join_front(ls: Seq<Seq<char>>) -> Seq<char>
    decreases ls.len(),
{
    if ls.len() == 0 {
        Seq::empty()
    } else if ls.len() == 1 {
        ls[0]
    } else {
        ls[0] + seq!['\n'] + join_front(ls.drop_first())
    }
}

proof fn lemma_join_front(ls: Seq<Seq<char>>)
    ensures
        join_lines(ls) == join_front(ls),
    decreases ls.len(),
{
    if ls.len() >= 2 {
        lemma_join_front(ls.drop_last());
        lemma_join_front(ls.drop_first());
        if ls.len() == 2 {
            assert(ls.drop_last().len() == 1);
            assert(ls.drop_first().len() == 1);
            assert(join_front(ls.drop_first()) == ls[1]);
        } else {
            lemma_join_front(ls.drop_first().drop_last());
            assert(ls.drop_last().drop_first() == ls.drop_first().drop_last());
            assert(ls.drop_first().last() == ls.last());
            assert(ls.drop_last()[0] == ls[0]);
            assert(join_front(ls.drop_last()) == ls[0] + seq!['\n'] + join_front(ls.drop_last().drop_first()));
            assert(join_lines(ls.drop_first()) == join_lines(ls.drop_first().drop_last()) + seq!['\n'] + ls.last());
        }
    }
}

/// A sequence without a `\n`.
pub open spec fn no_newline(s: Seq<char>) -> bool {
    forall|j: int| 0 <= j < s.len() ==> s[j] != '\n'
}

/// What `lines` gives back of joined lines: each line but the last loses a
/// final `\r`, and an empty last line disappears.
spec fn relined(ls: Seq<Seq<char>>) -> Seq<Seq<char>>
    decreases ls.len(),
{
    if ls.len() == 0 {
        Seq::empty()
    } else if ls.len() == 1 {
        if ls[0].len() == 0 { Seq::empty() } else { seq![ls[0]] }
    } else {
        seq![strip_cr(ls[0])] + relined(ls.drop_first())
    }
}

proof fn lemma_lines_of_join(ls: Seq<Seq<char>>)
    requires
        forall|i: int| 0 <= i < ls.len() ==> no_newline(#[trigger] ls[i]),
    ensures
        lines(join_front(ls)) == relined(ls),
    decreases ls.len(),
{
    if ls.len() == 1 {
        if ls[0].len() > 0 {
            lemma_first_newline_unique(ls[0], ls[0].len() as int);
        }
    } else if ls.len() >= 2 {
        let rest = ls.drop_first();
        assert forall|i: int| 0 <= i < rest.len() implies no_newline(#[trigger] rest[i]) by {
            assert(rest[i] == ls[i + 1]);
        }
        lemma_lines_of_join(rest);
        let j = join_front(ls);
        let a = ls[0];
        assert(no_newline(a));
        assert(j == a + seq!['\n'] + join_front(rest));
        assert forall|k: int| 0 <= k < a.len() implies j[k] != '\n' by {
            assert(j[k] == a[k]);
        }
        assert(j[a.len() as int] == '\n');
        lemma_first_newline_unique(j, a.len() as int);
        assert(j.subrange(0, a.len() as int) =~= a);
        assert(j.subrange(a.len() as int + 1, j.len() as int) =~= join_front(rest));
    }
}

/// Every line `relined` gives back comes from a line of `ls`.
proof fn lemma_relined_from(ls: Seq<Seq<char>>, i: int)
    requires
        0 <= i < relined(ls).len(),
    ensures
        exists|k: int| 0 <= k < ls.len() && (relined(ls)[i] == ls[k] || relined(ls)[i] == strip_cr(#[trigger] ls[k])),
    decreases ls.len(),
{
    if ls.len() == 1 {
        assert(relined(ls)[i] == ls[0]);
    } else if ls.len() >= 2 {
        if i == 0 {
            assert(relined(ls)[0] == strip_cr(ls[0]));
        } else {
            lemma_relined_from(ls.drop_first(), i - 1);
            let k = choose|k: int| 0 <= k < ls.drop_first().len() && (relined(ls.drop_first())[i - 1] == ls.drop_first()[k]
                || relined(ls.drop_first())[i - 1] == strip_cr(#[trigger] ls.drop_first()[k]));
            assert(ls.drop_first()[k] == ls[k + 1]);
        }
    }
}

/// A non-empty line of `ls` that has no final `\r` survives in `relined(ls)`.
proof fn lemma_relined_keeps(ls: Seq<Seq<char>>, k: int)
    requires
        0 <= k < ls.len(),
        ls[k].len() > 0,
        ls[k].last() != '\r',
    ensures
        relined(ls).contains(ls[k]),
    decreases ls.len(),
{
    if ls.len() == 1 {
        assert(relined(ls)[0] == ls[0]);
    } else if k == 0 {
        assert(strip_cr(ls[0]) == ls[0]);
        assert(relined(ls)[0] == ls[0]);
    } else {
        lemma_relined_keeps(ls.drop_first(), k - 1);
        let i = choose|i: int| 0 <= i < relined(ls.drop_first()).len() && relined(ls.drop_first())[i] == ls.drop_first()[k - 1];
        assert(relined(ls)[i + 1] == relined(ls.drop_first())[i]);
    }
}

/// Leading whitespace is trimmed the same way from a line and its prefixes.
proof fn lemma_trim_start_prefix(a: Seq<char>, b: Seq<char>)
    requires
        a.len() <= b.len(),
        a == b.subrange(0, a.len() as int),
    ensures
        trim_start(a).len() <= trim_start(b).len(),
        trim_start(a) == trim_start(b).subrange(0, trim_start(a).len() as int),
    decreases a.len(),
{
    if a.len() > 0 && is_whitespace(a[0]) {
        assert(a.drop_first() == b.drop_first().subrange(0, a.drop_first().len() as int));
        lemma_trim_start_prefix(a.drop_first(), b.drop_first());
    } else if a.len() > 0 {
        assert(b[0] == a[0]);
    } else {
        lemma_trim_start_is_suffix(b);
    }
}

proof fn lemma_trim_start_is_suffix(b: Seq<char>)
    ensures
        trim_start(b).len() <= b.len(),
    decreases b.len(),
{
    if b.len() > 0 && is_whitespace(b[0]) {
        lemma_trim_start_is_suffix(b.drop_first());
    }
}

/// Dropping a final `\r` does not turn a line into a background line.
proof fn lemma_strip_cr_background(m: Seq<char>)
    requires
        is_background_line(strip_cr(m)),
    ensures
        is_background_line(m),
{
    if m.len() > 0 && m.last() == '\r' {
        let a = m.drop_last();
        assert(a == m.subrange(0, a.len() as int));
        lemma_trim_start_prefix(a, m);
        let ta = trim_start(a);
        let tm = trim_start(m);
        assert(tm[0] == ta[0]);
        assert(tm.subrange(1, 11) =~= ta.subrange(1, 11));
    }
}

/// After the rewrite, theme.conf points at the image: read back line by
/// line, it has a line for `Backgrounds/<name>`, and every line that sets
/// the background is that line. (A name holding a line break, or ending in
/// a carriage return, would itself be split or cut when read back.)
pub proof fn lemma_rewrite_points_at_image(content: Seq<char>, name: Seq<char>)
    requires
        no_newline(name),
        !(name.len() > 0 && name.last() == '\r'),
    ensures
        ({
            let ls = lines(rewrite_conf(content, name));
            &&& ls.contains(background_line(name))
            &&& forall|i: int| 0 <= i < ls.len() && is_background_line(#[trigger] ls[i])
                ==> ls[i] == background_line(name)
        }),
{
    let bg = background_line(name);
    let orig = lines(content);
    let replaced = replace_background(orig, name);
    let m = if has_background(orig) { replaced } else { replaced.push(bg) };
    assert(rewrite_conf(content, name) == join_lines(m));
    lemma_join_front(m);
    lemma_lines_no_newline(content);
    assert(no_newline(bg)) by {
        assert forall|j: int| 0 <= j < bg.len() implies bg[j] != '\n' by {
            if j >= 23 {
                assert(bg[j] == name[j - 23]);
            }
        }
    }
    assert forall|i: int| 0 <= i < m.len() implies no_newline(#[trigger] m[i]) by {
        if i < replaced.len() {
            assert(replaced[i] == if is_background_line(orig[i]) { bg } else { orig[i] });
        }
    }
    lemma_lines_of_join(m);
    let out = relined(m);
    assert(bg.len() > 0 && bg.last() != '\r') by {
        if name.len() > 0 {
            assert(bg.last() == name.last());
        } else {
            assert(bg.last() == '/');
        }
    }
    // the image's line is there
    if has_background(orig) {
        let k = choose|k: int| 0 <= k < orig.len() && is_background_line(#[trigger] orig[k]);
        assert(m[k] == bg);
        lemma_relined_keeps(m, k);
    } else {
        assert(m[m.len() - 1] == bg);
        lemma_relined_keeps(m, m.len() - 1);
    }
    // every background line is the image's line
    assert forall|i: int| 0 <= i < out.len() && is_background_line(#[trigger] out[i]) implies out[i] == bg by {
        lemma_relined_from(m, i);
        let k = choose|k: int| 0 <= k < m.len() && (out[i] == m[k] || out[i] == strip_cr(#[trigger] m[k]));
        if out[i] == strip_cr(m[k]) {
            lemma_strip_cr_background(m[k]);
        }
        if k < replaced.len() {
            assert(replaced[k] == if is_background_line(orig[k]) { bg } else { orig[k] });
            if !is_background_line(orig[k]) {
                assert(is_background_line(m[k]));
                assert(false);
            }
        }
        assert(m[k] == bg);
        assert(strip_cr(bg) == bg);
    }
}

/// A sequence without a carriage return.
pub open spec fn no_cr(s: Seq<char>) -> bool {
    forall|j: int| 0 <= j < s.len() ==> s[j] != '\r'
}

/// A character missing from joined lines is missing from each line.
proof fn lemma_join_front_no_cr(ls: Seq<Seq<char>>)
    requires
        no_cr(join_front(ls)),
    ensures
        forall|i: int| 0 <= i < ls.len() ==> no_cr(#[trigger] ls[i]),
    decreases ls.len(),
{
    if ls.len() == 1 {
        assert(join_front(ls) == ls[0]);
    } else if ls.len() >= 2 {
        let j = join_front(ls);
        let rest = ls.drop_first();
        assert(j == ls[0] + seq!['\n'] + join_front(rest));
        assert forall|k: int| 0 <= k < ls[0].len() implies ls[0][k] != '\r' by {
            assert(j[k] == ls[0][k]);
        }
        assert forall|k: int| 0 <= k < join_front(rest).len() implies join_front(rest)[k] != '\r' by {
            assert(j[ls[0].len() + 1 + k] == join_front(rest)[k]);
        }
        lemma_join_front_no_cr(rest);
        assert forall|i: int| 0 <= i < ls.len() implies no_cr(#[trigger] ls[i]) by {
            if i > 0 {
                assert(ls[i] == rest[i - 1]);
            }
        }
    }
}

/// Joined lines without carriage returns, whose last line is not empty,
/// read back as the same lines.
proof fn lemma_relined_identity(ls: Seq<Seq<char>>)
    requires
        forall|i: int| 0 <= i < ls.len() ==> no_cr(#[trigger] ls[i]),
        ls.len() > 0 ==> ls.last().len() > 0,
    ensures
        relined(ls) == ls,
    decreases ls.len(),
{
    if ls.len() == 1 {
        assert(relined(ls) =~= ls);
    } else if ls.len() >= 2 {
        let rest = ls.drop_first();
        assert forall|i: int| 0 <= i < rest.len() implies no_cr(#[trigger] rest[i]) by {
            assert(rest[i] == ls[i + 1]);
        }
        lemma_relined_identity(rest);
        assert(no_cr(ls[0]));
        assert(strip_cr(ls[0]) == ls[0]) by {
            if ls[0].len() > 0 {
                assert(ls[0][ls[0].len() - 1] != '\r');
            }
        }
        assert(relined(ls) =~= ls);
    }
}

/// The line for the image is a background line.
proof fn lemma_background_line_is_background(name: Seq<char>)
    ensures
        is_background_line(background_line(name)),
{
    let bg = background_line(name);
    assert(bg[0] == 'b');
    assert(trim_start(bg) == bg);
    assert(bg.subrange(1, 11) =~= seq!['a', 'c', 'k', 'g', 'r', 'o', 'u', 'n', 'd', '=']);
}

/// Rewriting theme.conf a second time changes nothing, provided the first
/// rewrite reads back as the lines it wrote: it holds no carriage return and
/// does not end with a line break, and the image's name holds no line break.
pub proof fn lemma_rewrite_idempotent(content: Seq<char>, name: Seq<char>)
    requires
        no_newline(name),
        no_cr(rewrite_conf(content, name)),
        !(rewrite_conf(content, name).len() > 0 && rewrite_conf(content, name).last() == '\n'),
    ensures
        rewrite_conf(rewrite_conf(content, name), name) == rewrite_conf(content, name),
{
    let bg = background_line(name);
    let orig = lines(content);
    let replaced = replace_background(orig, name);
    let m = if has_background(orig) { replaced } else { replaced.push(bg) };
    let t = rewrite_conf(content, name);
    assert(t == join_lines(m));
    lemma_join_front(m);
    lemma_lines_no_newline(content);
    lemma_background_line_is_background(name);
    assert(no_newline(bg)) by {
        assert forall|j: int| 0 <= j < bg.len() implies bg[j] != '\n' by {
            if j >= 23 {
                assert(bg[j] == name[j - 23]);
            }
        }
    }
    // every line written is the image's line or a line that sets no background
    assert forall|i: int| 0 <= i < m.len() implies no_newline(#[trigger] m[i])
        && (m[i] == bg || !is_background_line(m[i])) by {
        if i < replaced.len() {
            assert(replaced[i] == if is_background_line(orig[i]) { bg } else { orig[i] });
        }
    }
    // the image's line is among them
    let kb: int = if has_background(orig) {
        choose|k: int| 0 <= k < orig.len() && is_background_line(#[trigger] orig[k])
    } else {
        m.len() - 1
    };
    assert(0 <= kb < m.len() && m[kb] == bg) by {
        if has_background(orig) {
            assert(replaced[kb] == bg);
        }
    }
    // read back, the rewrite gives the same lines
    lemma_lines_of_join(m);
    lemma_join_front_no_cr(m);
    assert(m.last().len() > 0) by {
        if m.len() == 1 {
            assert(m.last() == bg);
        } else if m.last().len() == 0 {
            assert(join_lines(m) == join_lines(m.drop_last()) + seq!['\n'] + m.last());
            assert(t.last() == '\n');
        }
    }
    lemma_relined_identity(m);
    assert(lines(t) == m);
    assert(has_background(m)) by {
        assert(is_background_line(m[kb]));
    }
    assert(replace_background(m, name) =~= m);
}

/// Joined lines none of which ends in a carriage return read back as the
/// same lines, but for an empty last line, which disappears.
proof fn lemma_relined_no_final_cr(ls: Seq<Seq<char>>)
    requires
        ls.len() > 0,
        forall|i: int| 0 <= i < ls.len() ==> strip_cr(#[trigger] ls[i]) == ls[i],
    ensures
        relined(ls) == if ls.last().len() > 0 { ls } else { ls.drop_last() },
    decreases ls.len(),
{
    if ls.len() == 1 {
        if ls[0].len() > 0 {
            assert(relined(ls) =~= ls);
        } else {
            assert(ls.drop_last() =~= Seq::<Seq<char>>::empty());
        }
    } else {
        let rest = ls.drop_first();
        assert forall|i: int| 0 <= i < rest.len() implies strip_cr(#[trigger] rest[i]) == rest[i] by {
            assert(rest[i] == ls[i + 1]);
        }
        lemma_relined_no_final_cr(rest);
        assert(strip_cr(ls[0]) == ls[0]);
        assert(rest.last() == ls.last());
        if ls.last().len() > 0 {
            assert(relined(ls) =~= ls);
        } else {
            assert(relined(ls) =~= ls.drop_last());
        }
    }
}

/// Rewriting theme.conf keeps every other line: read back, line `i` of the
/// result is line `i` of the original when that line does not set the
/// background, and the image's line when it does; the image's line is added
/// at the end when no line set the background. Nothing else is added,
/// dropped or moved, except that an empty last line disappears (the result
/// has no final line ending). Left out are the texts with a line that
/// still ends in a carriage return once read (such as a last line `a\r`),
/// and image names that end in one or hold a line break: written back
/// followed by `\n`, such a line would be read without its `\r`, or split.
pub proof fn lemma_rewrite_keeps_other_lines(content: Seq<char>, name: Seq<char>)
    requires
        no_newline(name),
        strip_cr(name) == name,
        forall|i: int| 0 <= i < lines(content).len() ==> strip_cr(#[trigger] lines(content)[i]) == lines(content)[i],
    ensures
        ({
            let l = lines(content);
            let r = lines(rewrite_conf(content, name));
            let bg = background_line(name);
            &&& forall|i: int| 0 <= i < l.len() && i < r.len() ==>
                #[trigger] r[i] == if is_background_line(l[i]) { bg } else { l[i] }
            &&& !has_background(l) ==> r.len() == l.len() + 1 && r[l.len() as int] == bg
            &&& has_background(l) ==> (r.len() == l.len() || (r.len() + 1 == l.len() && l.last().len() == 0))
        }),
{
    let bg = background_line(name);
    let l = lines(content);
    let replaced = replace_background(l, name);
    let m = if has_background(l) { replaced } else { replaced.push(bg) };
    let t = rewrite_conf(content, name);
    assert(t == join_lines(m));
    lemma_join_front(m);
    lemma_lines_no_newline(content);
    assert(no_newline(bg)) by {
        assert forall|j: int| 0 <= j < bg.len() implies bg[j] != '\n' by {
            if j >= 23 {
                assert(bg[j] == name[j - 23]);
            }
        }
    }
    assert(strip_cr(bg) == bg) by {
        if name.len() > 0 {
            assert(bg.last() == name.last());
        } else {
            assert(bg.last() == '/');
        }
    }
    assert forall|i: int| 0 <= i < m.len() implies no_newline(#[trigger] m[i]) && strip_cr(m[i]) == m[i] by {
        if i < replaced.len() {
            assert(replaced[i] == if is_background_line(l[i]) { bg } else { l[i] });
        }
    }
    lemma_lines_of_join(m);
    assert(lines(t) == relined(m));
    if m.len() > 0 {
        lemma_relined_no_final_cr(m);
    } else {
        assert(relined(m) == m);
    }
    let r = lines(t);
    assert forall|i: int| 0 <= i < l.len() && i < r.len() implies
        #[trigger] r[i] == if is_background_line(l[i]) { bg } else { l[i] } by {
        assert(r[i] == m[i]);
        assert(m[i] == replaced[i]);
    }
    if !has_background(l) {
        assert(m.last() == bg);
        assert(bg[0] == 'b');
        assert(r == m);
    } else if l.len() > 0 {
        assert(m.last() == replaced[l.len() - 1]);
        if l.last().len() > 0 {
            assert(bg[0] == 'b');
            assert(m.last().len() > 0);
        }
    }
}

/// Lines never hold a line break.
proof fn lemma_lines_no_newline(s: Seq<char>)
    ensures
        forall|i: int| 0 <= i < lines(s).len() ==> no_newline(#[trigger] lines(s)[i]),
    decreases s.len(),
{
    if s.len() > 0 {
        lemma_first_newline(s);
        let i = first_newline(s);
        if i < s.len() {
            let rest = s.subrange(i + 1, s.len() as int);
            lemma_lines_no_newline(rest);
            let first = strip_cr(s.subrange(0, i));
            assert(no_newline(first)) by {
                assert forall|j: int| 0 <= j < first.len() implies first[j] != '\n' by {
                    assert(first[j] == s[j]);
                }
            }
            assert forall|k: int| 0 <= k < lines(s).len() implies no_newline(#[trigger] lines(s)[k]) by {
                if k > 0 {
                    assert(lines(s)[k] == lines(rest)[k - 1]);
                }
            }
        } else {
            assert(lines(s) == seq![s]);
        }
    }
}

/// The copy of the image lands under the very name theme.conf is pointed
/// at: the file name of the job's destination is the image's file name.
pub proof fn lemma_copy_matches_conf(theme_dir: Seq<char>, image: Seq<char>)
    requires
        file_name(image) is Some,
    ensures
        file_name(sddm_dest(theme_dir, file_name(image)->0)) == Some(file_name(image)->0),
{
    crate::path::lemma_file_name_is_component(image);
    crate::path::lemma_file_name_of_join(join(theme_dir, "Backgrounds"@), file_name(image)->0);
}

/// A failed step: what went wrong, and the underlying error's text when
/// there is one.
#[derive(Clone, Debug)]
pub struct SddmFailure {
    pub message: String,
    pub cause: Option<String>,
}

/// The stages of setting the SDDM wallpaper.
#[derive(Clone, Copy, Debug, PartialEq, Eq)]
pub enum SddmStage {
    /// Waiting for `sudo -n true`
    CheckingSudo,
    /// Waiting for `sudo cp <image> <dest>`
    Copying,
    /// Waiting for the current user's name
    FindingUser,
    /// Waiting for `sudo chown <user>:<user> <dest>`
    Chowning,
    /// Waiting for theme.conf's contents
    ReadingConf,
    /// Waiting for `sudo tee <theme.conf>` to write the new contents
    WritingConf,
    /// Nothing left to do
    Finished,
}

/// What happened in the step the job asked for.
#[derive(Debug)]
pub enum SddmEvent {
    /// How a command ended: whether it succeeded, or why it could not run
    Status(Result<bool, String>),
    /// The current user's name, or why it is unknown
    User(Result<String, String>),
    /// theme.conf's contents, or why they could not be read
    Conf(Result<String, String>),
}

/// What the job asks the caller to do next.
#[derive(Debug)]
pub enum SddmStep {
    /// Run `sudo -n true`
    CheckSudo,
    /// Run `sudo cp <src> <dest>`
    Copy { src: String, dest: String },
    /// Find the current user's name
    FindUser,
    /// Run `sudo chown <owner> <path>`
    Chown { owner: String, path: String },
    /// Read the file at `path`
    ReadConf { path: String },
    /// Write `content` to `path` through `sudo tee`
    WriteConf { path: String, content: String },
    /// The wallpaper is set
    Done,
    /// The job stopped
    Failed(SddmFailure),
}

/// Setting the SDDM login screen wallpaper: copy the image into the
/// theme's Backgrounds directory, give it to the current user, and point
/// theme.conf at it.
#[derive(Clone, Debug)]
pub struct SddmJob {
    /// The image to use
    pub image: String,
    /// Its file name
    pub file_name: String,
    /// Where the copy goes: `<theme dir>/Backgrounds/<file name>`
    pub dest: String,
    /// The theme's theme.conf
    pub theme_conf: String,
    pub stage: SddmStage,
}

/// `<theme dir>/Backgrounds/<name>`.
pub open spec fn sddm_dest(theme_dir: Seq<char>, name: Seq<char>) -> Seq<char> {
    join(join(theme_dir, "Backgrounds"@), name)
}

/// Whether the event answers the step the job waits for.
pub open spec fn event_fits(stage: SddmStage, event: SddmEvent) -> bool {
    match stage {
        SddmStage::FindingUser => event is User,
        SddmStage::ReadingConf => event is Conf,
        SddmStage::Finished => false,
        _ => event is Status,
    }
}

pub open spec fn failure_is(step: SddmStep, message: Seq<char>, cause: Option<Seq<char>>) -> bool {
    step matches SddmStep::Failed(f) && f.message@ == message && match (f.cause, cause) {
        (Some(a), Some(b)) => a@ == b,
        (None, None) => true,
        _ => false,
    }
}

pub open spec fn sudo_message() -> Seq<char> {
    "SDDM wallpaper setting requires sudo access. Run with sudo or configure passwordless sudo."@
}

pub open spec fn copy_message() -> Seq<char> {
    "Failed to copy image to SDDM theme directory"@
}

pub open spec fn user_message() -> Seq<char> {
    "Could not determine current username from USER or USERNAME environment variables"@
}

pub open spec fn chown_run_message() -> Seq<char> {
    "Failed to set ownership on the file"@
}

pub open spec fn chown_message() -> Seq<char> {
    "Failed to set ownership on the image in the SDDM theme directory"@
}

pub open spec fn read_conf_message(conf: Seq<char>) -> Seq<char> {
    "Failed to read theme.conf at "@ + conf + " - ensure SDDM theme is installed"@
}

pub open spec fn write_run_message() -> Seq<char> {
    "Failed to write theme.conf"@
}

pub open spec fn write_message() -> Seq<char> {
    "Failed to write updated theme.conf"@
}

pub open spec fn no_file_name_message() -> Seq<char> {
    "Failed to get image filename"@
}

fn failure(message: &str, cause: Option<String>) -> (r: SddmStep)
    ensures
        r matches SddmStep::Failed(f) && f.message@ == message@ && f.cause == cause,
{
    SddmStep::Failed(SddmFailure { message: String::from_str(message), cause })
}

fn concat3(a: &str, b: &str, c: &str) -> (r: String)
    ensures
        r@ == a@ + b@ + c@,
{
    let mut r = String::from_str(a);
    r.append(b);
    r.append(c);
    r
}

impl SddmJob {
    /// Prepares the job for `image` with the theme of `config`; fails when
    /// the image path has no file name. The first step is the sudo check.
    pub fn start(image: &str, config: &Config) -> (r: Result<(SddmJob, SddmStep), SddmFailure>)
        ensures
            match file_name(image@) {
                Some(name) => r matches Ok((job, step)) && {
                    &&& job.image@ == image@
                    &&& job.file_name@ == name
                    &&& job.dest@ == sddm_dest(config.sddm_theme_dir@, name)
                    &&& job.theme_conf == config.sddm_theme_conf
                    &&& job.stage == SddmStage::CheckingSudo
                    &&& step is CheckSudo
                },
                None => r matches Err(f) && f.message@ == no_file_name_message() && f.cause is None,
            },
    {
        match path_file_name(&to_chars(image)) {
            Some(name) => {
                let file_name = from_chars(&name);
                let dir = path_join(config.sddm_theme_dir.as_str(), "Backgrounds");
                let dest = path_join(dir.as_str(), file_name.as_str());
                let job = SddmJob {
                    image: String::from_str(image),
                    file_name,
                    dest,
                    theme_conf: config.sddm_theme_conf.clone(),
                    stage: SddmStage::CheckingSudo,
                };
                Ok((job, SddmStep::CheckSudo))
            },
            None => Err(SddmFailure { message: String::from_str("Failed to get image filename"), cause: None }),
        }
    }

    /// Whether `event` answers the step the job waits for.
    pub fn accepts(&self, event: &SddmEvent) -> (r: bool)
        ensures
            r == event_fits(self.stage, *event),
    {
        match self.stage {
            SddmStage::FindingUser => match event { SddmEvent::User(_) => true, _ => false },
            SddmStage::ReadingConf => match event { SddmEvent::Conf(_) => true, _ => false },
            SddmStage::Finished => false,
            _ => match event { SddmEvent::Status(_) => true, _ => false },
        }
    }

    /// Takes the outcome of the pending step and says what to do next. Any
    /// failure ends the job; success moves on to the next step: sudo check,
    /// copy, user lookup, chown, reading theme.conf, writing it back rewritten.
    pub fn advance(&mut self, event: SddmEvent) -> (r: SddmStep)
        requires
            event_fits(old(self).stage, event),
        ensures
            final(self).image == old(self).image,
            final(self).file_name == old(self).file_name,
            final(self).dest == old(self).dest,
            final(self).theme_conf == old(self).theme_conf,
            (r is Done || r is Failed) <==> final(self).stage == SddmStage::Finished,
            match (old(self).stage, event) {
                (SddmStage::CheckingSudo, SddmEvent::Status(Ok(true))) =>
                    r matches SddmStep::Copy { src, dest } && src == old(self).image && dest == old(self).dest
                    && final(self).stage == SddmStage::Copying,
                (SddmStage::CheckingSudo, SddmEvent::Status(_)) => failure_is(r, sudo_message(), None),
                (SddmStage::Copying, SddmEvent::Status(Ok(true))) =>
                    r is FindUser && final(self).stage == SddmStage::FindingUser,
                (SddmStage::Copying, SddmEvent::Status(Ok(false))) => failure_is(r, copy_message(), None),
                (SddmStage::Copying, SddmEvent::Status(Err(e))) => failure_is(r, copy_message(), Some(e@)),
                (SddmStage::FindingUser, SddmEvent::User(Ok(u))) =>
                    r matches SddmStep::Chown { owner, path } && owner@ == u@ + ":"@ + u@
                    && path == old(self).dest && final(self).stage == SddmStage::Chowning,
                (SddmStage::FindingUser, SddmEvent::User(Err(e))) => failure_is(r, user_message(), Some(e@)),
                (SddmStage::Chowning, SddmEvent::Status(Ok(true))) =>
                    r matches SddmStep::ReadConf { path } && path == old(self).theme_conf
                    && final(self).stage == SddmStage::ReadingConf,
                (SddmStage::Chowning, SddmEvent::Status(Ok(false))) => failure_is(r, chown_message(), None),
                (SddmStage::Chowning, SddmEvent::Status(Err(e))) => failure_is(r, chown_run_message(), Some(e@)),
                (SddmStage::ReadingConf, SddmEvent::Conf(Ok(text))) =>
                    r matches SddmStep::WriteConf { path, content } && path == old(self).theme_conf
                    && content@ == rewrite_conf(text@, old(self).file_name@)
                    && final(self).stage == SddmStage::WritingConf,
                (SddmStage::ReadingConf, SddmEvent::Conf(Err(e))) =>
                    failure_is(r, read_conf_message(old(self).theme_conf@), Some(e@)),
                (SddmStage::WritingConf, SddmEvent::Status(Ok(true))) => r is Done,
                (SddmStage::WritingConf, SddmEvent::Status(Ok(false))) => failure_is(r, write_message(), None),
                (SddmStage::WritingConf, SddmEvent::Status(Err(e))) => failure_is(r, write_run_message(), Some(e@)),
                _ => false,
            },
    {
        let stage = self.stage;
        let step = match (stage, event) {
            (SddmStage::CheckingSudo, SddmEvent::Status(Ok(true))) => {
                self.stage = SddmStage::Copying;
                SddmStep::Copy { src: self.image.clone(), dest: self.dest.clone() }
            },
            (SddmStage::CheckingSudo, SddmEvent::Status(_)) => failure(
                "SDDM wallpaper setting requires sudo access. Run with sudo or configure passwordless sudo.",
                None,
            ),
            (SddmStage::Copying, SddmEvent::Status(Ok(true))) => {
                self.stage = SddmStage::FindingUser;
                SddmStep::FindUser
            },
            (SddmStage::Copying, SddmEvent::Status(Ok(false))) => failure("Failed to copy image to SDDM theme directory", None),
            (SddmStage::Copying, SddmEvent::Status(Err(e))) => failure("Failed to copy image to SDDM theme directory", Some(e)),
            (SddmStage::FindingUser, SddmEvent::User(Ok(u))) => {
                self.stage = SddmStage::Chowning;
                SddmStep::Chown { owner: concat3(u.as_str(), ":", u.as_str()), path: self.dest.clone() }
            },
            (SddmStage::FindingUser, SddmEvent::User(Err(e))) => failure(
                "Could not determine current username from USER or USERNAME environment variables",
                Some(e),
            ),
            (SddmStage::Chowning, SddmEvent::Status(Ok(true))) => {
                self.stage = SddmStage::ReadingConf;
                SddmStep::ReadConf { path: self.theme_conf.clone() }
            },
            (SddmStage::Chowning, SddmEvent::Status(Ok(false))) => failure(
                "Failed to set ownership on the image in the SDDM theme directory",
                None,
            ),
            (SddmStage::Chowning, SddmEvent::Status(Err(e))) => failure("Failed to set ownership on the file", Some(e)),
            (SddmStage::ReadingConf, SddmEvent::Conf(Ok(text))) => {
                self.stage = SddmStage::WritingConf;
                let content = rewrite_theme_conf(text.as_str(), self.file_name.as_str());
                SddmStep::WriteConf { path: self.theme_conf.clone(), content }
            },
            (SddmStage::ReadingConf, SddmEvent::Conf(Err(e))) => {
                let m = concat3("Failed to read theme.conf at ", self.theme_conf.as_str(), " - ensure SDDM theme is installed");
                SddmStep::Failed(SddmFailure { message: m, cause: Some(e) })
            },
            (SddmStage::WritingConf, SddmEvent::Status(Ok(true))) => SddmStep::Done,
            (SddmStage::WritingConf, SddmEvent::Status(Ok(false))) => failure("Failed to write updated theme.conf", None),
            (SddmStage::WritingConf, SddmEvent::Status(Err(e))) => failure("Failed to write theme.conf", Some(e)),
            _ => SddmStep::Done,
        };
        match step {
            SddmStep::Done => { self.stage = SddmStage::Finished; },
            SddmStep::Failed(_) => { self.stage = SddmStage::Finished; },
            _ => {},
        }
        step
    }
}

} // verus!
