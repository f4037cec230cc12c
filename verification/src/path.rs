use vstd::prelude::*;

verus! {

/// Index of the last `/` in `s`, or -1 when there is none.
pub open spec fn last_slash(s: Seq<char>) -> int
    decreases s.len(),
{
    if s.len() == 0 {
        -1
    } else if s.last() == '/' {
        s.len() - 1
    } else {
        last_slash(s.drop_last())
    }
}

/// Index of the last `.` in `s`, or -1 when there is none.
pub open spec fn last_dot(s: Seq<char>) -> int
    decreases s.len(),
{
    if s.len() == 0 {
        -1
    } else if s.last() == '.' {
        s.len() - 1
    } else {
        last_dot(s.drop_last())
    }
}

/// The final component of a path: the last `/`-separated segment that is
/// neither empty nor `.`; there is none when that segment is `..` or when
/// no such segment exists (the path is empty, `/`, `.`, ...).
pub open spec fn file_name(p: Seq<char>) -> Option<Seq<char>>
    decreases p.len(),
{
    let k = last_slash(p);
    let seg = p.subrange(k + 1, p.len() as int);
    if seg.len() == 0 || seg == seq!['.'] {
        if k < 0 {
            None
        } else {
            proof { lemma_last_slash_bounds(p); }
            file_name(p.subrange(0, k))
        }
    } else if seg == seq!['.', '.'] {
        None
    } else {
        Some(seg)
    }
}

/// The extension of a file name: what follows its last `.`, provided that
/// `.` is not the name's first character.
pub open spec fn name_extension(name: Seq<char>) -> Option<Seq<char>> {
    let d = last_dot(name);
    if d <= 0 {
        None
    } else {
        Some(name.subrange(d + 1, name.len() as int))
    }
}

/// The extension of a path: that of its file name, if it has one.
pub open spec fn extension(p: Seq<char>) -> Option<Seq<char>> {
    match file_name(p) {
        Some(name) => name_extension(name),
        None => None,
    }
}

/// `base` extended by `rel`: an absolute `rel` replaces `base`; otherwise a `/`
/// separates them unless `base` is empty or already ends with one.
pub open spec fn join(base: Seq<char>, rel: Seq<char>) -> Seq<char> {
    if rel.len() > 0 && rel[0] == '/' {
        rel
    } else if base.len() > 0 && base.last() != '/' {
        base + seq!['/'] + rel
    } else {
        base + rel
    }
}

pub proof fn lemma_last_slash_bounds(s: Seq<char>)
    ensures
        -1 <= last_slash(s) < s.len(),
        last_slash(s) >= 0 ==> s[last_slash(s)] == '/',
        forall|j: int| last_slash(s) < j < s.len() ==> s[j] != '/',
    decreases s.len(),
{
    if s.len() > 0 && s.last() != '/' {
        lemma_last_slash_bounds(s.drop_last());
        assert forall|j: int| last_slash(s) < j < s.len() implies s[j] != '/' by {
            if j < s.len() - 1 {
                assert(s.drop_last()[j] == s[j]);
            }
        }
    }
}

pub proof fn lemma_last_dot_bounds(s: Seq<char>)
    ensures
        -1 <= last_dot(s) < s.len(),
        last_dot(s) >= 0 ==> s[last_dot(s)] == '.',
        forall|j: int| last_dot(s) < j < s.len() ==> s[j] != '.',
    decreases s.len(),
{
    if s.len() > 0 && s.last() != '.' {
        lemma_last_dot_bounds(s.drop_last());
        assert forall|j: int| last_dot(s) < j < s.len() implies s[j] != '.' by {
            if j < s.len() - 1 {
                assert(s.drop_last()[j] == s[j]);
            }
        }
    }
}

/// `last_slash` is characterised by its bounds: a `/` at `k` (or `k == -1`)
/// with no `/` after it.
pub proof fn lemma_last_slash_unique(s: Seq<char>, k: int)
    requires
        -1 <= k < s.len(),
        k >= 0 ==> s[k] == '/',
        forall|j: int| k < j < s.len() ==> s[j] != '/',
    ensures
        last_slash(s) == k,
    decreases s.len(),
{
    if s.len() > 0 && s.last() != '/' {
        lemma_last_slash_unique(s.drop_last(), k);
    }
}

pub proof fn lemma_last_dot_unique(s: Seq<char>, k: int)
    requires
        -1 <= k < s.len(),
        k >= 0 ==> s[k] == '.',
        forall|j: int| k < j < s.len() ==> s[j] != '.',
    ensures
        last_dot(s) == k,
    decreases s.len(),
{
    if s.len() > 0 && s.last() != '.' {
        lemma_last_dot_unique(s.drop_last(), k);
    }
}

/// A name that can be a path's last component: non-empty, without `/`,
/// and neither `.` nor `..`.
pub open spec fn is_component_name(n: Seq<char>) -> bool {
    &&& n.len() > 0
    &&& forall|j: int| 0 <= j < n.len() ==> n[j] != '/'
    &&& n != seq!['.']
    &&& n != seq!['.', '.']
}

/// A file name is a component name.
pub proof fn lemma_file_name_is_component(p: Seq<char>)
    ensures
        file_name(p) matches Some(n) ==> is_component_name(n),
    decreases p.len(),
{
    lemma_last_slash_bounds(p);
    let k = last_slash(p);
    let seg = p.subrange(k + 1, p.len() as int);
    if seg.len() == 0 || seg == seq!['.'] {
        if k >= 0 {
            lemma_file_name_is_component(p.subrange(0, k));
        }
    } else if seg != seq!['.', '.'] {
        assert forall|j: int| 0 <= j < seg.len() implies seg[j] != '/' by {
            assert(seg[j] == p[j + k + 1]);
        }
    }
}

/// Joining a component name to any path gives a path whose file name is
/// that name.
pub proof fn lemma_file_name_of_join(base: Seq<char>, name: Seq<char>)
    requires
        is_component_name(name),
    ensures
        file_name(join(base, name)) == Some(name),
{
    let j = join(base, name);
    let pre = if base.len() > 0 && base.last() != '/' { base + seq!['/'] } else { base };
    assert(name[0] != '/');
    assert(j == pre + name);
    let k = pre.len() - 1;
    assert forall|i: int| k < i < j.len() implies j[i] != '/' by {
        assert(j[i] == name[i - pre.len()]);
    }
    if pre.len() > 0 {
        assert(j[k] == pre[k]);
        assert(pre[k] == '/');
    }
    lemma_last_slash_unique(j, k);
    assert(j.subrange(k + 1, j.len() as int) =~= name);
}

/// Start and end (exclusive) of the file name of `p` inside `p`, if it has one.
fn file_name_range(p: &Vec<char>) -> (r: Option<(usize, usize)>)
    ensures
        match r {
            Some((s, e)) => s <= e <= p.len() && file_name(p@) == Some(p@.subrange(s as int, e as int)),
            None => file_name(p@) is None,
        },
{
    let mut end: usize = p.len();
    assert(p@.take(end as int) == p@);
    loop
        invariant
            end <= p.len(),
            file_name(p@) == file_name(p@.take(end as int)),
        decreases end,
    {
        let ghost q = p@.take(end as int);
        let mut start: usize = end;
        while start > 0 && p[start - 1] != '/'
            invariant
                start <= end <= p.len(),
                q == p@.take(end as int),
                forall|j: int| start <= j < end ==> p@[j] != '/',
            decreases start,
        {
            start = start - 1;
        }
        let ghost k: int = start as int - 1;
        proof {
            lemma_last_slash_unique(q, k);
        }
        let len = end - start;
        let ghost seg = q.subrange(k + 1, q.len() as int);
        assert(seg == p@.subrange(start as int, end as int));
        if len == 0 || (len == 1 && p[start] == '.') {
            assert(seg.len() == 0 || seg == seq!['.']);
            if start == 0 {
                return None;
            }
            assert(q.subrange(0, k) == p@.take(k));
            end = start - 1;
        } else if len == 2 && p[start] == '.' && p[start + 1] == '.' {
            assert(seg == seq!['.', '.']);
            return None;
        } else {
            assert(seg.len() != 0);
            assert(seg != seq!['.']) by {
                if len == 1 {
                    assert(seg[0] != '.');
                }
            }
            assert(seg != seq!['.', '.']) by {
                if len == 2 {
                    assert(seg[0] != '.' || seg[1] != '.');
                }
            }
            return Some((start, end));
        }
    }
}

/// The file name of the path `p` (see [`file_name`]).
pub fn path_file_name(p: &Vec<char>) -> (r: Option<Vec<char>>)
    ensures
        match r {
            Some(n) => file_name(p@) == Some(n@),
            None => file_name(p@) is None,
        },
{
    match file_name_range(p) {
        Some((s, e)) => Some(crate::text::chars_range(p, s, e)),
        None => None,
    }
}

/// The extension of the file name `name` (see [`name_extension`]).
pub fn file_name_extension(name: &Vec<char>) -> (r: Option<Vec<char>>)
    ensures
        match r {
            Some(x) => name_extension(name@) == Some(x@),
            None => name_extension(name@) is None,
        },
{
    let mut i: usize = name.len();
    while i > 0 && name[i - 1] != '.'
        invariant
            i <= name.len(),
            forall|j: int| i <= j < name.len() ==> name@[j] != '.',
        decreases i,
    {
        i = i - 1;
    }
    proof {
        lemma_last_dot_unique(name@, i as int - 1);
    }
    if i <= 1 {
        None
    } else {
        Some(crate::text::chars_range(name, i, name.len()))
    }
}

/// The extension of the path `p` (see [`extension`]).
pub fn path_extension(p: &Vec<char>) -> (r: Option<Vec<char>>)
    ensures
        match r {
            Some(x) => extension(p@) == Some(x@),
            None => extension(p@) is None,
        },
{
    match path_file_name(p) {
        Some(name) => file_name_extension(&name),
        None => None,
    }
}

/// `base` joined with `rel` as a path (see [`join`]).
pub fn path_join(base: &str, rel: &str) -> (r: String)
    ensures
        r@ == join(base@, rel@),
{
    let b = crate::text::to_chars(base);
    let q = crate::text::to_chars(rel);
    let mut out: Vec<char> = Vec::new();
    if q.len() > 0 && q[0] == '/' {
        out = q;
    } else {
        out = b;
        if out.len() > 0 && out[out.len() - 1] != '/' {
            out.push('/');
        }
        let mut i: usize = 0;
        let ghost pre = out@;
        while i < q.len()
            invariant
                i <= q.len(),
                out@ == pre + q@.take(i as int),
            decreases q.len() - i,
        {
            out.push(q[i]);
            assert(q@.take(i + 1) == q@.take(i as int).push(q@[i as int]));
            i = i + 1;
        }
        assert(q@.take(q.len() as int) == q@);
    }
    crate::text::from_chars(&out)
}

/// Where the components of `p` start: after a leading root `/`, or after a
/// leading `.` component of a relative path; at 0 otherwise.
pub open spec fn body_start(p: Seq<char>) -> int {
    if p.len() > 0 && p[0] == '/' {
        1
    } else if p.len() > 0 && p[0] == '.' && (p.len() == 1 || p[1] == '/') {
        1
    } else {
        0
    }
}

/// Whether `p[s..e]` is a segment that names no component (empty or `.`).
pub open spec fn is_skipped_segment(p: Seq<char>, s: int, e: int) -> bool {
    s == e || (e == s + 1 && p[s] == '.')
}

/// Index of the last `/` in `p[b..e]`, or `b - 1` when there is none.
pub open spec fn slash_before(p: Seq<char>, b: int, e: int) -> int {
    last_slash(p.subrange(b, e)) + b
}

/// The position `[s, e)` of the last component of `p[b..end]`, skipping
/// empty and `.` segments.
pub open spec fn last_component(p: Seq<char>, b: int, end: int) -> Option<(int, int)>
    decreases end - b,
{
    if end <= b {
        None
    } else {
        let k = slash_before(p, b, end);
        proof { lemma_last_slash_bounds(p.subrange(b, end)); }
        if is_skipped_segment(p, k + 1, end) {
            if k < b {
                None
            } else {
                last_component(p, b, k)
            }
        } else {
            Some((k + 1, end))
        }
    }
}

/// `end` moved back over trailing separators and `.` segments, but not
/// before `b`.
pub open spec fn trim_end(p: Seq<char>, b: int, end: int) -> int
    decreases end - b,
{
    if end <= b {
        end
    } else {
        let k = slash_before(p, b, end);
        proof { lemma_last_slash_bounds(p.subrange(b, end)); }
        if is_skipped_segment(p, k + 1, end) {
            if k < b {
                b
            } else {
                trim_end(p, b, k)
            }
        } else {
            end
        }
    }
}

/// The parent of a path: the path without its last component (and the
/// separators before it). A relative path of one component has the empty
/// parent; the root and the empty path have none.
pub open spec fn parent(p: Seq<char>) -> Option<Seq<char>> {
    let b = body_start(p);
    match last_component(p, b, p.len() as int) {
        Some((s, e)) => {
            let rest = if s > b { s - 1 } else { b };
            Some(p.subrange(0, trim_end(p, b, rest)))
        },
        None => if b == 1 && p[0] == '.' {
            Some(Seq::empty())
        } else {
            None
        },
    }
}

/// Finds the last `/` in `p[b..e]`; returns its index plus one, or `b`.
fn segment_start(p: &Vec<char>, b: usize, e: usize) -> (r: usize)
    requires
        b <= e <= p.len(),
    ensures
        b <= r <= e,
        r as int == slash_before(p@, b as int, e as int) + 1,
{
    let mut i = e;
    while i > b && p[i - 1] != '/'
        invariant
            b <= i <= e <= p.len(),
            forall|j: int| i <= j < e ==> p@[j] != '/',
        decreases i,
    {
        i = i - 1;
    }
    proof {
        let q = p@.subrange(b as int, e as int);
        assert forall|j: int| i - b <= j < q.len() implies q[j] != '/' by {
            assert(q[j] == p@[j + b]);
        }
        if i > b {
            assert(q[i - b - 1] == p@[i - 1]);
        }
        lemma_last_slash_unique(q, i - b - 1);
    }
    i
}

/// Whether `p[s..e]` is empty or `.`.
fn skipped_segment(p: &Vec<char>, s: usize, e: usize) -> (r: bool)
    requires
        s <= e <= p.len(),
    ensures
        r == is_skipped_segment(p@, s as int, e as int),
{
    s == e || (e == s + 1 && p[s] == '.')
}

fn body_start_of(p: &Vec<char>) -> (r: usize)
    ensures
        r as int == body_start(p@),
        r <= p.len(),
{
    if p.len() > 0 && p[0] == '/' {
        1
    } else if p.len() > 0 && p[0] == '.' && (p.len() == 1 || p[1] == '/') {
        1
    } else {
        0
    }
}

fn last_component_of(p: &Vec<char>, b: usize) -> (r: Option<(usize, usize)>)
    requires
        b <= p.len(),
    ensures
        match r {
            Some((s, e)) => last_component(p@, b as int, p.len() as int) == Some((s as int, e as int))
                && b <= s <= e <= p.len(),
            None => last_component(p@, b as int, p.len() as int) is None,
        },
{
    let mut end = p.len();
    loop
        invariant
            b <= end <= p.len(),
            last_component(p@, b as int, p.len() as int) == last_component(p@, b as int, end as int),
        decreases end,
    {
        if end <= b {
            return None;
        }
        let s = segment_start(p, b, end);
        proof { lemma_last_slash_bounds(p@.subrange(b as int, end as int)); }
        if skipped_segment(p, s, end) {
            if s == b {
                return None;
            }
            end = s - 1;
        } else {
            return Some((s, end));
        }
    }
}

fn trim_end_of(p: &Vec<char>, b: usize, end: usize) -> (r: usize)
    requires
        b <= end <= p.len(),
    ensures
        r as int == trim_end(p@, b as int, end as int),
        r <= end,
{
    let mut e = end;
    loop
        invariant
            b <= e <= end <= p.len(),
            trim_end(p@, b as int, end as int) == trim_end(p@, b as int, e as int),
        decreases e,
    {
        if e <= b {
            return e;
        }
        let s = segment_start(p, b, e);
        proof { lemma_last_slash_bounds(p@.subrange(b as int, e as int)); }
        if skipped_segment(p, s, e) {
            if s == b {
                return b;
            }
            e = s - 1;
        } else {
            return e;
        }
    }
}

/// The parent of the path `p` (see [`parent`]).
pub fn path_parent(p: &str) -> (r: Option<String>)
    ensures
        match r {
            Some(x) => parent(p@) == Some(x@),
            None => parent(p@) is None,
        },
{
    let v = crate::text::to_chars(p);
    let b = body_start_of(&v);
    match last_component_of(&v, b) {
        Some((s, _e)) => {
            let rest = if s > b { s - 1 } else { b };
            let t = trim_end_of(&v, b, rest);
            Some(crate::text::from_chars(&crate::text::chars_range(&v, 0, t)))
        },
        None => {
            if b == 1 && v[0] == '.' {
                Some(String::new())
            } else {
                None
            }
        },
    }
}

/// The components of `p[b..end]`: its `/`-separated segments without the
/// empty and `.` ones.
pub open spec fn body_components(p: Seq<char>, b: int, end: int) -> Seq<Seq<char>>
    decreases end - b,
{
    if end <= b {
        Seq::empty()
    } else {
        let k = slash_before(p, b, end);
        if k < b || k >= end {
            if is_skipped_segment(p, k + 1, end) {
                Seq::empty()
            } else {
                Seq::empty().push(p.subrange(k + 1, end))
            }
        } else if is_skipped_segment(p, k + 1, end) {
            body_components(p, b, k)
        } else {
            let rest = body_components(p, b, k);
            rest.push(p.subrange(k + 1, end))
        }
    }
}

/// The components of a path, written as text: `/` for the root, `.` for a
/// leading current directory, then each named component (`..` included).
pub open spec fn components(p: Seq<char>) -> Seq<Seq<char>> {
    let head: Seq<Seq<char>> = if p.len() > 0 && p[0] == '/' {
        seq![seq!['/']]
    } else if body_start(p) == 1 {
        seq![seq!['.']]
    } else {
        Seq::empty()
    };
    head + body_components(p, body_start(p), p.len() as int)
}

/// Two paths are the same path when they have the same components.
pub open spec fn same_path(a: Seq<char>, b: Seq<char>) -> bool {
    components(a) == components(b)
}

fn path_components(p: &Vec<char>) -> (r: Vec<Vec<char>>)
    ensures
        r@.len() == components(p@).len(),
        forall|i: int| 0 <= i < r@.len() ==> (#[trigger] r@[i])@ == components(p@)[i],
{
    let b = body_start_of(p);
    let mut acc: Vec<Vec<char>> = Vec::new();
    let ghost accv: Seq<Seq<char>> = Seq::empty();
    let mut end = p.len();
    loop
        invariant
            b <= end <= p.len(),
            acc@.len() == accv.len(),
            forall|i: int| 0 <= i < acc@.len() ==> (#[trigger] acc@[i])@ == accv[i],
            body_components(p@, b as int, p.len() as int) == body_components(p@, b as int, end as int) + accv,
        ensures
            end == b,
            acc@.len() == accv.len(),
            forall|i: int| 0 <= i < acc@.len() ==> (#[trigger] acc@[i])@ == accv[i],
            body_components(p@, b as int, p.len() as int) == accv,
        decreases end,
    {
        if end <= b {
            assert(body_components(p@, b as int, end as int) =~= Seq::<Seq<char>>::empty());
            assert(body_components(p@, b as int, p.len() as int) =~= accv);
            break;
        }
        let s = segment_start(p, b, end);
        proof { lemma_last_slash_bounds(p@.subrange(b as int, end as int)); }
        let skip = skipped_segment(p, s, end);
        if !skip {
            let seg = crate::text::chars_range(p, s, end);
            let ghost old_acc = acc@;
            acc.insert(0, seg);
            proof {
                let segv = p@.subrange(s as int, end as int);
                let nv = seq![segv] + accv;
                assert forall|i: int| 0 <= i < acc@.len() implies (#[trigger] acc@[i])@ == nv[i] by {
                    if i > 0 {
                        assert(acc@[i] == old_acc[i - 1]);
                    }
                }
                if s == b {
                    assert(body_components(p@, b as int, end as int) == Seq::<Seq<char>>::empty().push(segv));
                } else {
                    assert(body_components(p@, b as int, end as int)
                        == body_components(p@, b as int, s - 1).push(segv));
                }
                assert(body_components(p@, b as int, p.len() as int)
                    =~= (if s == b { Seq::<Seq<char>>::empty() } else { body_components(p@, b as int, s - 1) }) + nv);
                accv = nv;
            }
        }
        if s == b {
            proof {
                if skip {
                    assert(body_components(p@, b as int, end as int) == Seq::<Seq<char>>::empty());
                }
                assert(body_components(p@, b as int, p.len() as int) =~= body_components(p@, b as int, b as int) + accv);
                assert(body_components(p@, b as int, b as int) =~= Seq::<Seq<char>>::empty());
                assert(body_components(p@, b as int, p.len() as int) =~= accv);
            }
            end = b;
            break;
        }
        end = s - 1;
    }
    let mut r: Vec<Vec<char>> = Vec::new();
    if p.len() > 0 && p[0] == '/' {
        r.push(vec!['/']);
    } else if b == 1 {
        r.push(vec!['.']);
    }
    let ghost head = if p@.len() > 0 && p@[0] == '/' {
        seq![seq!['/']]
    } else if b == 1 {
        seq![seq!['.']]
    } else {
        Seq::<Seq<char>>::empty()
    };
    assert(r@.len() == head.len());
    assert(forall|i: int| 0 <= i < r@.len() ==> (#[trigger] r@[i])@ == head[i]);
    let ghost r0 = r@;
    let mut i: usize = 0;
    while i < acc.len()
        invariant
            i <= acc.len(),
            acc@.len() == accv.len(),
            forall|k: int| 0 <= k < acc@.len() ==> (#[trigger] acc@[k])@ == accv[k],
            r@.len() == head.len() + i,
            forall|k: int| 0 <= k < r@.len() ==> (#[trigger] r@[k])@ == (head + accv)[k],
        decreases acc.len() - i,
    {
        let seg = crate::text::chars_range(&acc[i], 0, acc[i].len());
        assert(seg@ == acc@[i as int]@);
        r.push(seg);
        i = i + 1;
    }
    assert(components(p@) == head + accv);
    r
}

/// Whether `a` and `b` denote the same path (see [`same_path`]).
pub fn path_eq(a: &str, b: &str) -> (r: bool)
    ensures
        r == same_path(a@, b@),
{
    let ca = path_components(&crate::text::to_chars(a));
    let cb = path_components(&crate::text::to_chars(b));
    if ca.len() != cb.len() {
        return false;
    }
    let mut i: usize = 0;
    while i < ca.len()
        invariant
            i <= ca.len(),
            ca.len() == cb.len(),
            ca@.len() == components(a@).len(),
            cb@.len() == components(b@).len(),
            forall|k: int| 0 <= k < ca@.len() ==> (#[trigger] ca@[k])@ == components(a@)[k],
            forall|k: int| 0 <= k < cb@.len() ==> (#[trigger] cb@[k])@ == components(b@)[k],
            forall|k: int| 0 <= k < i ==> components(a@)[k] == components(b@)[k],
        decreases ca.len() - i,
    {
        if !crate::text::chars_eq(&ca[i], cb[i].as_slice()) {
            assert(components(a@)[i as int] != components(b@)[i as int]);
            return false;
        }
        i = i + 1;
    }
    assert(components(a@) =~= components(b@));
    true
}

proof fn lemma_slash_before_bounds(p: Seq<char>, b: int, e: int)
    requires
        0 <= b <= e <= p.len(),
    ensures
        b - 1 <= slash_before(p, b, e) < e,
        slash_before(p, b, e) >= b ==> p[slash_before(p, b, e)] == '/',
        forall|j: int| slash_before(p, b, e) < j < e ==> p[j] != '/',
{
    let q = p.subrange(b, e);
    lemma_last_slash_bounds(q);
    let k = last_slash(q);
    if k >= 0 {
        assert(q[k] == p[k + b]);
    }
    assert forall|j: int| slash_before(p, b, e) < j < e implies p[j] != '/' by {
        assert(q[j - b] == p[j]);
    }
}

/// The components of a part of a path depend only on that part.
proof fn lemma_body_components_prefix(p: Seq<char>, q: Seq<char>, b: int, e: int)
    requires
        0 <= b <= e <= q.len() <= p.len(),
        q == p.subrange(0, q.len() as int),
    ensures
        body_components(q, b, e) == body_components(p, b, e),
    decreases e - b,
{
    if e > b {
        assert(q.subrange(b, e) =~= p.subrange(b, e));
        lemma_slash_before_bounds(p, b, e);
        let k = slash_before(p, b, e);
        assert(slash_before(q, b, e) == k);
        assert(q.subrange(k + 1, e) =~= p.subrange(k + 1, e));
        if k + 1 < e {
            assert(q[k + 1] == p[k + 1]);
        }
        if k >= b {
            lemma_body_components_prefix(p, q, b, k);
        }
    }
}

/// Trimming trailing separators and `.` segments keeps the components.
proof fn lemma_trim_keeps_components(p: Seq<char>, b: int, e: int)
    requires
        0 <= b <= e <= p.len(),
    ensures
        b <= trim_end(p, b, e) <= e,
        body_components(p, b, e) == body_components(p, b, trim_end(p, b, e)),
        trim_end(p, b, e) == b || !is_skipped_segment(p, slash_before(p, b, trim_end(p, b, e)) + 1, trim_end(p, b, e)),
    decreases e - b,
{
    if e > b {
        lemma_slash_before_bounds(p, b, e);
        let k = slash_before(p, b, e);
        if is_skipped_segment(p, k + 1, e) && k >= b {
            lemma_trim_keeps_components(p, b, k);
        }
    }
}

/// The component-list head (root or current directory) of a path.
pub open spec fn head_components(p: Seq<char>) -> Seq<Seq<char>> {
    if p.len() > 0 && p[0] == '/' {
        seq![seq!['/']]
    } else if body_start(p) == 1 {
        seq![seq!['.']]
    } else {
        Seq::empty()
    }
}

/// Going into a directory entry and then to the parent comes back to the
/// same directory: the parent of `base` joined with a component name is
/// `base` again (as a path: the same components).
pub proof fn lemma_parent_of_join(base: Seq<char>, name: Seq<char>)
    requires
        is_component_name(name),
    ensures
        parent(join(base, name)) matches Some(pp) && same_path(pp, base),
{
    let j = join(base, name);
    let extra = base.len() > 0 && base.last() != '/';
    let pre = if extra { base + seq!['/'] } else { base };
    assert(name[0] != '/');
    assert(j == pre + name);
    assert forall|i: int| 0 <= i < pre.len() implies j[i] == pre[i] by {}
    assert forall|i: int| pre.len() <= i < j.len() implies j[i] == name[i - pre.len()] && j[i] != '/' by {}
    let b = body_start(j);
    // where the body starts, in `j` and in `base`
    if base.len() == 0 {
        assert(j =~= name);
        if name.len() == 1 {
            assert(name[0] != '.') by {
                if name[0] == '.' {
                    assert(name =~= seq!['.']);
                }
            }
        }
        assert(b == 0);
    } else {
        assert(j[0] == base[0]);
        if base.len() >= 2 {
            assert(j[1] == base[1]);
        }
        assert(body_start(base) == b);
    }
    // the last component is `name`
    let s = pre.len() as int;
    lemma_slash_before_bounds(j, b, j.len() as int);
    if pre.len() > 0 {
        assert(pre[pre.len() - 1] == '/');
    }
    let k = slash_before(j, b, j.len() as int);
    assert(k == s - 1) by {
        if k < s - 1 {
            if s - 1 >= b {
                assert(j[s - 1] == '/');
            }
        } else if k > s - 1 {
            assert(j[k] != '/');
        }
    }
    assert(j.subrange(s, j.len() as int) =~= name);
    assert(!is_skipped_segment(j, s, j.len() as int)) by {
        if name.len() == 1 {
            assert(name =~= seq![j[s]]);
        }
    }
    assert(last_component(j, b, j.len() as int) == Some((s, j.len() as int)));
    let rest = if s > b { s - 1 } else { b };
    lemma_trim_keeps_components(j, b, rest);
    let t = trim_end(j, b, rest);
    let q = j.subrange(0, t);
    assert(parent(j) == Some(q));
    // `q` starts like `j`
    assert(body_start(q) == b) by {
        if t >= 2 {
            assert(q[0] == j[0] && q[1] == j[1]);
        } else if t == 1 {
            assert(q[0] == j[0]);
            if b == 0 && j[0] == '.' {
                lemma_slash_before_bounds(j, b, 1);
                assert(slash_before(j, 0, 1) == -1);
                assert(false);
            }
        }
    }
    assert(head_components(q) == head_components(j)) by {
        if t >= 1 {
            assert(q[0] == j[0]);
        } else if b == 0 && j.len() > 0 {
            assert(j[0] != '/');
        }
    }
    lemma_body_components_prefix(j, q, b, t);
    // `base` has the components of `j` up to `rest`
    if base.len() == 0 {
        assert(rest == 0 && t == 0);
        assert(q =~= base);
    } else {
        assert(head_components(base) == head_components(j)) by {
            assert(j[0] == base[0]);
        }
        assert(base == j.subrange(0, base.len() as int));
        lemma_body_components_prefix(j, base, b, rest);
        if extra {
            assert(rest == base.len());
        } else {
            assert(base.last() == '/');
            lemma_slash_before_bounds(base, b, base.len() as int);
            let kb = slash_before(base, b, base.len() as int);
            if base.len() - 1 >= b {
                assert(kb == base.len() - 1) by {
                    if kb < base.len() - 1 {
                        assert(base[base.len() - 1] == '/');
                    }
                }
                assert(is_skipped_segment(base, kb + 1, base.len() as int));
                assert(body_components(base, b, base.len() as int) == body_components(base, b, kb));
                assert(rest == base.len() - 1);
            } else {
                assert(body_components(base, b, base.len() as int) == Seq::<Seq<char>>::empty()) by {
                    assert(kb < b);
                    assert(is_skipped_segment(base, kb + 1, base.len() as int));
                }
                assert(rest == b);
                assert(body_components(base, b, rest) == Seq::<Seq<char>>::empty());
            }
        }
    }
    assert(components(q) == head_components(q) + body_components(q, b, t));
    assert(components(base) == head_components(base) + body_components(base, body_start(base), base.len() as int));
}

} // verus!
