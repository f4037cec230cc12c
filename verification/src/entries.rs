use vstd::prelude::*;
use vstd::multiset::Multiset;
use crate::path::{extension, file_name, join, parent, path_parent, last_dot, last_slash, name_extension, path_extension, path_join};
use crate::text::ascii_lower_char;
use crate::config::{opt_view, possible_home, user_home_dir};
use crate::text::{ascii_lower, chars_eq, lower_chars, to_chars};
use crate::order::{lex_le, lex_le_chars, lemma_lex_le_antisymmetric, lemma_lex_le_total, lemma_lex_le_transitive};

verus! {

/// The lower-case extensions of the image files the browser lists.
pub open spec fn is_supported_extension(e: Seq<char>) -> bool {
    ||| e == seq!['j', 'p', 'g']
    ||| e == seq!['j', 'p', 'e', 'g']
    ||| e == seq!['p', 'n', 'g']
    ||| e == seq!['g', 'i', 'f']
    ||| e == seq!['b', 'm', 'p']
    ||| e == seq!['t', 'i', 'f', 'f']
    ||| e == seq!['t', 'i', 'f']
    ||| e == seq!['w', 'e', 'b', 'p']
}

/// A path names an image when its extension, in ASCII lower case, is supported.
pub open spec fn spec_is_image(p: Seq<char>) -> bool {
    match extension(p) {
        Some(e) => is_supported_extension(ascii_lower(e)),
        None => false,
    }
}

proof fn lemma_lower_char_keeps_punctuation(c: char)
    ensures
        (ascii_lower_char(c) == '.') == (c == '.'),
        (ascii_lower_char(c) == '/') == (c == '/'),
{
    if 'A' <= c <= 'Z' {
        let l = ascii_lower_char(c);
        assert(l as u32 == (c as u32) + 32);
        assert('a' <= l <= 'z');
    }
}

proof fn lemma_lower_subrange(s: Seq<char>, a: int, b: int)
    requires
        0 <= a <= b <= s.len(),
    ensures
        ascii_lower(s).subrange(a, b) == ascii_lower(s.subrange(a, b)),
{
    assert(ascii_lower(s).subrange(a, b) =~= ascii_lower(s.subrange(a, b)));
}

proof fn lemma_lower_last_slash(s: Seq<char>)
    ensures
        last_slash(ascii_lower(s)) == last_slash(s),
    decreases s.len(),
{
    if s.len() > 0 {
        assert(ascii_lower(s).drop_last() == ascii_lower(s.drop_last()));
        assert(ascii_lower(s).last() == ascii_lower_char(s.last()));
        lemma_lower_char_keeps_punctuation(s.last());
        lemma_lower_last_slash(s.drop_last());
    }
}

proof fn lemma_lower_last_dot(s: Seq<char>)
    ensures
        last_dot(ascii_lower(s)) == last_dot(s),
    decreases s.len(),
{
    if s.len() > 0 {
        assert(ascii_lower(s).drop_last() == ascii_lower(s.drop_last()));
        assert(ascii_lower(s).last() == ascii_lower_char(s.last()));
        lemma_lower_char_keeps_punctuation(s.last());
        lemma_lower_last_dot(s.drop_last());
    }
}

/// Lower-casing a path lower-cases its file name and nothing else.
proof fn lemma_lower_file_name(p: Seq<char>)
    ensures
        file_name(ascii_lower(p)) == match file_name(p) {
            Some(n) => Some(ascii_lower(n)),
            None => None,
        },
    decreases p.len(),
{
    let lp = ascii_lower(p);
    lemma_lower_last_slash(p);
    crate::path::lemma_last_slash_bounds(p);
    let k = last_slash(p);
    let seg = p.subrange(k + 1, p.len() as int);
    lemma_lower_subrange(p, k + 1, p.len() as int);
    let lseg = ascii_lower(seg);
    assert(lseg.len() == seg.len());
    if seg.len() == 1 {
        assert(lseg[0] == ascii_lower_char(seg[0]));
        lemma_lower_char_keeps_punctuation(seg[0]);
        if seg[0] == '.' {
            assert(seg =~= seq!['.']);
            assert(lseg =~= seq!['.']);
        } else {
            assert(seg != seq!['.']);
            assert(lseg != seq!['.']);
        }
    } else {
        assert(seg != seq!['.']);
        assert(lseg != seq!['.']);
    }
    if seg.len() == 2 {
        assert(lseg[0] == ascii_lower_char(seg[0]));
        assert(lseg[1] == ascii_lower_char(seg[1]));
        lemma_lower_char_keeps_punctuation(seg[0]);
        lemma_lower_char_keeps_punctuation(seg[1]);
        if seg[0] == '.' && seg[1] == '.' {
            assert(seg =~= seq!['.', '.']);
            assert(lseg =~= seq!['.', '.']);
        } else {
            assert(seg != seq!['.', '.']);
            assert(lseg != seq!['.', '.']);
        }
    } else {
        assert(seg != seq!['.', '.']);
        assert(lseg != seq!['.', '.']);
    }
    if (seg.len() == 0 || seg == seq!['.']) && k >= 0 {
        lemma_lower_subrange(p, 0, k);
        lemma_lower_file_name(p.subrange(0, k));
    }
}

proof fn lemma_lower_name_extension(n: Seq<char>)
    ensures
        name_extension(ascii_lower(n)) == match name_extension(n) {
            Some(e) => Some(ascii_lower(e)),
            None => None,
        },
{
    lemma_lower_last_dot(n);
    crate::path::lemma_last_dot_bounds(n);
    let d = last_dot(n);
    if d > 0 {
        lemma_lower_subrange(n, d + 1, n.len() as int);
    }
}

proof fn lemma_lower_idempotent(s: Seq<char>)
    ensures
        ascii_lower(ascii_lower(s)) == ascii_lower(s),
{
    assert(ascii_lower(ascii_lower(s)) =~= ascii_lower(s));
}

/// Whether a path is an image depends only on its lower-cased form.
proof fn lemma_is_image_by_lower(p: Seq<char>)
    ensures
        spec_is_image(p) == match extension(ascii_lower(p)) {
            Some(e) => is_supported_extension(e),
            None => false,
        },
{
    lemma_lower_file_name(p);
    match file_name(p) {
        Some(n) => {
            lemma_lower_name_extension(n);
            match name_extension(n) {
                Some(e) => lemma_lower_idempotent(e),
                None => {},
            }
        },
        None => {},
    }
}

/// Image detection ignores ASCII case: two paths that differ only in the
/// case of their letters are both images or both not.
pub proof fn lemma_is_image_case_insensitive(p: Seq<char>, q: Seq<char>)
    requires
        ascii_lower(p) == ascii_lower(q),
    ensures
        spec_is_image(p) == spec_is_image(q),
{
    lemma_is_image_by_lower(p);
    lemma_is_image_by_lower(q);
}

/// A path is an image whenever its extension spells a supported one in any
/// mix of ASCII cases: each character of the extension is either the
/// supported letter itself or its capital (an ASCII capital 32 code points
/// lower), so `IMG.JPEG`, `a.Png` and `b.webp` are all images.
pub proof fn lemma_any_case_extension_is_image(p: Seq<char>, e: Seq<char>, s: Seq<char>)
    requires
        extension(p) == Some(e),
        is_supported_extension(s),
        e.len() == s.len(),
        forall|i: int| 0 <= i < e.len() ==> #[trigger] e[i] == s[i] || ('A' <= e[i] <= 'Z' && e[i] as u32 + 32 == s[i] as u32),
    ensures
        spec_is_image(p),
{
    assert forall|i: int| 0 <= i < s.len() implies 'a' <= #[trigger] s[i] <= 'z' by {}
    assert forall|i: int| 0 <= i < e.len() implies #[trigger] ascii_lower(e)[i] == s[i] by {
        let c = e[i];
        let d = s[i];
        assert('a' <= d <= 'z');
        if c != d {
            assert((d as u32) as char == d);
            assert(ascii_lower_char(c) == d);
        }
    }
    assert(ascii_lower(e) =~= s);
}

/// Whether the path `p` has a supported image extension (case-insensitive).
pub fn is_image(p: &str) -> (b: bool)
    ensures
        b == spec_is_image(p@),
{
    let chars = to_chars(p);
    match path_extension(&chars) {
        Some(e) => {
            let ext = lower_chars(&e);
            chars_eq(&ext, &['j', 'p', 'g'])
                || chars_eq(&ext, &['j', 'p', 'e', 'g'])
                || chars_eq(&ext, &['p', 'n', 'g'])
                || chars_eq(&ext, &['g', 'i', 'f'])
                || chars_eq(&ext, &['b', 'm', 'p'])
                || chars_eq(&ext, &['t', 'i', 'f', 'f'])
                || chars_eq(&ext, &['t', 'i', 'f'])
                || chars_eq(&ext, &['w', 'e', 'b', 'p'])
        },
        None => false,
    }
}

/// An entry of the file list: a subdirectory, the parent directory or an image file.
#[derive(Clone, Debug)]
pub struct Entry {
    pub path: String,
    pub is_dir: bool,
}

impl View for Entry {
    type V = (Seq<char>, bool);

    open spec fn view(&self) -> (Seq<char>, bool) {
        (self.path@, self.is_dir)
    }
}

/// The views of a sequence of entries.
pub open spec fn entries_view(s: Seq<Entry>) -> Seq<(Seq<char>, bool)> {
    s.map_values(|e: Entry| e@)
}

/// Entries in lexicographic order of their paths.
pub open spec fn sorted_by_path(s: Seq<(Seq<char>, bool)>) -> bool {
    forall|i: int, j: int| 0 <= i < j < s.len() ==> lex_le(#[trigger] s[i].0, #[trigger] s[j].0)
}

/// Sorts entries by path, keeping entries with equal paths in their order.
fn sort_by_path(v: Vec<Entry>) -> (r: Vec<Entry>)
    ensures
        entries_view(r@).to_multiset() == entries_view(v@).to_multiset(),
        sorted_by_path(entries_view(r@)),
{
    broadcast use vstd::multiset::group_multiset_axioms;
    broadcast use vstd::seq_lib::group_to_multiset_ensures;
    let ghost orig = entries_view(v@);
    let mut v = v;
    let mut out: Vec<Entry> = Vec::new();
    let mut keys: Vec<Vec<char>> = Vec::new();
    assert(entries_view(out@) =~= Seq::<(Seq<char>, bool)>::empty());
    assert(entries_view(out@).to_multiset() =~= Multiset::<(Seq<char>, bool)>::empty());
    while v.len() > 0
        invariant
            keys.len() == out.len(),
            forall|k: int| 0 <= k < out.len() ==> (#[trigger] keys@[k])@ == out@[k].path@,
            sorted_by_path(entries_view(out@)),
            entries_view(out@).to_multiset().add(entries_view(v@).to_multiset()) == orig.to_multiset(),
        decreases v.len(),
    {
        let ghost v_before = v@;
        let e = v.pop().unwrap();
        assert(v_before == v@.push(e));
        assert(entries_view(v_before) =~= entries_view(v@).push(e@));
        let key = to_chars(e.path.as_str());
        let mut j: usize = 0;
        while j < keys.len() && !lex_le_chars(&key, &keys[j])
            invariant
                j <= keys.len(),
                keys.len() == out.len(),
                forall|k: int| 0 <= k < out.len() ==> (#[trigger] keys@[k])@ == out@[k].path@,
                forall|k: int| 0 <= k < j ==> !lex_le(key@, #[trigger] out@[k].path@),
            decreases keys.len() - j,
        {
            j = j + 1;
        }
        let ghost old_out = entries_view(out@);
        proof {
            assert forall|k: int| 0 <= k < j implies lex_le(#[trigger] old_out[k].0, key@) by {
                assert(old_out[k].0 == out@[k].path@);
                lemma_lex_le_total(key@, out@[k].path@);
            }
            if j < out.len() {
                assert(keys@[j as int]@ == out@[j as int].path@);
                assert forall|k: int| j <= k < old_out.len() implies lex_le(key@, #[trigger] old_out[k].0) by {
                    if k > j {
                        assert(lex_le(old_out[j as int].0, old_out[k].0));
                        lemma_lex_le_transitive(key@, old_out[j as int].0, old_out[k].0);
                    }
                }
            }
        }
        out.insert(j, e);
        keys.insert(j, key);
        proof {
            let nv = entries_view(out@);
            assert(nv =~= old_out.insert(j as int, e@));
            assert forall|a: int, b: int| 0 <= a < b < nv.len() implies lex_le(#[trigger] nv[a].0, #[trigger] nv[b].0) by {
                if b < j {
                    assert(nv[a] == old_out[a] && nv[b] == old_out[b]);
                } else if b == j {
                    assert(nv[a] == old_out[a]);
                } else if a < j {
                    assert(nv[a] == old_out[a] && nv[b] == old_out[b - 1]);
                    assert(lex_le(old_out[a].0, key@));
                    assert(lex_le(key@, old_out[b - 1].0));
                    lemma_lex_le_transitive(old_out[a].0, key@, old_out[b - 1].0);
                } else if a == j {
                    assert(nv[b] == old_out[b - 1]);
                } else {
                    assert(nv[a] == old_out[a - 1] && nv[b] == old_out[b - 1]);
                }
            }
            vstd::seq_lib::to_multiset_insert(old_out, j as int, e@);
            vstd::seq_lib::to_multiset_build(entries_view(v@), e@);
            let mv = entries_view(v@).to_multiset();
            assert(nv.to_multiset() == old_out.to_multiset().insert(e@));
            assert(entries_view(v_before).to_multiset() == mv.insert(e@));
            assert(nv.to_multiset().add(mv) =~= old_out.to_multiset().add(mv.insert(e@)));
            assert(forall|k: int| 0 <= k < out.len() ==> (#[trigger] keys@[k])@ == out@[k].path@);
        }
    }
    assert(entries_view(v@) =~= Seq::<(Seq<char>, bool)>::empty());
    assert(entries_view(v@).to_multiset() =~= Multiset::<(Seq<char>, bool)>::empty());
    out
}

/// What a directory listing reports of one of its entries.
#[derive(Clone, Debug)]
pub struct DirItem {
    /// The entry's path (the directory joined with its name)
    pub path: String,
    /// The entry's name within the directory
    pub name: String,
    /// Whether the path is a directory
    pub is_dir: bool,
    /// Whether the path is a regular file
    pub is_file: bool,
}

/// Whether an entry of this name is listed: hidden names (starting with
/// `.`) only when hidden files are included.
pub open spec fn is_shown(name: Seq<char>, include_hidden: bool) -> bool {
    include_hidden || !(name.len() > 0 && name[0] == '.')
}

/// The directory entries of a listing, in listing order.
pub open spec fn listed_dirs(items: Seq<DirItem>, include_hidden: bool) -> Seq<(Seq<char>, bool)>
    decreases items.len(),
{
    if items.len() == 0 {
        Seq::empty()
    } else {
        let rest = listed_dirs(items.drop_last(), include_hidden);
        let it = items.last();
        if is_shown(it.name@, include_hidden) && it.is_dir {
            rest.push((it.path@, true))
        } else {
            rest
        }
    }
}

/// The image file entries of a listing, in listing order.
pub open spec fn listed_images(items: Seq<DirItem>, include_hidden: bool) -> Seq<(Seq<char>, bool)>
    decreases items.len(),
{
    if items.len() == 0 {
        Seq::empty()
    } else {
        let rest = listed_images(items.drop_last(), include_hidden);
        let it = items.last();
        if is_shown(it.name@, include_hidden) && !it.is_dir && it.is_file && spec_is_image(it.path@) {
            rest.push((it.path@, false))
        } else {
            rest
        }
    }
}

pub proof fn lemma_listed_dirs_are_dirs(items: Seq<DirItem>, include_hidden: bool)
    ensures
        forall|i: int| 0 <= i < listed_dirs(items, include_hidden).len()
            ==> (#[trigger] listed_dirs(items, include_hidden)[i]).1,
    decreases items.len(),
{
    if items.len() > 0 {
        lemma_listed_dirs_are_dirs(items.drop_last(), include_hidden);
        let rest = listed_dirs(items.drop_last(), include_hidden);
        assert forall|i: int| 0 <= i < listed_dirs(items, include_hidden).len()
            implies (#[trigger] listed_dirs(items, include_hidden)[i]).1 by {
            if i < rest.len() {
                assert(listed_dirs(items, include_hidden)[i] == rest[i]);
            }
        }
    }
}

pub proof fn lemma_listed_images_are_images(items: Seq<DirItem>, include_hidden: bool)
    ensures
        forall|i: int| 0 <= i < listed_images(items, include_hidden).len() ==> {
            let x = #[trigger] listed_images(items, include_hidden)[i];
            !x.1 && spec_is_image(x.0)
        },
    decreases items.len(),
{
    if items.len() > 0 {
        lemma_listed_images_are_images(items.drop_last(), include_hidden);
        let rest = listed_images(items.drop_last(), include_hidden);
        assert forall|i: int| 0 <= i < listed_images(items, include_hidden).len() implies {
            let x = #[trigger] listed_images(items, include_hidden)[i];
            !x.1 && spec_is_image(x.0)
        } by {
            if i < rest.len() {
                assert(listed_images(items, include_hidden)[i] == rest[i]);
            }
        }
    }
}

/// Two sequences with the same multiset hold the same elements.
pub proof fn lemma_same_multiset_contains<A>(a: Seq<A>, b: Seq<A>, i: int)
    requires
        a.to_multiset() == b.to_multiset(),
        0 <= i < a.len(),
    ensures
        b.contains(a[i]),
{
    broadcast use vstd::seq_lib::group_to_multiset_ensures;
    assert(a.contains(a[i]));
    assert(a.to_multiset().count(a[i]) > 0);
}

/// `rv` lists the directory whose parent is `parent` and whose listing is
/// `listing`: the parent first (when there is one), then the shown
/// subdirectories, then the shown image files, each group sorted by path.
pub open spec fn is_arrangement(
    rv: Seq<(Seq<char>, bool)>,
    parent: Option<Seq<char>>,
    listing: Seq<DirItem>,
    include_hidden: bool,
) -> bool {
    let off: int = if parent is Some { 1 } else { 0 };
    let ds = listed_dirs(listing, include_hidden);
    let fs = listed_images(listing, include_hidden);
    &&& rv.len() == off + ds.len() + fs.len()
    &&& parent matches Some(p) ==> rv[0] == (p, true)
    &&& rv.subrange(off, off + ds.len()).to_multiset() == ds.to_multiset()
    &&& sorted_by_path(rv.subrange(off, off + ds.len()))
    &&& rv.subrange(off + ds.len(), rv.len() as int).to_multiset() == fs.to_multiset()
    &&& sorted_by_path(rv.subrange(off + ds.len(), rv.len() as int))
    &&& forall|i: int| 0 <= i < off + ds.len() ==> (#[trigger] rv[i]).1
    &&& forall|i: int| off + ds.len() <= i < rv.len() ==> !(#[trigger] rv[i]).1 && spec_is_image(rv[i].0)
}

/// The entries of a directory as the browser lists them: the parent
/// directory first (when there is one), then the subdirectories, then the
/// image files, each group sorted by path. Hidden entries are left out
/// unless `include_hidden` holds.
pub fn arrange_entries(parent: Option<String>, listing: &Vec<DirItem>, include_hidden: bool) -> (r: Vec<Entry>)
    ensures
        is_arrangement(entries_view(r@), opt_view(parent), listing@, include_hidden),
{
    let mut dirs: Vec<Entry> = Vec::new();
    let mut files: Vec<Entry> = Vec::new();
    let mut i: usize = 0;
    while i < listing.len()
        invariant
            i <= listing.len(),
            entries_view(dirs@) == listed_dirs(listing@.take(i as int), include_hidden),
            entries_view(files@) == listed_images(listing@.take(i as int), include_hidden),
        decreases listing.len() - i,
    {
        let item = &listing[i];
        let name_chars = to_chars(item.name.as_str());
        let first_is_dot = name_chars.len() > 0 && name_chars[0] == '.';
        proof {
            assert(listing@.take(i + 1).drop_last() == listing@.take(i as int));
            assert(listing@.take(i + 1).last() == listing@[i as int]);
        }
        if include_hidden || !first_is_dot {
            if item.is_dir {
                let ghost before = dirs@;
                dirs.push(Entry { path: item.path.clone(), is_dir: true });
                assert(entries_view(dirs@) =~= entries_view(before).push((item.path@, true)));
            } else if item.is_file && is_image(item.path.as_str()) {
                let ghost before = files@;
                files.push(Entry { path: item.path.clone(), is_dir: false });
                assert(entries_view(files@) =~= entries_view(before).push((item.path@, false)));
            }
        }
        i = i + 1;
    }
    assert(listing@.take(listing.len() as int) == listing@);
    let ghost dview = entries_view(dirs@);
    let ghost fview = entries_view(files@);
    let mut sorted_dirs = sort_by_path(dirs);
    let mut sorted_files = sort_by_path(files);
    let mut result: Vec<Entry> = Vec::new();
    match parent {
        Some(p) => result.push(Entry { path: p, is_dir: true }),
        None => {},
    }
    let ghost head = entries_view(result@);
    let ghost dv = entries_view(sorted_dirs@);
    let ghost fv = entries_view(sorted_files@);
    result.append(&mut sorted_dirs);
    result.append(&mut sorted_files);
    proof {
        broadcast use vstd::seq_lib::group_to_multiset_ensures;
        let rv = entries_view(result@);
        assert(dv.to_multiset().len() == dview.to_multiset().len());
        assert(fv.to_multiset().len() == fview.to_multiset().len());
        assert(dv.len() == listed_dirs(listing@, include_hidden).len());
        assert(fv.len() == listed_images(listing@, include_hidden).len());
        assert(rv =~= head + dv + fv);
        let off: int = head.len() as int;
        assert(rv.subrange(off, off + dv.len()) =~= dv);
        assert(rv.subrange(off + dv.len(), rv.len() as int) =~= fv);
        if parent is Some {
            assert(rv[0] == head[0]);
        }
        let ds = listed_dirs(listing@, include_hidden);
        let fs = listed_images(listing@, include_hidden);
        lemma_listed_dirs_are_dirs(listing@, include_hidden);
        lemma_listed_images_are_images(listing@, include_hidden);
        assert forall|i: int| 0 <= i < off + ds.len() implies (#[trigger] rv[i]).1 by {
            if i >= off {
                assert(rv[i] == dv[i - off]);
                lemma_same_multiset_contains(dv, ds, i - off);
            } else {
                assert(rv[i] == head[i]);
            }
        }
        assert forall|i: int| off + ds.len() <= i < rv.len() implies !(#[trigger] rv[i]).1 && spec_is_image(rv[i].0) by {
            let k = i - off - ds.len();
            assert(rv[i] == fv[k]);
            lemma_same_multiset_contains(fv, fs, k);
        }
    }
    result
}

/// The entries of the directory `dir` as the browser lists them, from the
/// directory's listing: its parent (`..`) first unless `dir` is the root,
/// then the shown subdirectories, then the shown image files, each group
/// sorted by path.
pub fn list_directory(dir: &str, listing: &Vec<DirItem>, include_hidden: bool) -> (r: Vec<Entry>)
    ensures
        is_arrangement(entries_view(r@), parent(dir@), listing@, include_hidden),
{
    let p = path_parent(dir);
    assert(opt_view(p) == parent(dir@));
    arrange_entries(p, listing, include_hidden)
}

/// A path with a leading `~` (alone, or followed by `/`) replaced by the
/// home directory, when the home directory is known.
pub open spec fn expand_tilde_for(p: Seq<char>, home: Option<Seq<char>>) -> Seq<char> {
    match home {
        Some(h) => if p == seq!['~'] {
            h
        } else if p.len() >= 2 && p[0] == '~' && p[1] == '/' {
            join(h, p.subrange(2, p.len() as int))
        } else {
            p
        },
        None => p,
    }
}

/// `p` with a leading tilde expanded against the home directory `home`.
pub fn expand_tilde_with_home(p: &str, home: Option<String>) -> (r: String)
    ensures
        r@ == expand_tilde_for(p@, opt_view(home)),
{
    let v = to_chars(p);
    match home {
        Some(h) => {
            if v.len() == 1 && v[0] == '~' {
                assert(p@ == seq!['~']);
                h
            } else if v.len() >= 2 && v[0] == '~' && v[1] == '/' {
                assert(p@ != seq!['~']);
                let rest = crate::text::from_chars(&crate::text::chars_range(&v, 2, v.len()));
                path_join(&h, rest.as_str())
            } else {
                assert(p@ != seq!['~']) by {
                    if v.len() == 1 {
                        assert(v@[0] != '~');
                    }
                }
                String::from_str(p)
            }
        },
        None => String::from_str(p),
    }
}

/// Expand tilde (~) in path strings to the user's home directory.
pub fn expand_tilde(p: &str) -> (r: String)
    ensures
        exists|h: Option<Seq<char>>| possible_home(h) && r@ == expand_tilde_for(p@, h),
{
    let home = user_home_dir();
    let r = expand_tilde_with_home(p, home);
    assert(possible_home(opt_view(home)));
    r
}

/// The preview text shown when nothing is selected.
pub open spec fn no_selection_text() -> Seq<char> {
    "Select an image (\u{2191}/\u{2193} or j/k), Enter=apply, Shift+S=persist, q/Esc=quit"@
}

/// The key help that follows the selected image's path.
pub open spec fn preview_help_text() -> Seq<char> {
    "\n\nEnter=apply  Shift+S=persist  q/Esc=quit"@
}

/// Build text preview (just the header and instructions): the selected
/// image's path followed by the key help, or a prompt when no image is selected.
pub fn build_preview(p: Option<&str>) -> (r: String)
    ensures
        match p {
            Some(img) => r@ == img@ + preview_help_text(),
            None => r@ == no_selection_text(),
        },
{
    match p {
        Some(img) => {
            let mut s = String::from_str(img);
            s.append("\n\nEnter=apply  Shift+S=persist  q/Esc=quit");
            s
        },
        None => String::from_str("Select an image (\u{2191}/\u{2193} or j/k), Enter=apply, Shift+S=persist, q/Esc=quit"),
    }
}

/// The entries of a listing's hidden items that would be listed as
/// directories if hidden entries were shown, in listing order.
pub open spec fn hidden_dirs(items: Seq<DirItem>) -> Seq<(Seq<char>, bool)>
    decreases items.len(),
{
    if items.len() == 0 {
        Seq::empty()
    } else {
        let rest = hidden_dirs(items.drop_last());
        let it = items.last();
        if !is_shown(it.name@, false) && it.is_dir {
            rest.push((it.path@, true))
        } else {
            rest
        }
    }
}

/// The entries of a listing's hidden items that would be listed as image
/// files if hidden entries were shown, in listing order.
pub open spec fn hidden_images(items: Seq<DirItem>) -> Seq<(Seq<char>, bool)>
    decreases items.len(),
{
    if items.len() == 0 {
        Seq::empty()
    } else {
        let rest = hidden_images(items.drop_last());
        let it = items.last();
        if !is_shown(it.name@, false) && !it.is_dir && it.is_file && spec_is_image(it.path@) {
            rest.push((it.path@, false))
        } else {
            rest
        }
    }
}

/// The entries that showing hidden names adds to a listing.
pub open spec fn hidden_entries(items: Seq<DirItem>) -> Seq<(Seq<char>, bool)> {
    hidden_dirs(items) + hidden_images(items)
}

proof fn lemma_hidden_split(items: Seq<DirItem>)
    ensures
        listed_dirs(items, true).to_multiset()
            == listed_dirs(items, false).to_multiset().add(hidden_dirs(items).to_multiset()),
        listed_images(items, true).to_multiset()
            == listed_images(items, false).to_multiset().add(hidden_images(items).to_multiset()),
    decreases items.len(),
{
    broadcast use vstd::multiset::group_multiset_axioms;
    broadcast use vstd::seq_lib::group_to_multiset_ensures;
    if items.len() == 0 {
        assert(listed_dirs(items, true).to_multiset() =~= Multiset::empty());
        assert(listed_dirs(items, false).to_multiset() =~= Multiset::empty());
        assert(hidden_dirs(items).to_multiset() =~= Multiset::empty());
        assert(listed_images(items, true).to_multiset() =~= Multiset::empty());
        assert(listed_images(items, false).to_multiset() =~= Multiset::empty());
        assert(hidden_images(items).to_multiset() =~= Multiset::empty());
        assert(Multiset::<(Seq<char>, bool)>::empty().add(Multiset::empty()) =~= Multiset::empty());
    } else {
        lemma_hidden_split(items.drop_last());
        let r = items.drop_last();
        let it = items.last();
        let d1 = listed_dirs(r, true).to_multiset();
        let d0 = listed_dirs(r, false).to_multiset();
        let hd = hidden_dirs(r).to_multiset();
        let f1 = listed_images(r, true).to_multiset();
        let f0 = listed_images(r, false).to_multiset();
        let hf = hidden_images(r).to_multiset();
        let ed = (it.path@, true);
        let ef = (it.path@, false);
        if it.is_dir {
            if is_shown(it.name@, false) {
                assert(d1.insert(ed) =~= d0.insert(ed).add(hd));
            } else {
                assert(d1.insert(ed) =~= d0.add(hd.insert(ed)));
            }
        } else if it.is_file && spec_is_image(it.path@) {
            if is_shown(it.name@, false) {
                assert(f1.insert(ef) =~= f0.insert(ef).add(hf));
            } else {
                assert(f1.insert(ef) =~= f0.add(hf.insert(ef)));
            }
        }
    }
}

/// `a` is the subsequence of `b` at the strictly increasing positions `idx`.
pub open spec fn subsequence_at(a: Seq<(Seq<char>, bool)>, b: Seq<(Seq<char>, bool)>, idx: Seq<int>) -> bool {
    &&& idx.len() == a.len()
    &&& forall|i: int| 0 <= i < idx.len() ==> 0 <= #[trigger] idx[i] < b.len() && b[idx[i]] == a[i]
    &&& forall|i: int, j: int| 0 <= i < j < idx.len() ==> #[trigger] idx[i] < #[trigger] idx[j]
}

/// A sorted group whose elements all appear in a larger sorted group (of
/// entries of one kind) is a subsequence of it.
proof fn lemma_sorted_sub_multiset(a: Seq<(Seq<char>, bool)>, b: Seq<(Seq<char>, bool)>, flag: bool) -> (idx: Seq<int>)
    requires
        sorted_by_path(a),
        sorted_by_path(b),
        forall|i: int| 0 <= i < a.len() ==> (#[trigger] a[i]).1 == flag,
        forall|i: int| 0 <= i < b.len() ==> (#[trigger] b[i]).1 == flag,
        a.to_multiset().subset_of(b.to_multiset()),
    ensures
        subsequence_at(a, b, idx),
    decreases b.len(),
{
    broadcast use vstd::multiset::group_multiset_axioms;
    broadcast use vstd::seq_lib::group_to_multiset_ensures;
    if a.len() == 0 {
        Seq::empty()
    } else {
        assert(a.contains(a[0]));
        assert(a.to_multiset().count(a[0]) > 0);
        assert(b.to_multiset().count(a[0]) > 0);
        assert(b.contains(a[0]));
        let bt = b.drop_first();
        assert(b == seq![b[0]] + bt);
        vstd::seq_lib::lemma_multiset_commutative(seq![b[0]], bt);
        assert(seq![b[0]].to_multiset() =~= Multiset::singleton(b[0])) by {
            assert(seq![b[0]] == Seq::<(Seq<char>, bool)>::empty().push(b[0]));
            assert(Seq::<(Seq<char>, bool)>::empty().to_multiset() =~= Multiset::empty());
        }
        assert forall|i: int, j: int| 0 <= i < j < bt.len() implies lex_le(#[trigger] bt[i].0, #[trigger] bt[j].0) by {
            assert(bt[i] == b[i + 1] && bt[j] == b[j + 1]);
        }
        if a[0] == b[0] {
            let at = a.drop_first();
            assert(a == seq![a[0]] + at);
            vstd::seq_lib::lemma_multiset_commutative(seq![a[0]], at);
            assert(seq![a[0]].to_multiset() =~= Multiset::singleton(a[0])) by {
                assert(seq![a[0]] == Seq::<(Seq<char>, bool)>::empty().push(a[0]));
                assert(Seq::<(Seq<char>, bool)>::empty().to_multiset() =~= Multiset::empty());
            }
            assert forall|i: int, j: int| 0 <= i < j < at.len() implies lex_le(#[trigger] at[i].0, #[trigger] at[j].0) by {
                assert(at[i] == a[i + 1] && at[j] == a[j + 1]);
            }
            assert(at.to_multiset().subset_of(bt.to_multiset())) by {
                assert forall|v: (Seq<char>, bool)| at.to_multiset().count(v) <= bt.to_multiset().count(v) by {
                    assert(a.to_multiset().count(v) <= b.to_multiset().count(v));
                }
            }
            let rest = lemma_sorted_sub_multiset(at, bt, flag);
            let idx = seq![0int] + rest.map_values(|k: int| k + 1);
            assert forall|i: int| 0 <= i < idx.len() implies 0 <= #[trigger] idx[i] < b.len() && b[idx[i]] == a[i] by {
                if i > 0 {
                    assert(idx[i] == rest[i - 1] + 1);
                    assert(b[idx[i]] == bt[rest[i - 1]]);
                }
            }
            assert forall|i: int, j: int| 0 <= i < j < idx.len() implies #[trigger] idx[i] < #[trigger] idx[j] by {
                if i > 0 {
                    assert(rest[i - 1] < rest[j - 1]);
                } else {
                    assert(idx[j] == rest[j - 1] + 1);
                    assert(0 <= rest[j - 1]);
                }
            }
            idx
        } else {
            // b[0] is not in a: a key equal to a[0]'s would make it a[0]
            assert(a.to_multiset().count(b[0]) == 0) by {
                if a.contains(b[0]) {
                    let i = choose|i: int| 0 <= i < a.len() && a[i] == b[0];
                    let j = choose|j: int| 0 <= j < b.len() && b[j] == a[0];
                    assert(j != 0);
                    assert(lex_le(b[0].0, b[j].0));
                    if i > 0 {
                        assert(lex_le(a[0].0, a[i].0));
                    }
                    lemma_lex_le_antisymmetric(a[0].0, b[0].0);
                    assert(a[0].1 == flag && b[0].1 == flag);
                    assert(a[0] == b[0]);
                }
            }
            assert(a.to_multiset().subset_of(bt.to_multiset())) by {
                assert forall|v: (Seq<char>, bool)| a.to_multiset().count(v) <= bt.to_multiset().count(v) by {
                    assert(a.to_multiset().count(v) <= b.to_multiset().count(v));
                }
            }
            let rest = lemma_sorted_sub_multiset(a, bt, flag);
            let idx = rest.map_values(|k: int| k + 1);
            assert forall|i: int| 0 <= i < idx.len() implies 0 <= #[trigger] idx[i] < b.len() && b[idx[i]] == a[i] by {
                assert(b[idx[i]] == bt[rest[i]]);
            }
            assert forall|i: int, j: int| 0 <= i < j < idx.len() implies #[trigger] idx[i] < #[trigger] idx[j] by {
                assert(rest[i] < rest[j]);
            }
            idx
        }
    }
}

/// Leaving hidden entries out only removes entries: the listing without
/// them is a subsequence of the listing with them, and the entries it lacks
/// are exactly those of the directory's items whose names start with `.`
/// (that are directories or image files).
#[verifier::rlimit(40)]
pub proof fn lemma_hidden_entries_removed(
    parent: Option<Seq<char>>,
    listing: Seq<DirItem>,
    with_hidden: Seq<(Seq<char>, bool)>,
    without_hidden: Seq<(Seq<char>, bool)>,
)
    requires
        is_arrangement(with_hidden, parent, listing, true),
        is_arrangement(without_hidden, parent, listing, false),
    ensures
        exists|idx: Seq<int>| subsequence_at(without_hidden, with_hidden, idx),
        with_hidden.to_multiset() == without_hidden.to_multiset().add(hidden_entries(listing).to_multiset()),
{
    broadcast use vstd::multiset::group_multiset_axioms;
    let w = with_hidden;
    let o = without_hidden;
    let off: int = if parent is Some { 1 } else { 0 };
    let n1 = listed_dirs(listing, true).len() as int;
    let n0 = listed_dirs(listing, false).len() as int;
    let hw = w.subrange(0, off);
    let ho = o.subrange(0, off);
    let d1 = w.subrange(off, off + n1);
    let f1 = w.subrange(off + n1, w.len() as int);
    let d0 = o.subrange(off, off + n0);
    let f0 = o.subrange(off + n0, o.len() as int);
    assert(w =~= hw + d1 + f1);
    assert(o =~= ho + d0 + f0);
    assert(hw =~= ho) by {
        if parent is Some {
            assert(hw[0] == w[0] && ho[0] == o[0]);
        }
    }
    lemma_hidden_split(listing);
    // the entries
    vstd::seq_lib::lemma_multiset_commutative(hw + d1, f1);
    vstd::seq_lib::lemma_multiset_commutative(hw, d1);
    vstd::seq_lib::lemma_multiset_commutative(ho + d0, f0);
    vstd::seq_lib::lemma_multiset_commutative(ho, d0);
    vstd::seq_lib::lemma_multiset_commutative(hidden_dirs(listing), hidden_images(listing));
    assert(w.to_multiset() =~= o.to_multiset().add(hidden_entries(listing).to_multiset()));
    // the order
    assert forall|i: int| 0 <= i < d1.len() implies (#[trigger] d1[i]).1 == true by {
        assert(d1[i] == w[off + i]);
    }
    assert forall|i: int| 0 <= i < d0.len() implies (#[trigger] d0[i]).1 == true by {
        assert(d0[i] == o[off + i]);
    }
    assert forall|i: int| 0 <= i < f1.len() implies (#[trigger] f1[i]).1 == false by {
        assert(f1[i] == w[off + n1 + i]);
    }
    assert forall|i: int| 0 <= i < f0.len() implies (#[trigger] f0[i]).1 == false by {
        assert(f0[i] == o[off + n0 + i]);
    }
    let id = lemma_sorted_sub_multiset(d0, d1, true);
    let jf = lemma_sorted_sub_multiset(f0, f1, false);
    let head: Seq<int> = if parent is Some { seq![0int] } else { Seq::empty() };
    let idx = head + id.map_values(|k: int| k + off) + jf.map_values(|k: int| k + off + n1);
    assert(idx.len() == o.len());
    assert forall|i: int| 0 <= i < idx.len() implies 0 <= #[trigger] idx[i] < w.len() && w[idx[i]] == o[i] by {
        if i < off {
            assert(idx[i] == 0);
            assert(o[i] == ho[i] && w[0] == hw[0]);
        } else if i < off + n0 {
            assert(idx[i] == id[i - off] + off);
            assert(o[i] == d0[i - off]);
            assert(w[idx[i]] == d1[id[i - off]]);
        } else {
            assert(idx[i] == jf[i - off - n0] + off + n1);
            assert(o[i] == f0[i - off - n0]);
            assert(w[idx[i]] == f1[jf[i - off - n0]]);
        }
    }
    assert forall|i: int, j: int| 0 <= i < j < idx.len() implies #[trigger] idx[i] < #[trigger] idx[j] by {
        if j < off {
        } else if j < off + n0 {
            if i >= off {
                assert(id[i - off] < id[j - off]);
            }
            assert(idx[j] == id[j - off] + off && 0 <= id[j - off]);
        } else {
            assert(idx[j] == jf[j - off - n0] + off + n1 && 0 <= jf[j - off - n0]);
            if i >= off + n0 {
                assert(jf[i - off - n0] < jf[j - off - n0]);
            } else if i >= off {
                assert(idx[i] == id[i - off] + off && id[i - off] < d1.len());
            }
        }
    }
    assert(subsequence_at(o, w, idx));
}

} // verus!
