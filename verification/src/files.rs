//! Path rewriting and file identity.
//!
//! A path is a string. Its segments are the maximal runs of characters other
//! than `/`; a path is absolute when it begins with `/`.

use vstd::prelude::*;
use crate::order::{lemma_prefix_precedes, precedes};
use crate::text::{extend_chars, from_chars, same_chars, to_chars};

verus! {

/// The segments closed so far and the segment still open after reading `s`.
pub open spec fn scan(s: Seq<char>) -> (Seq<Seq<char>>, Seq<char>)
    decreases s.len(),
{
    if s.len() == 0 {
        (Seq::empty(), Seq::empty())
    } else {
        let before = scan(s.drop_last());
        if s.last() == '/' {
            if before.1.len() > 0 {
                (before.0.push(before.1), Seq::empty())
            } else {
                (before.0, Seq::empty())
            }
        } else {
            (before.0, before.1.push(s.last()))
        }
    }
}

/// The segments of a path, in order.
pub open spec fn segments(s: Seq<char>) -> Seq<Seq<char>> {
    let end = scan(s);
    if end.1.len() > 0 {
        end.0.push(end.1)
    } else {
        end.0
    }
}

/// Whether a path begins at the root.
pub open spec fn is_absolute(s: Seq<char>) -> bool {
    s.len() > 0 && s[0] == '/'
}

/// A segment is not empty and holds no separator.
pub open spec fn is_segment(s: Seq<char>) -> bool {
    s.len() > 0 && forall|i: int| 0 <= i < s.len() ==> s[i] != '/'
}

/// Every element is a segment.
pub open spec fn all_segments(segs: Seq<Seq<char>>) -> bool {
    forall|i: int| 0 <= i < segs.len() ==> is_segment(#[trigger] segs[i])
}

/// The segments written one after the other with a single `/` between neighbours.
pub open spec fn join_segments(segs: Seq<Seq<char>>) -> Seq<char>
    decreases segs.len(),
{
    if segs.len() == 0 {
        Seq::empty()
    } else if segs.len() == 1 {
        segs[0]
    } else {
        join_segments(segs.drop_last()) + seq!['/'] + segs.last()
    }
}

/// Whether `origin` lies at or below `root`: both are absolute or both are
/// relative, and the segments of `root` open those of `origin`.
pub open spec fn rooted_under(origin: Seq<char>, root: Seq<char>) -> bool {
    is_absolute(origin) == is_absolute(root) && segments(root).is_prefix_of(segments(origin))
}

/// What is left of `origin` below `root`.
pub open spec fn remainder(origin: Seq<char>, root: Seq<char>) -> Seq<char> {
    join_segments(segments(origin).skip(segments(root).len() as int))
}

/// `rest` appended below `base`.
pub open spec fn join_path(base: Seq<char>, rest: Seq<char>) -> Seq<char> {
    if base.len() == 0 || base.last() == '/' {
        base + rest
    } else {
        base + seq!['/'] + rest
    }
}

/// Whether a name begins with a dot.
pub open spec fn hidden_name(name: Seq<char>) -> bool {
    name.len() > 0 && name[0] == '.'
}

/// `rest` with a dot before its first segment, unless it has none or is hidden already.
pub open spec fn hidden(rest: Seq<char>) -> Seq<char> {
    if rest.len() == 0 || rest[0] == '.' {
        rest
    } else {
        seq!['.'] + rest
    }
}

/// The path that stands for `origin` once `current` is replaced by `new`.
pub open spec fn rewritten(origin: Seq<char>, current: Seq<char>, new: Seq<char>, hide: bool) -> Seq<char> {
    if rooted_under(origin, current) {
        let rest = remainder(origin, current);
        join_path(new, if hide { hidden(rest) } else { rest })
    } else {
        origin
    }
}

/// The last segment of a path, or the whole path where it has no segment.
pub open spec fn file_name(path: Seq<char>) -> Seq<char> {
    let segs = segments(path);
    if segs.len() > 0 {
        segs.last()
    } else {
        path
    }
}

/// The views of the vectors of `v`.
pub open spec fn views(v: Seq<Vec<char>>) -> Seq<Seq<char>> {
    v.map_values(|x: Vec<char>| x@)
}

/// Splits a path into its segments.
pub fn split_segments(path: &Vec<char>) -> (segs: Vec<Vec<char>>)
    ensures
        views(segs@) == segments(path@),
{
    let mut done: Vec<Vec<char>> = Vec::new();
    let mut cur: Vec<char> = Vec::new();
    let mut i: usize = 0;
    assert(views(done@) =~= Seq::<Seq<char>>::empty());
    while i < path.len()
        invariant
            i <= path.len(),
            (views(done@), cur@) == scan(path@.subrange(0, i as int)),
        decreases path.len() - i,
    {
        let c = path[i];
        proof {
            let next = path@.subrange(0, i + 1);
            assert(next.drop_last() == path@.subrange(0, i as int));
            assert(next.last() == c);
        }
        if c == '/' {
            if cur.len() > 0 {
                let ghost before = views(done@);
                done.push(cur);
                assert(views(done@) =~= before.push(cur@));
                cur = Vec::new();
            }
        } else {
            cur.push(c);
        }
        i = i + 1;
    }
    assert(path@.subrange(0, path.len() as int) == path@);
    if cur.len() > 0 {
        let ghost before = views(done@);
        done.push(cur);
        assert(views(done@) =~= before.push(cur@));
    }
    done
}

/// Whether the segments `root` open the segments `all`.
pub fn opens_with(all: &Vec<Vec<char>>, root: &Vec<Vec<char>>) -> (r: bool)
    ensures
        r == views(root@).is_prefix_of(views(all@)),
{
    if root.len() > all.len() {
        return false;
    }
    let mut i: usize = 0;
    while i < root.len()
        invariant
            root.len() <= all.len(),
            i <= root.len(),
            forall|j: int| 0 <= j < i ==> views(root@)[j] == views(all@)[j],
        decreases root.len() - i,
    {
        if !same_chars(&all[i], &root[i]) {
            assert(views(root@)[i as int] != views(all@)[i as int]);
            return false;
        }
        i = i + 1;
    }
    assert(views(root@) =~= views(all@).subrange(0, views(root@).len() as int));
    true
}

/// Joins the segments of `segs` from index `from` on.
pub fn join_from(segs: &Vec<Vec<char>>, from: usize) -> (out: Vec<char>)
    requires
        from <= segs.len(),
    ensures
        out@ == join_segments(views(segs@).skip(from as int)),
{
    let mut out: Vec<char> = Vec::new();
    let mut i: usize = from;
    assert(views(segs@).subrange(from as int, from as int) =~= Seq::<Seq<char>>::empty());
    while i < segs.len()
        invariant
            from <= i <= segs.len(),
            out@ == join_segments(views(segs@).subrange(from as int, i as int)),
        decreases segs.len() - i,
    {
        let ghost before = views(segs@).subrange(from as int, i as int);
        let ghost after = views(segs@).subrange(from as int, i + 1);
        assert(after.drop_last() =~= before);
        assert(after.last() == segs@[i as int]@);
        if i > from {
            out.push('/');
            extend_chars(&mut out, &segs[i]);
            assert(out@ =~= join_segments(before) + seq!['/'] + segs@[i as int]@);
        } else {
            extend_chars(&mut out, &segs[i]);
            assert(out@ =~= segs@[i as int]@);
        }
        i = i + 1;
    }
    assert(views(segs@).subrange(from as int, segs.len() as int) =~= views(segs@).skip(from as int));
    out
}

/// Rewrites `origin_path` from below `current` to below `new`. A path that
/// does not lie below `current` is handed back as it is. With `hide`, the
/// first segment below `new` gets a leading dot unless it has one.
pub fn change_root_dir(origin_path: &str, current: &String, new: &String, hide: bool) -> (res: String)
    ensures
        res@ == rewritten(origin_path@, current@, new@, hide),
{
    let origin = to_chars(origin_path);
    let cur = to_chars(current.as_str());
    let origin_abs = origin.len() > 0 && origin[0] == '/';
    let cur_abs = cur.len() > 0 && cur[0] == '/';
    let origin_segs = split_segments(&origin);
    let cur_segs = split_segments(&cur);
    if origin_abs != cur_abs || !opens_with(&origin_segs, &cur_segs) {
        return from_chars(&origin);
    }
    let rest = join_from(&origin_segs, cur_segs.len());
    let mut out = to_chars(new.as_str());
    if out.len() > 0 && out[out.len() - 1] != '/' {
        out.push('/');
    }
    if hide && rest.len() > 0 && rest[0] != '.' {
        out.push('.');
    }
    extend_chars(&mut out, &rest);
    proof {
        let shown = if hide { hidden(rest@) } else { rest@ };
        assert(out@ =~= join_path(new@, shown));
    }
    from_chars(&out)
}

/// Whether `origin` lies at or below `root`.
pub fn lies_under(origin: &str, root: &str) -> (r: bool)
    ensures
        r == rooted_under(origin@, root@),
{
    let o = to_chars(origin);
    let c = to_chars(root);
    let o_abs = o.len() > 0 && o[0] == '/';
    let c_abs = c.len() > 0 && c[0] == '/';
    let o_segs = split_segments(&o);
    let c_segs = split_segments(&c);
    o_abs == c_abs && opens_with(&o_segs, &c_segs)
}

/// The directory that a path lies in: the path without its last segment. A
/// path without segments is its own parent.
pub open spec fn parent(path: Seq<char>) -> Seq<char> {
    let segs = segments(path);
    if segs.len() == 0 {
        path
    } else if is_absolute(path) {
        seq!['/'] + join_segments(segs.drop_last())
    } else {
        join_segments(segs.drop_last())
    }
}

/// The directory that a path lies in.
pub fn parent_of(path: &str) -> (res: String)
    ensures
        res@ == parent(path@),
{
    let chars = to_chars(path);
    let mut segs = split_segments(&chars);
    if segs.len() == 0 {
        return from_chars(&chars);
    }
    let ghost all = views(segs@);
    segs.pop();
    assert(views(segs@) =~= all.drop_last());
    assert(views(segs@).skip(0) =~= views(segs@));
    let up = join_from(&segs, 0);
    let mut out: Vec<char> = Vec::new();
    if chars[0] == '/' {
        out.push('/');
    }
    extend_chars(&mut out, &up);
    proof {
        if chars@[0] == '/' {
            assert(out@ =~= seq!['/'] + up@);
        } else {
            assert(out@ =~= up@);
        }
    }
    from_chars(&out)
}

/// Whether a file name is hidden: whether it begins with a dot.
pub fn is_hidden(entry: &str) -> (r: bool)
    ensures
        r == hidden_name(entry@),
{
    entry.unicode_len() > 0 && entry.get_char(0) == '.'
}

/// The file name of a path: its last segment, or the path itself where it has none.
pub fn file_name_of(path: &str) -> (name: String)
    ensures
        name@ == file_name(path@),
{
    let chars = to_chars(path);
    let segs = split_segments(&chars);
    if segs.len() > 0 {
        from_chars(&segs[segs.len() - 1])
    } else {
        from_chars(&chars)
    }
}


/// Whether no character of `s` is a separator.
pub open spec fn plain(s: Seq<char>) -> bool {
    forall|i: int| 0 <= i < s.len() ==> s[i] != '/'
}

/// Every closed segment is a segment, and the open one holds no separator.
pub proof fn lemma_scan_segments(s: Seq<char>)
    ensures
        all_segments(scan(s).0),
        plain(scan(s).1),
        all_segments(segments(s)),
    decreases s.len(),
{
    if s.len() > 0 {
        lemma_scan_segments(s.drop_last());
    }
}

/// Reading on through characters that are no separators only lengthens the open segment.
pub proof fn lemma_scan_plain(a: Seq<char>, x: Seq<char>)
    requires
        plain(x),
    ensures
        scan(a + x) == (scan(a).0, scan(a).1 + x),
    decreases x.len(),
{
    if x.len() == 0 {
        assert(a + x =~= a);
        assert(scan(a).1 + x =~= scan(a).1);
    } else {
        lemma_scan_plain(a, x.drop_last());
        assert((a + x).drop_last() =~= a + x.drop_last());
        assert((a + x).last() == x.last());
        assert(scan(a).1 + x =~= (scan(a).1 + x.drop_last()).push(x.last()));
    }
}

/// Where no segment is open after `a`, the segments of what follows are read on their own.
pub proof fn lemma_scan_boundary(a: Seq<char>, b: Seq<char>)
    requires
        scan(a).1.len() == 0,
    ensures
        scan(a + b) == (scan(a).0 + scan(b).0, scan(b).1),
        segments(a + b) == segments(a) + segments(b),
    decreases b.len(),
{
    if b.len() == 0 {
        assert(a + b =~= a);
        assert(scan(a).0 + scan(b).0 =~= scan(a).0);
        assert(scan(a).1 =~= scan(b).1);
    } else {
        lemma_scan_boundary(a, b.drop_last());
        assert((a + b).drop_last() =~= a + b.drop_last());
        assert((a + b).last() == b.last());
        let sa = scan(a).0;
        let sb = scan(b.drop_last());
        assert(sa + sb.0.push(sb.1) =~= (sa + sb.0).push(sb.1));
    }
    let e = scan(b);
    assert(scan(a).0 + e.0.push(e.1) =~= (scan(a).0 + e.0).push(e.1));
    assert(segments(a) == scan(a).0);
}

/// The segments of a path under a base are those of the base, then those of the path.
pub proof fn lemma_join_path_segments(base: Seq<char>, rest: Seq<char>)
    ensures
        segments(join_path(base, rest)) == segments(base) + segments(rest),
        base.len() > 0 ==> is_absolute(join_path(base, rest)) == is_absolute(base),
        base.len() == 0 ==> join_path(base, rest) == rest,
{
    if base.len() == 0 {
        assert(base + rest =~= rest);
        assert(segments(base) + segments(rest) =~= segments(rest));
    } else if base.last() == '/' {
        lemma_scan_boundary(base, rest);
    } else {
        let closed = base + seq!['/'];
        assert(closed.drop_last() =~= base);
        assert(closed.last() == '/');
        assert(scan(closed).1.len() == 0);
        assert(segments(closed) == segments(base));
        lemma_scan_boundary(closed, rest);
    }
}

/// Joining segments and splitting again gives the segments back.
pub proof fn lemma_join_split(segs: Seq<Seq<char>>)
    requires
        all_segments(segs),
    ensures
        segments(join_segments(segs)) == segs,
        segs.len() > 0 ==> scan(join_segments(segs)) == (segs.drop_last(), segs.last()),
        segs.len() > 0 ==> join_segments(segs).len() > 0 && join_segments(segs)[0] == segs[0][0],
        segs.len() == 0 ==> join_segments(segs).len() == 0,
    decreases segs.len(),
{
    if segs.len() == 0 {
    } else if segs.len() == 1 {
        let x = segs[0];
        assert(is_segment(x));
        lemma_scan_plain(Seq::<char>::empty(), x);
        assert(Seq::<char>::empty() + x =~= x);
        assert(segs.drop_last() =~= Seq::<Seq<char>>::empty());
        assert(Seq::<Seq<char>>::empty().push(x) =~= segs);
    } else {
        let front = segs.drop_last();
        let x = segs.last();
        assert(is_segment(x));
        assert(all_segments(front)) by {
            assert forall|i: int| 0 <= i < front.len() implies is_segment(#[trigger] front[i]) by {
                assert(front[i] == segs[i]);
            }
        }
        lemma_join_split(front);
        let closed = join_segments(front) + seq!['/'];
        assert(closed.drop_last() =~= join_segments(front));
        assert(closed.last() == '/');
        assert(is_segment(front.last()));
        assert(front.drop_last().push(front.last()) =~= front);
        assert(scan(closed) == (front, Seq::<char>::empty()));
        lemma_scan_plain(closed, x);
        assert(Seq::<char>::empty() + x =~= x);
        assert(front.push(x) =~= segs);
        assert(front[0] == segs[0]);
    }
}

/// A rewritten path lies below its new root.
pub proof fn lemma_rewritten_rooted(origin: Seq<char>, current: Seq<char>, new: Seq<char>, hide: bool)
    requires
        rooted_under(origin, current),
    ensures
        rooted_under(rewritten(origin, current, new, hide), new),
{
    let tail = segments(origin).skip(segments(current).len() as int);
    let rest = remainder(origin, current);
    let shown = if hide { hidden(rest) } else { rest };
    lemma_scan_segments(origin);
    assert(all_segments(tail)) by {
        assert forall|i: int| 0 <= i < tail.len() implies is_segment(#[trigger] tail[i]) by {
            assert(tail[i] == segments(origin)[i + segments(current).len()]);
        }
    }
    lemma_join_split(tail);
    lemma_join_path_segments(new, shown);
    let all = segments(new) + segments(shown);
    assert(all.subrange(0, segments(new).len() as int) =~= segments(new));
    if new.len() == 0 {
        if tail.len() > 0 {
            assert(is_segment(tail[0]));
        }
        assert(!is_absolute(shown));
    }
}

/// The segments of a path below a root are those of the root, then those of what is left below it.
pub proof fn lemma_rooted_split(origin: Seq<char>, root: Seq<char>)
    requires
        rooted_under(origin, root),
    ensures
        segments(origin) == segments(root) + segments(origin).skip(segments(root).len() as int),
        all_segments(segments(origin).skip(segments(root).len() as int)),
        segments(remainder(origin, root)) == segments(origin).skip(segments(root).len() as int),
{
    let k = segments(root).len() as int;
    let tail = segments(origin).skip(k);
    lemma_scan_segments(origin);
    assert(segments(origin) =~= segments(root) + tail);
    assert(all_segments(tail)) by {
        assert forall|i: int| 0 <= i < tail.len() implies is_segment(#[trigger] tail[i]) by {
            assert(tail[i] == segments(origin)[i + k]);
        }
    }
    lemma_join_split(tail);
}


/// A dot before joined segments is a dot before the first of them.
pub proof fn lemma_join_dotted(segs: Seq<Seq<char>>)
    requires
        segs.len() > 0,
    ensures
        seq!['.'] + join_segments(segs) == join_segments(segs.update(0, seq!['.'] + segs[0])),
    decreases segs.len(),
{
    let dotted = segs.update(0, seq!['.'] + segs[0]);
    if segs.len() == 1 {
    } else {
        assert(dotted.drop_last() =~= segs.drop_last().update(0, seq!['.'] + segs[0]));
        assert(segs.drop_last()[0] == segs[0]);
        lemma_join_dotted(segs.drop_last());
        assert(dotted.last() == segs.last());
        assert(seq!['.'] + (join_segments(segs.drop_last()) + seq!['/'] + segs.last()) =~= (seq!['.']
            + join_segments(segs.drop_last())) + seq!['/'] + segs.last());
    }
}

/// The segments below the root with the first of them hidden.
pub open spec fn hidden_tail(tail: Seq<Seq<char>>) -> Seq<Seq<char>> {
    if tail.len() == 0 || hidden_name(tail[0]) {
        tail
    } else {
        tail.update(0, seq!['.'] + tail[0])
    }
}

/// Hiding a path in place leaves the segments of the root and hides the
/// first segment below it; the segments after that stay as they are.
pub proof fn lemma_hide_in_place(key: Seq<char>, root: Seq<char>)
    requires
        rooted_under(key, root),
    ensures
        segments(rewritten(key, root, root, true)) == segments(root) + hidden_tail(
            segments(key).skip(segments(root).len() as int),
        ),
        segments(key).len() > segments(root).len() ==> hidden_name(
            segments(rewritten(key, root, root, true))[segments(root).len() as int],
        ),
        segments(key).len() == segments(root).len() + 1 ==> hidden_name(file_name(rewritten(key, root, root, true))),
{
    let tail = segments(key).skip(segments(root).len() as int);
    let rest = remainder(key, root);
    lemma_rooted_split(key, root);
    lemma_join_split(tail);
    lemma_join_path_segments(root, hidden(rest));
    if tail.len() > 0 {
        assert(is_segment(tail[0]));
        if !hidden_name(tail[0]) {
            let dotted = tail.update(0, seq!['.'] + tail[0]);
            lemma_join_dotted(tail);
            assert(all_segments(dotted)) by {
                assert forall|i: int| 0 <= i < dotted.len() implies is_segment(#[trigger] dotted[i]) by {
                    if i > 0 {
                        assert(dotted[i] == tail[i]);
                        assert(is_segment(tail[i]));
                    }
                }
            }
            lemma_join_split(dotted);
        }
        let shown = segments(root) + hidden_tail(tail);
        assert(shown[segments(root).len() as int] == hidden_tail(tail)[0]);
        if tail.len() == 1 {
            assert(shown.last() == hidden_tail(tail)[0]);
        }
    }
}


/// What lies below a path lies below the directory that the path lies in.
pub proof fn lemma_parent_roots(path: Seq<char>, root: Seq<char>)
    requires
        rooted_under(path, root),
    ensures
        rooted_under(path, parent(root)),
        segments(root).len() > 0 ==> segments(parent(root)) == segments(root).drop_last(),
{
    let segs = segments(root);
    if segs.len() > 0 {
        let front = segs.drop_last();
        lemma_scan_segments(root);
        assert(all_segments(front)) by {
            assert forall|i: int| 0 <= i < front.len() implies is_segment(#[trigger] front[i]) by {
                assert(front[i] == segs[i]);
            }
        }
        lemma_join_split(front);
        if front.len() > 0 {
            assert(is_segment(front[0]));
        }
        if is_absolute(root) {
            let slash = seq!['/'];
            assert(slash.drop_last() =~= Seq::<char>::empty());
            assert(scan(slash.drop_last()) == (Seq::<Seq<char>>::empty(), Seq::<char>::empty()));
            assert(slash.last() == '/');
            assert(scan(slash) == (Seq::<Seq<char>>::empty(), Seq::<char>::empty()));
            lemma_scan_boundary(slash, join_segments(front));
            assert(Seq::<Seq<char>>::empty() + front =~= front);
        }
        assert(segments(parent(root)) == front);
        let all = segments(path);
        assert(all.subrange(0, segs.len() as int) == segs);
        assert(front =~= all.subrange(0, front.len() as int)) by {
            assert forall|i: int| 0 <= i < front.len() implies front[i] == all.subrange(0, front.len() as int)[i] by {
                assert(front[i] == segs[i]);
                assert(all.subrange(0, segs.len() as int)[i] == all[i]);
            }
        }
    }
}


/// What tells one file system object from another: its device and its inode.
#[derive(Clone, Copy, Debug, PartialEq, Eq, Structural)]
pub struct FileId {
    pub dev: u64,
    pub ino: u64,
}

/// Whether two paths lead to the same object: both exist, on the same
/// device, under the same inode. `None` stands for a path that leads nowhere.
pub open spec fn same_target(a: Option<FileId>, b: Option<FileId>) -> bool {
    a is Some && b is Some && a->0.dev == b->0.dev && a->0.ino == b->0.ino
}

/// Whether two paths lead to the same object, from what following each of
/// them found.
pub fn is_same_file(origin_file: Option<FileId>, destiny_file: Option<FileId>) -> (r: bool)
    ensures
        r == same_target(origin_file, destiny_file),
{
    match (origin_file, destiny_file) {
        (Some(a), Some(b)) => a.dev == b.dev && a.ino == b.ino,
        _ => false,
    }
}

/// One change to the file system.
#[derive(Clone, Debug, PartialEq, Eq)]
pub enum Effect {
    /// Create the directory, and those above it that are missing.
    CreateDir(String),
    /// Create a symbolic link at `link` that leads to `origin`.
    Symlink { origin: String, link: String },
    /// Delete the file or link.
    Delete(String),
    /// Delete the file or link; that there is none is no failure.
    ForceDelete(String),
}

/// The mathematical value of an `Effect`.
pub enum EffectView {
    CreateDir(Seq<char>),
    Symlink { origin: Seq<char>, link: Seq<char> },
    Delete(Seq<char>),
    ForceDelete(Seq<char>),
}

impl View for Effect {
    type V = EffectView;

    open spec fn view(&self) -> EffectView {
        match self {
            Effect::CreateDir(p) => EffectView::CreateDir(p@),
            Effect::Symlink { origin, link } => EffectView::Symlink { origin: origin@, link: link@ },
            Effect::Delete(p) => EffectView::Delete(p@),
            Effect::ForceDelete(p) => EffectView::ForceDelete(p@),
        }
    }
}

/// The views of the effects of `v`.
pub open spec fn effect_views(v: Seq<Effect>) -> Seq<EffectView> {
    v.map_values(|e: Effect| e@)
}

/// What replacing a link takes: whatever stands at the destination is
/// deleted, then the link is made.
pub open spec fn overwriting(origin: Seq<char>, link: Seq<char>) -> Seq<EffectView> {
    seq![EffectView::ForceDelete(link), EffectView::Symlink { origin, link }]
}

/// The changes that put a link to `origin_file` at `destiny_file`, whatever stands there.
pub fn overwrite_symlink(origin_file: &str, destiny_file: &str) -> (res: Vec<Effect>)
    ensures
        effect_views(res@) == overwriting(origin_file@, destiny_file@),
{
    let res = vec![
        Effect::ForceDelete(destiny_file.to_owned()),
        Effect::Symlink { origin: origin_file.to_owned(), link: destiny_file.to_owned() },
    ];
    assert(effect_views(res@) =~= overwriting(origin_file@, destiny_file@));
    res
}


/// A directory comes first: a path stands, in the order of the keys, before
/// every path that is joined below it.
pub proof fn lemma_directory_first(base: Seq<char>, rest: Seq<char>)
    requires
        rest.len() > 0,
    ensures
        precedes(base, join_path(base, rest)),
{
    let below = join_path(base, rest);
    assert(below.subrange(0, base.len() as int) =~= base);
    lemma_prefix_precedes(base, below);
}


} // verus!
