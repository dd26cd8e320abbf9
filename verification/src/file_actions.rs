//! The resolution engine: from walked source trees to the resolved mapping.

use vstd::prelude::*;
use crate::files::{change_root_dir, file_name, file_name_of, hidden_name, hidden_tail, is_hidden, lemma_hide_in_place, lemma_parent_roots, lemma_rewritten_rooted, lies_under, opens_with, parent, parent_of, rewritten, rooted_under, segments, split_segments, views};
use crate::text::{begins_with, starts_with_chars, to_chars};
use crate::mapping::{flagged, has_key, in_order, kept, lemma_listed, lemma_listed_insert, lemma_listed_kept, lemma_unflagged_all, lemma_unflagged_kept, listed, ActionMap, FileEntry, FileEntryView, FileKind, Pair};
use crate::pattern::{any_pattern_matches, compile_set, error_text, patterns_compile, set_is_match, set_patterns, PatternError};
use crate::settings::{special_folders, strings, Settings};

verus! {

/// One node as a walk of a source tree reports it: its path, its kind, and
/// how many levels below the root of the walk it lies.
#[derive(Clone, Debug, PartialEq, Eq)]
pub struct WalkEntry {
    pub path: String,
    pub file_type: FileKind,
    pub depth: usize,
}

/// The mathematical value of a `WalkEntry`.
pub struct WalkEntryView {
    pub path: Seq<char>,
    pub file_type: FileKind,
    pub depth: nat,
}

impl View for WalkEntry {
    type V = WalkEntryView;

    open spec fn view(&self) -> WalkEntryView {
        WalkEntryView { path: self.path@, file_type: self.file_type, depth: self.depth as nat }
    }
}

/// The nodes of one source tree, parents before children, each directory
/// followed by what lies in it.
#[derive(Clone, Debug, PartialEq, Eq)]
pub struct DirWalk {
    pub root: String,
    pub entries: Vec<WalkEntry>,
}

/// The mathematical value of a `DirWalk`.
pub struct DirWalkView {
    pub root: Seq<char>,
    pub entries: Seq<WalkEntryView>,
}

impl View for DirWalk {
    type V = DirWalkView;

    open spec fn view(&self) -> DirWalkView {
        DirWalkView { root: self.root@, entries: self.entries@.map_values(|e: WalkEntry| e@) }
    }
}

/// The views of the walks of `v`.
pub open spec fn walk_views(v: Seq<DirWalk>) -> Seq<DirWalkView> {
    v.map_values(|w: DirWalk| w@)
}

/// The entry of the mapping that stands for a walked node whose depth is changed by `depth_adjust`.
pub open spec fn adjusted(e: WalkEntryView, depth_adjust: int) -> FileEntryView {
    FileEntryView { path: e.path, file_type: e.file_type, depth: (e.depth + depth_adjust) as nat }
}

/// Makes the entry of the mapping that stands for a walked node.
pub fn to_file_entry(entry: &WalkEntry, depth_adjust: isize) -> (res: FileEntry)
    requires
        0 <= entry.depth + depth_adjust <= usize::MAX,
    ensures
        res@ == adjusted(entry@, depth_adjust as int),
{
    let depth: usize = if depth_adjust >= 0 {
        entry.depth + (depth_adjust as usize)
    } else {
        let below: usize = (-(depth_adjust + 1)) as usize;
        entry.depth - below - 1
    };
    FileEntry { path: entry.path.clone(), file_type: entry.file_type, depth }
}

/// What the selection does with a node.
#[derive(Clone, Copy, Debug, PartialEq, Eq, Structural)]
pub enum Visit {
    /// The node enters the mapping.
    Take,
    /// The node is passed over.
    Skip,
    /// The node is passed over with everything below it.
    Prune,
}

/// A hidden node is passed over; a hidden directory below the root of the
/// walk takes what lies in it along.
pub open spec fn visit_of(e: WalkEntryView) -> Visit {
    if hidden_name(file_name(e.path)) {
        if e.file_type == FileKind::Dir && e.depth > 0 {
            Visit::Prune
        } else {
            Visit::Skip
        }
    } else {
        Visit::Take
    }
}

/// Decides what the selection does with a node.
pub fn visit(entry: &WalkEntry) -> (res: Visit)
    ensures
        res == visit_of(entry@),
{
    let name = file_name_of(entry.path.as_str());
    if is_hidden(name.as_str()) {
        if entry.file_type == FileKind::Dir && entry.depth > 0 {
            Visit::Prune
        } else {
            Visit::Skip
        }
    } else {
        Visit::Take
    }
}

/// The folder of an overlay inside a package directory.
pub open spec fn overlay_root(dir: Seq<char>, folder: Seq<char>) -> Seq<char> {
    dir + "/"@ + folder
}

/// The first of the folders under which the path lies, inside the package directory.
pub open spec fn overlay_of(path: Seq<char>, dir: Seq<char>, folders: Seq<Seq<char>>) -> Option<Seq<char>>
    decreases folders.len(),
{
    if folders.len() == 0 {
        None
    } else if rooted_under(path, overlay_root(dir, folders[0])) {
        Some(folders[0])
    } else {
        overlay_of(path, dir, folders.skip(1))
    }
}

/// The depth of a node that is lifted out of an overlay folder.
pub open spec fn lifted(depth: nat) -> nat {
    if depth > 0 {
        (depth - 1) as nat
    } else {
        0
    }
}

/// Where a selected node goes: a node in an active overlay folder is
/// rewritten from that folder onto the destination and lifted by one level;
/// any other node is rewritten from the package directory.
pub open spec fn placed(e: WalkEntryView, dir: Seq<char>, dest: Seq<char>, folders: Seq<Seq<char>>) -> Pair {
    match overlay_of(e.path, dir, folders) {
        Some(folder) => (
            rewritten(e.path, overlay_root(dir, folder), dest, false),
            FileEntryView { path: e.path, file_type: e.file_type, depth: lifted(e.depth) },
        ),
        None => (rewritten(e.path, dir, dest, false), adjusted(e, 0)),
    }
}

/// Finds the active overlay folder in which a node lies, if it lies in one.
pub fn in_special_folder(entry: &WalkEntry, dir: &str, special_folders: &Vec<String>) -> (res: Option<String>)
    ensures
        res is Some <==> overlay_of(entry@.path, dir@, strings(special_folders@)) is Some,
        res matches Some(folder) ==> overlay_of(entry@.path, dir@, strings(special_folders@)) == Some(folder@),
{
    let ghost folders = strings(special_folders@);
    let mut i: usize = 0;
    assert(folders.skip(0) =~= folders);
    while i < special_folders.len()
        invariant
            i <= special_folders.len(),
            folders == strings(special_folders@),
            overlay_of(entry@.path, dir@, folders) == overlay_of(entry@.path, dir@, folders.skip(i as int)),
        decreases special_folders.len() - i,
    {
        let ghost rest = folders.skip(i as int);
        assert(rest[0] == special_folders@[i as int]@);
        assert(rest.skip(1) =~= folders.skip(i + 1));
        let root = dir.to_owned().concat("/").concat(special_folders[i].as_str());
        if lies_under(entry.path.as_str(), root.as_str()) {
            return Some(special_folders[i].clone());
        }
        i = i + 1;
    }
    None
}

/// Places one selected node: the key under which it enters the mapping,
/// and the entry that stands there.
pub fn place_entry(entry: &WalkEntry, dir: &str, destination: &String, special_folders: &Vec<String>) -> (res: (
    String,
    FileEntry,
))
    ensures
        (res.0@, res.1@) == placed(entry@, dir@, destination@, strings(special_folders@)),
{
    match in_special_folder(entry, dir, special_folders) {
        Some(folder) => {
            let root = dir.to_owned().concat("/").concat(folder.as_str());
            let key = change_root_dir(entry.path.as_str(), &root, destination, false);
            let lifted_entry = if entry.depth > 0 {
                to_file_entry(entry, -1)
            } else {
                to_file_entry(entry, 0)
            };
            (key, lifted_entry)
        },
        None => {
            let key = change_root_dir(entry.path.as_str(), &dir.to_owned(), destination, false);
            (key, to_file_entry(entry, 0))
        },
    }
}

/// The depth of the hidden directory whose contents the selection is
/// passing over once it has read `es`, if it is inside one.
pub open spec fn skipping(es: Seq<WalkEntryView>) -> Option<nat>
    decreases es.len(),
{
    if es.len() == 0 {
        None
    } else {
        let before = skipping(es.drop_last());
        let e = es.last();
        if before is Some && e.depth > before->0 {
            before
        } else if visit_of(e) == Visit::Prune {
            Some(e.depth)
        } else {
            None
        }
    }
}

/// Whether the node at place `i` enters the mapping: it is not hidden, and
/// it does not lie in a hidden directory below the root of the walk.
pub open spec fn taken(es: Seq<WalkEntryView>, i: int) -> bool {
    let before = skipping(es.subrange(0, i));
    !(before is Some && es[i].depth > before->0) && visit_of(es[i]) == Visit::Take
}

/// Whether the hidden directory at place `j` holds the node at place `i`:
/// it stands before the node in the walk, below the root, and every node
/// from behind it up to the node lies deeper than it.
pub open spec fn holds(es: Seq<WalkEntryView>, j: int, i: int) -> bool {
    0 <= j < i && visit_of(es[j]) == Visit::Prune && forall|k: int| j < k <= i ==> (#[trigger] es[k]).depth > es[j].depth
}

/// Whether some hidden directory below the root of the walk holds the node at place `i`.
pub open spec fn in_hidden(es: Seq<WalkEntryView>, i: int) -> bool {
    exists|j: int| holds(es, j, i)
}

/// Whether the hidden directory at place `j` is closed before place `n`:
/// a node behind it and before `n` lies no deeper than it.
pub open spec fn closed_before(es: Seq<WalkEntryView>, j: int, n: int) -> bool {
    exists|k: int| j < k < n && (#[trigger] es[k]).depth <= es[j].depth
}

/// What the selection knows after `n` nodes. Where it is passing over the
/// contents of a hidden directory, that directory stands at the place that
/// is handed back: every node behind it lies deeper, and every hidden
/// directory before it is closed by then. Where it is not, every hidden
/// directory so far is closed.
pub proof fn lemma_skipping(es: Seq<WalkEntryView>, n: int) -> (at: int)
    requires
        0 <= n <= es.len(),
    ensures
        skipping(es.subrange(0, n)) is Some ==> {
            &&& 0 <= at < n
            &&& visit_of(es[at]) == Visit::Prune
            &&& skipping(es.subrange(0, n)) == Some(es[at].depth)
            &&& forall|k: int| at < k < n ==> (#[trigger] es[k]).depth > es[at].depth
            &&& forall|j: int| 0 <= j < at && visit_of(#[trigger] es[j]) == Visit::Prune ==> closed_before(es, j, at + 1)
        },
        skipping(es.subrange(0, n)) is None ==> forall|j: int|
            0 <= j < n && visit_of(#[trigger] es[j]) == Visit::Prune ==> closed_before(es, j, n),
    decreases n,
{
    if n == 0 {
        0
    } else {
        let before = es.subrange(0, n - 1);
        let now = es.subrange(0, n);
        assert(now.drop_last() =~= before);
        assert(now.last() == es[n - 1]);
        let was = lemma_skipping(es, n - 1);
        let e = es[n - 1];
        if skipping(before) is Some && e.depth > skipping(before)->0 {
            was
        } else {
            // the directory that was being passed over, if any, ends here
            assert forall|j: int| 0 <= j < n - 1 && visit_of(#[trigger] es[j]) == Visit::Prune implies closed_before(
                es,
                j,
                n,
            ) by {
                if skipping(before) is Some {
                    if j == was {
                        assert(es[n - 1].depth <= es[j].depth);
                    } else if j < was {
                        let k = choose|k: int| j < k < was + 1 && (#[trigger] es[k]).depth <= es[j].depth;
                        assert(j < k < n && es[k].depth <= es[j].depth);
                    } else {
                        assert(es[j].depth > es[was].depth);
                        assert(es[n - 1].depth <= es[j].depth);
                    }
                } else {
                    let k = choose|k: int| j < k < n - 1 && (#[trigger] es[k]).depth <= es[j].depth;
                    assert(j < k < n && es[k].depth <= es[j].depth);
                }
            }
            n - 1
        }
    }
}

/// When a node enters the mapping: where it is not hidden, and no hidden
/// directory below the root of the walk holds it.
pub proof fn lemma_taken(es: Seq<WalkEntryView>, i: int)
    requires
        0 <= i < es.len(),
    ensures
        taken(es, i) <==> visit_of(es[i]) == Visit::Take && !in_hidden(es, i),
{
    let at = lemma_skipping(es, i);
    let state = skipping(es.subrange(0, i));
    if state is Some && es[i].depth > state->0 {
        assert(holds(es, at, i));
    }
    if in_hidden(es, i) {
        let j = choose|j: int| holds(es, j, i);
        if state is None {
            let k = choose|k: int| j < k < i && (#[trigger] es[k]).depth <= es[j].depth;
            assert(es[k].depth > es[j].depth);
        } else if at < j {
            assert(es[j].depth > es[at].depth);
            assert(es[i].depth > es[j].depth);
        } else if at > j {
            let k = choose|k: int| j < k < at + 1 && (#[trigger] es[k]).depth <= es[j].depth;
            assert(es[k].depth > es[j].depth);
        } else {
            assert(es[i].depth > es[j].depth);
        }
    }
}

/// The mapping after the selection has gone through one walk: each node that
/// is taken is entered where it is placed, a later node replacing an earlier
/// one under the same key.
pub open spec fn selected(
    m: Map<Seq<char>, FileEntryView>,
    walk: DirWalkView,
    upto: int,
    folders: Seq<Seq<char>>,
    dest: Seq<char>,
) -> Map<Seq<char>, FileEntryView>
    decreases upto,
{
    if upto <= 0 {
        m
    } else {
        let before = selected(m, walk, upto - 1, folders, dest);
        let e = walk.entries[upto - 1];
        if taken(walk.entries, upto - 1) {
            let pair = placed(e, walk.root, dest, folders);
            before.insert(pair.0, pair.1)
        } else {
            before
        }
    }
}

/// The mapping after the selection has gone through the walks in order.
pub open spec fn selected_all(
    m: Map<Seq<char>, FileEntryView>,
    walks: Seq<DirWalkView>,
    folders: Seq<Seq<char>>,
    dest: Seq<char>,
) -> Map<Seq<char>, FileEntryView>
    decreases walks.len(),
{
    if walks.len() == 0 {
        m
    } else {
        selected(
            selected_all(m, walks.drop_last(), folders, dest),
            walks.last(),
            walks.last().entries.len() as int,
            folders,
            dest,
        )
    }
}

/// The pairs whose source path none of the patterns matches.
pub open spec fn not_excluded(patterns: Seq<Seq<char>>) -> spec_fn(Pair) -> bool {
    |p: Pair| !any_pattern_matches(patterns, p.1.path)
}

/// Whether a name is that of an overlay folder: it begins with `tag-` or with `host-`.
pub open spec fn overlay_name(name: Seq<char>) -> bool {
    begins_with(name, "tag-"@) || begins_with(name, "host-"@)
}

/// Whether a key lies in what is left of an overlay folder: it lies below
/// the destination, and its first segment there is the name of an overlay folder.
pub open spec fn overlay_key(key: Seq<char>, dest: Seq<char>) -> bool {
    rooted_under(key, dest) && segments(key).len() > segments(dest).len() && overlay_name(
        segments(key)[segments(dest).len() as int],
    )
}

/// The pairs whose key does not lie in what is left of an overlay folder.
pub open spec fn not_overlay(dest: Seq<char>) -> spec_fn(Pair) -> bool {
    |p: Pair| !overlay_key(p.0, dest)
}

/// The mapping after the inclusion has gone through one walk: each node is
/// entered, rewritten from the directory that the root of the walk lies in.
pub open spec fn included(
    m: Map<Seq<char>, FileEntryView>,
    walk: DirWalkView,
    upto: int,
    dest: Seq<char>,
) -> Map<Seq<char>, FileEntryView>
    decreases upto,
{
    if upto <= 0 {
        m
    } else {
        let e = walk.entries[upto - 1];
        included(m, walk, upto - 1, dest).insert(rewritten(e.path, parent(walk.root), dest, false), adjusted(e, 0))
    }
}

/// The mapping after the inclusion has gone through the walks in order.
pub open spec fn included_all(
    m: Map<Seq<char>, FileEntryView>,
    walks: Seq<DirWalkView>,
    dest: Seq<char>,
) -> Map<Seq<char>, FileEntryView>
    decreases walks.len(),
{
    if walks.len() == 0 {
        m
    } else {
        included(included_all(m, walks.drop_last(), dest), walks.last(), walks.last().entries.len() as int, dest)
    }
}

/// The key under which an entry is shown at the destination: below the
/// root of its package, a key whose file name is not hidden gets a dot
/// before its first segment under the destination.
pub open spec fn shown_key(key: Seq<char>, depth: nat, dest: Seq<char>) -> Seq<char> {
    if depth > 0 && !hidden_name(file_name(key)) {
        rewritten(key, dest, dest, true)
    } else {
        key
    }
}

/// The mapping that the pairs make when each is entered, in order, under its shown key.
pub open spec fn hidden_pairs(es: Seq<Pair>, dest: Seq<char>) -> Map<Seq<char>, FileEntryView>
    decreases es.len(),
{
    if es.len() == 0 {
        Map::empty()
    } else {
        hidden_pairs(es.drop_last(), dest).insert(shown_key(es.last().0, es.last().1.depth, dest), es.last().1)
    }
}

/// The mapping after selection, exclusion and inclusion.
pub open spec fn widened(
    m: Map<Seq<char>, FileEntryView>,
    walks: Seq<DirWalkView>,
    include_walks: Seq<DirWalkView>,
    folders: Seq<Seq<char>>,
    excludes: Seq<Seq<char>>,
    dest: Seq<char>,
) -> Map<Seq<char>, FileEntryView> {
    included_all(kept(selected_all(m, walks, folders, dest), not_excluded(excludes)), include_walks, dest)
}

/// The mapping after selection, exclusion, inclusion and the removal of
/// what is left of overlay folders.
pub open spec fn cleaned(
    m: Map<Seq<char>, FileEntryView>,
    walks: Seq<DirWalkView>,
    include_walks: Seq<DirWalkView>,
    folders: Seq<Seq<char>>,
    excludes: Seq<Seq<char>>,
    dest: Seq<char>,
) -> Map<Seq<char>, FileEntryView> {
    kept(widened(m, walks, include_walks, folders, excludes, dest), not_overlay(dest))
}

/// The mapping that a whole resolution makes of `m`: selection, exclusion,
/// inclusion, the removal of what is left of overlay folders, and the hiding
/// of names, in this order.
pub open spec fn resolved(
    m: Map<Seq<char>, FileEntryView>,
    walks: Seq<DirWalkView>,
    include_walks: Seq<DirWalkView>,
    folders: Seq<Seq<char>>,
    excludes: Seq<Seq<char>>,
    dest: Seq<char>,
) -> Map<Seq<char>, FileEntryView> {
    hidden_pairs(in_order(cleaned(m, walks, include_walks, folders, excludes, dest)), dest)
}

/// Whether a key lies in what is left of an overlay folder.
pub fn is_overlay_key(key: &str, destination: &str) -> (r: bool)
    ensures
        r == overlay_key(key@, destination@),
{
    let k = to_chars(key);
    let d = to_chars(destination);
    let k_abs = k.len() > 0 && k[0] == '/';
    let d_abs = d.len() > 0 && d[0] == '/';
    let k_segs = split_segments(&k);
    let d_segs = split_segments(&d);
    if k_abs != d_abs || !opens_with(&k_segs, &d_segs) || k_segs.len() <= d_segs.len() {
        return false;
    }
    let first = &k_segs[d_segs.len()];
    assert(first@ == segments(key@)[segments(destination@).len() as int]) by {
        assert(views(k_segs@)[d_segs.len() as int] == first@);
    }
    let tag = to_chars("tag-");
    let host = to_chars("host-");
    starts_with_chars(first, &tag) || starts_with_chars(first, &host)
}

/// The configuration of a run and the mapping that is resolved from it.
#[derive(Debug)]
pub struct FileActions {
    pub settings: Settings,
    pub actions: ActionMap,
}

impl FileActions {
    /// A resolution that has not started: the mapping is empty.
    pub fn new(settings: Settings) -> (res: FileActions)
        ensures
            res.settings == settings,
            res.actions@ == Map::<Seq<char>, FileEntryView>::empty(),
            res.actions.entries() == Seq::<Pair>::empty(),
    {
        FileActions { settings, actions: ActionMap::new() }
    }

    /// The overlay folders that are active in this run.
    pub open spec fn folders(&self) -> Seq<Seq<char>> {
        special_folders(self.settings@.tags, self.settings@.hostname)
    }

    /// Selection: enters the nodes of the walked package directories into
    /// the mapping, each where it is placed. Hidden nodes are passed over,
    /// a hidden directory below the root of a walk with what lies in it.
    pub fn select_files(&mut self, walks: &Vec<DirWalk>)
        ensures
            final(self).settings == old(self).settings,
            final(self).actions@ == selected_all(
                old(self).actions@,
                walk_views(walks@),
                old(self).folders(),
                old(self).settings@.destination,
            ),
    {
        let special = self.settings.special_folder_vec();
        let ghost folders = strings(special@);
        let ghost dest = self.settings@.destination;
        let ghost all = walk_views(walks@);
        let mut w: usize = 0;
        assert(all.subrange(0, 0) =~= Seq::<DirWalkView>::empty());
        while w < walks.len()
            invariant
                w <= walks.len(),
                self.settings == old(self).settings,
                folders == strings(special@),
                folders == old(self).folders(),
                dest == self.settings@.destination,
                all == walk_views(walks@),
                self.actions@ == selected_all(old(self).actions@, all.subrange(0, w as int), folders, dest),
            decreases walks.len() - w,
        {
            let walk = &walks[w];
            let ghost start = self.actions@;
            let ghost wv = walk@;
            assert(wv == all[w as int]);
            let mut i: usize = 0;
            let mut inside: Option<usize> = None;
            assert(wv.entries.subrange(0, 0) =~= Seq::<WalkEntryView>::empty());
            while i < walk.entries.len()
                invariant
                    i <= walk.entries.len(),
                    self.settings == old(self).settings,
                    folders == strings(special@),
                    dest == self.settings@.destination,
                    wv == walk@,
                    inside is Some <==> skipping(wv.entries.subrange(0, i as int)) is Some,
                    inside matches Some(d) ==> skipping(wv.entries.subrange(0, i as int)) == Some(d as nat),
                    self.actions@ == selected(start, wv, i as int, folders, dest),
                decreases walk.entries.len() - i,
            {
                let entry = &walk.entries[i];
                proof {
                    let next = wv.entries.subrange(0, i + 1);
                    assert(next.drop_last() =~= wv.entries.subrange(0, i as int));
                    assert(next.last() == entry@);
                    assert(wv.entries[i as int] == entry@);
                }
                let below = match inside {
                    Some(d) => entry.depth > d,
                    None => false,
                };
                if !below {
                    match visit(entry) {
                        Visit::Prune => {
                            inside = Some(entry.depth);
                        },
                        Visit::Skip => {
                            inside = None;
                        },
                        Visit::Take => {
                            inside = None;
                            let pair = place_entry(entry, walk.root.as_str(), &self.settings.destination, &special);
                            self.actions.insert(pair.0, pair.1);
                        },
                    }
                }
                i = i + 1;
            }
            proof {
                let upto = all.subrange(0, w + 1);
                assert(upto.drop_last() =~= all.subrange(0, w as int));
                assert(upto.last() == wv);
            }
            w = w + 1;
        }
        assert(all.subrange(0, walks.len() as int) =~= all);
    }

    /// Exclusion: removes every entry whose source path one of the exclude
    /// patterns matches. Fails, and leaves the mapping as it is, where the
    /// exclude patterns do not compile. Where there is no exclude pattern,
    /// it does not fail and removes nothing.
    pub fn exclude_files(&mut self) -> (res: Result<(), PatternError>)
        ensures
            final(self).settings == old(self).settings,
            res is Ok <==> patterns_compile(old(self).settings@.excludes),
            res is Ok ==> final(self).actions@ == kept(old(self).actions@, not_excluded(old(self).settings@.excludes)),
            res is Err ==> final(self).actions@ == old(self).actions@,
            old(self).settings@.excludes.len() == 0 ==> res is Ok && final(self).actions@ == old(self).actions@,
    {
        match compile_set(&self.settings.excludes) {
            Ok(set) => {
                self.exclude_with(&set);
                Ok(())
            },
            Err(error) => Err(PatternError { message: error_text(&error) }),
        }
    }

    fn exclude_with(&mut self, set: &regex::RegexSet)
        requires
            set_patterns(*set) == old(self).settings@.excludes,
        ensures
            final(self).settings == old(self).settings,
            final(self).actions@ == kept(old(self).actions@, not_excluded(old(self).settings@.excludes)),
            old(self).settings@.excludes.len() == 0 ==> final(self).actions@ == old(self).actions@,
    {
        let ghost patterns = self.settings@.excludes;
        let ghost es = self.actions.entries();
        let n = self.actions.len();
        let mut flags: Vec<bool> = Vec::new();
        let mut i: usize = 0;
        while i < n
            invariant
                i <= n,
                n == es.len(),
                es == self.actions.entries(),
                set_patterns(*set) == patterns,
                flags@.len() == i,
                forall|j: int| 0 <= j < i ==> flags@[j] == any_pattern_matches(patterns, (#[trigger] es[j]).1.path),
                patterns.len() == 0 ==> forall|j: int| 0 <= j < i ==> !flags@[j],
            decreases n - i,
        {
            let hit = set_is_match(set, self.actions.entry_at(i).path.as_str());
            flags.push(hit);
            i = i + 1;
        }
        proof {
            let keep = not_excluded(patterns);
            assert forall|j: int| 0 <= j < es.len() implies flagged(flags@, j) == !keep(#[trigger] es[j]) by {}
            lemma_unflagged_kept(es, flags@, keep);
            if patterns.len() == 0 {
                lemma_unflagged_all(es, flags@);
            }
        }
        self.actions.remove_flagged(&flags);
    }

    /// Inclusion: enters every node of the walked include paths, whatever
    /// the exclusion said of it.
    pub fn include_files(&mut self, walks: &Vec<DirWalk>)
        ensures
            final(self).settings == old(self).settings,
            final(self).actions@ == included_all(old(self).actions@, walk_views(walks@), old(self).settings@.destination),
    {
        let ghost dest = self.settings@.destination;
        let ghost all = walk_views(walks@);
        let mut w: usize = 0;
        assert(all.subrange(0, 0) =~= Seq::<DirWalkView>::empty());
        while w < walks.len()
            invariant
                w <= walks.len(),
                self.settings == old(self).settings,
                dest == self.settings@.destination,
                all == walk_views(walks@),
                self.actions@ == included_all(old(self).actions@, all.subrange(0, w as int), dest),
            decreases walks.len() - w,
        {
            let walk = &walks[w];
            let ghost start = self.actions@;
            let ghost wv = walk@;
            assert(wv == all[w as int]);
            let above = parent_of(walk.root.as_str());
            let mut i: usize = 0;
            while i < walk.entries.len()
                invariant
                    i <= walk.entries.len(),
                    self.settings == old(self).settings,
                    dest == self.settings@.destination,
                    wv == walk@,
                    above@ == parent(wv.root),
                    self.actions@ == included(start, wv, i as int, dest),
                decreases walk.entries.len() - i,
            {
                let entry = &walk.entries[i];
                assert(wv.entries[i as int] == entry@);
                let key = change_root_dir(entry.path.as_str(), &above, &self.settings.destination, false);
                self.actions.insert(key, to_file_entry(entry, 0));
                i = i + 1;
            }
            proof {
                let upto = all.subrange(0, w + 1);
                assert(upto.drop_last() =~= all.subrange(0, w as int));
                assert(upto.last() == wv);
            }
            w = w + 1;
        }
        assert(all.subrange(0, walks.len() as int) =~= all);
    }

    /// Removes every entry whose key lies in what is left of an overlay
    /// folder: an overlay that is not active, or the folder of one that
    /// was lifted.
    pub fn cleanup_special_folders(&mut self)
        ensures
            final(self).settings == old(self).settings,
            final(self).actions@ == kept(old(self).actions@, not_overlay(old(self).settings@.destination)),
    {
        let ghost dest = self.settings@.destination;
        let ghost es = self.actions.entries();
        let n = self.actions.len();
        let mut flags: Vec<bool> = Vec::new();
        let mut i: usize = 0;
        while i < n
            invariant
                i <= n,
                n == es.len(),
                es == self.actions.entries(),
                *self == *old(self),
                dest == self.settings@.destination,
                flags@.len() == i,
                forall|j: int| 0 <= j < i ==> flags@[j] == overlay_key((#[trigger] es[j]).0, dest),
            decreases n - i,
        {
            let hit = is_overlay_key(self.actions.key_at(i).as_str(), self.settings.destination.as_str());
            flags.push(hit);
            i = i + 1;
        }
        proof {
            let keep = not_overlay(dest);
            assert forall|j: int| 0 <= j < es.len() implies flagged(flags@, j) == !keep(#[trigger] es[j]) by {}
            lemma_unflagged_kept(es, flags@, keep);
        }
        self.actions.remove_flagged(&flags);
    }

    /// Hides names: enters every entry anew under its shown key, in the
    /// order of the keys.
    pub fn hide_files(&mut self)
        ensures
            final(self).settings == old(self).settings,
            final(self).actions@ == hidden_pairs(in_order(old(self).actions@), old(self).settings@.destination),
    {
        let ghost dest = self.settings@.destination;
        let ghost es = self.actions.entries();
        let n = self.actions.len();
        let mut fresh = ActionMap::new();
        let mut i: usize = 0;
        assert(es.subrange(0, 0) =~= Seq::<Pair>::empty());
        while i < n
            invariant
                i <= n,
                n == es.len(),
                es == self.actions.entries(),
                *self == *old(self),
                dest == self.settings@.destination,
                fresh@ == hidden_pairs(es.subrange(0, i as int), dest),
            decreases n - i,
        {
            let key = self.actions.key_at(i);
            let entry = self.actions.entry_at(i);
            proof {
                let next = es.subrange(0, i + 1);
                assert(next.drop_last() =~= es.subrange(0, i as int));
                assert(next.last() == es[i as int]);
            }
            let name = file_name_of(key.as_str());
            if entry.depth > 0 && !is_hidden(name.as_str()) {
                let shown = change_root_dir(key.as_str(), &self.settings.destination, &self.settings.destination, true);
                fresh.insert(shown, entry.duplicate());
            } else {
                fresh.insert(key.clone(), entry.duplicate());
            }
            i = i + 1;
        }
        assert(es.subrange(0, n as int) =~= es);
        self.actions = fresh;
    }

    /// Resolves the mapping: selection, exclusion, inclusion, the removal of
    /// what is left of overlay folders, and the hiding of names. The exclude
    /// patterns are compiled before the mapping is touched; where they do
    /// not compile, the mapping stays as it is.
    pub fn build(&mut self, walks: &Vec<DirWalk>, include_walks: &Vec<DirWalk>) -> (res: Result<(), PatternError>)
        ensures
            final(self).settings == old(self).settings,
            res is Ok <==> patterns_compile(old(self).settings@.excludes),
            old(self).settings@.excludes.len() == 0 ==> res is Ok,
            res is Ok ==> final(self).actions@ == resolved(
                old(self).actions@,
                walk_views(walks@),
                walk_views(include_walks@),
                old(self).folders(),
                old(self).settings@.excludes,
                old(self).settings@.destination,
            ),
            res is Err ==> final(self).actions@ == old(self).actions@,
    {
        let exclude_set = match compile_set(&self.settings.excludes) {
            Ok(set) => set,
            Err(error) => {
                return Err(PatternError { message: error_text(&error) });
            },
        };
        self.select_files(walks);
        self.exclude_with(&exclude_set);
        self.include_files(include_walks);
        self.cleanup_special_folders();
        self.hide_files();
        Ok(())
    }
}

/// Whether every key of the mapping lies at or below the destination.
pub open spec fn all_under(m: Map<Seq<char>, FileEntryView>, dest: Seq<char>) -> bool {
    forall|k: Seq<char>| m.contains_key(k) ==> rooted_under(k, dest)
}

/// A walk is sound where each of its nodes lies at or below its root.
pub open spec fn sound(walk: DirWalkView) -> bool {
    forall|i: int| 0 <= i < walk.entries.len() ==> rooted_under(#[trigger] walk.entries[i].path, walk.root)
}

/// The overlay folder that is found for a path is one under which the path lies.
pub proof fn lemma_overlay_roots(path: Seq<char>, dir: Seq<char>, folders: Seq<Seq<char>>)
    ensures
        overlay_of(path, dir, folders) matches Some(folder) ==> rooted_under(path, overlay_root(dir, folder)),
    decreases folders.len(),
{
    if folders.len() > 0 {
        lemma_overlay_roots(path, dir, folders.skip(1));
    }
}

/// A node of a sound walk is placed below the destination.
pub proof fn lemma_placed_under(e: WalkEntryView, dir: Seq<char>, dest: Seq<char>, folders: Seq<Seq<char>>)
    requires
        rooted_under(e.path, dir),
    ensures
        rooted_under(placed(e, dir, dest, folders).0, dest),
{
    lemma_overlay_roots(e.path, dir, folders);
    match overlay_of(e.path, dir, folders) {
        Some(folder) => {
            lemma_rewritten_rooted(e.path, overlay_root(dir, folder), dest, false);
        },
        None => {
            lemma_rewritten_rooted(e.path, dir, dest, false);
        },
    }
}

/// The selection keeps every key below the destination, where the walk is sound.
pub proof fn lemma_selected_under(
    m: Map<Seq<char>, FileEntryView>,
    walk: DirWalkView,
    upto: int,
    folders: Seq<Seq<char>>,
    dest: Seq<char>,
)
    requires
        all_under(m, dest),
        sound(walk),
        0 <= upto <= walk.entries.len(),
    ensures
        all_under(selected(m, walk, upto, folders, dest), dest),
    decreases upto,
{
    if upto > 0 {
        lemma_selected_under(m, walk, upto - 1, folders, dest);
        let e = walk.entries[upto - 1];
        lemma_placed_under(e, walk.root, dest, folders);
    }
}

/// The selection keeps every key below the destination, where the walks are sound.
pub proof fn lemma_selected_all_under(
    m: Map<Seq<char>, FileEntryView>,
    walks: Seq<DirWalkView>,
    folders: Seq<Seq<char>>,
    dest: Seq<char>,
)
    requires
        all_under(m, dest),
        forall|w: int| 0 <= w < walks.len() ==> sound(#[trigger] walks[w]),
    ensures
        all_under(selected_all(m, walks, folders, dest), dest),
    decreases walks.len(),
{
    if walks.len() > 0 {
        let front = walks.drop_last();
        assert forall|w: int| 0 <= w < front.len() implies sound(#[trigger] front[w]) by {
            assert(front[w] == walks[w]);
        }
        lemma_selected_all_under(m, front, folders, dest);
        assert(sound(walks[walks.len() - 1]));
        lemma_selected_under(
            selected_all(m, front, folders, dest),
            walks.last(),
            walks.last().entries.len() as int,
            folders,
            dest,
        );
    }
}

/// The key under which the inclusion enters the node at place `i` of a walk.
pub open spec fn include_key(walk: DirWalkView, i: int, dest: Seq<char>) -> Seq<char> {
    rewritten(walk.entries[i].path, parent(walk.root), dest, false)
}

/// The inclusion keeps what the mapping held, enters every node of the
/// walk, and keeps every key below the destination where the walk is sound.
pub proof fn lemma_included(m: Map<Seq<char>, FileEntryView>, walk: DirWalkView, upto: int, dest: Seq<char>)
    requires
        0 <= upto <= walk.entries.len(),
    ensures
        forall|k: Seq<char>| m.contains_key(k) ==> included(m, walk, upto, dest).contains_key(k),
        forall|i: int| 0 <= i < upto ==> included(m, walk, upto, dest).contains_key(#[trigger] include_key(walk, i, dest)),
        all_under(m, dest) && sound(walk) ==> all_under(included(m, walk, upto, dest), dest),
    decreases upto,
{
    if upto > 0 {
        lemma_included(m, walk, upto - 1, dest);
        let e = walk.entries[upto - 1];
        assert(include_key(walk, upto - 1, dest) == rewritten(e.path, parent(walk.root), dest, false));
        if sound(walk) {
            lemma_parent_roots(e.path, walk.root);
            lemma_rewritten_rooted(e.path, parent(walk.root), dest, false);
        }
    }
}

/// Inclusion is stronger than exclusion: whatever the mapping held before,
/// every node of every include walk has its key in the mapping afterwards.
/// What the mapping held stays, and every key stays below the destination
/// where the walks are sound.
pub proof fn lemma_included_all(m: Map<Seq<char>, FileEntryView>, walks: Seq<DirWalkView>, dest: Seq<char>)
    ensures
        forall|k: Seq<char>| m.contains_key(k) ==> included_all(m, walks, dest).contains_key(k),
        forall|w: int, i: int|
            0 <= w < walks.len() && 0 <= i < walks[w].entries.len() ==> included_all(m, walks, dest).contains_key(
                #[trigger] include_key(walks[w], i, dest),
            ),
        all_under(m, dest) && (forall|w: int| 0 <= w < walks.len() ==> sound(#[trigger] walks[w])) ==> all_under(
            included_all(m, walks, dest),
            dest,
        ),
    decreases walks.len(),
{
    if walks.len() > 0 {
        let front = walks.drop_last();
        let last = walks.last();
        let before = included_all(m, front, dest);
        lemma_included_all(m, front, dest);
        lemma_included(before, last, last.entries.len() as int, dest);
        assert forall|w: int, i: int| 0 <= w < walks.len() && 0 <= i < walks[w].entries.len() implies included_all(
            m,
            walks,
            dest,
        ).contains_key(#[trigger] include_key(walks[w], i, dest)) by {
            if w < walks.len() - 1 {
                assert(front[w] == walks[w]);
                assert(before.contains_key(include_key(front[w], i, dest)));
            }
        }
        if all_under(m, dest) && (forall|w: int| 0 <= w < walks.len() ==> sound(#[trigger] walks[w])) {
            assert forall|w: int| 0 <= w < front.len() implies sound(#[trigger] front[w]) by {
                assert(front[w] == walks[w]);
            }
            assert(sound(walks[walks.len() - 1]));
        }
    }
}

/// After the removal of what is left of overlay folders, no key lies in
/// an overlay folder under the destination.
pub proof fn lemma_cleanup_leaves_none(m: Map<Seq<char>, FileEntryView>, dest: Seq<char>)
    ensures
        forall|k: Seq<char>| #[trigger]
            kept(m, not_overlay(dest)).contains_key(k) ==> m.contains_key(k) && !overlay_key(k, dest),
        all_under(m, dest) ==> all_under(kept(m, not_overlay(dest)), dest),
{
}

/// Hiding makes no key lie in an overlay folder that did not lie in one.
pub proof fn lemma_shown_key_no_overlay(key: Seq<char>, depth: nat, dest: Seq<char>)
    requires
        !overlay_key(key, dest),
    ensures
        !overlay_key(shown_key(key, depth, dest), dest),
{
    if shown_key(key, depth, dest) != key && rooted_under(key, dest) {
        let tail = segments(key).skip(segments(dest).len() as int);
        lemma_hide_in_place(key, dest);
        let shown = segments(shown_key(key, depth, dest));
        if tail.len() > 0 {
            let first = shown[segments(dest).len() as int];
            assert(hidden_name(first));
            reveal_strlit("tag-");
            reveal_strlit("host-");
            if begins_with(first, "tag-"@) {
                assert(first.subrange(0, 4)[0] == 't');
            }
            if begins_with(first, "host-"@) {
                assert(first.subrange(0, 5)[0] == 'h');
            }
        } else {
            assert(segments(dest) + hidden_tail(tail) =~= segments(dest));
        }
    }
}

/// After the exclusion no entry is left whose source path one of the
/// exclude patterns matches.
pub proof fn lemma_exclusion_leaves_none(m: Map<Seq<char>, FileEntryView>, excludes: Seq<Seq<char>>)
    ensures
        forall|k: Seq<char>| #[trigger]
            kept(m, not_excluded(excludes)).contains_key(k) ==> m.contains_key(k) && !any_pattern_matches(
                excludes,
                m[k].path,
            ),
        forall|dest: Seq<char>| all_under(m, dest) ==> all_under(kept(m, not_excluded(excludes)), dest),
{
}

/// How hiding changes a key. The entry of a package root keeps its key, and
/// so does an entry whose file name is hidden. Any other entry below the
/// destination has, afterwards, a hidden first segment below the
/// destination, and all its other segments as before; where it lies
/// directly in the destination, that segment is its file name.
pub proof fn lemma_shown_key(key: Seq<char>, depth: nat, dest: Seq<char>)
    ensures
        depth == 0 || hidden_name(file_name(key)) ==> shown_key(key, depth, dest) == key,
        rooted_under(key, dest) ==> rooted_under(shown_key(key, depth, dest), dest),
        depth > 0 && !hidden_name(file_name(key)) && rooted_under(key, dest) ==> segments(shown_key(key, depth, dest))
            == segments(dest) + hidden_tail(segments(key).skip(segments(dest).len() as int)),
        depth > 0 && rooted_under(key, dest) && segments(key).len() == segments(dest).len() + 1 ==> hidden_name(
            file_name(shown_key(key, depth, dest)),
        ),
{
    if rooted_under(key, dest) {
        lemma_rewritten_rooted(key, dest, dest, true);
        lemma_hide_in_place(key, dest);
    }
}

/// The keys after hiding are the shown keys of the pairs before it, and
/// they lie below the destination where the keys before did.
pub proof fn lemma_hidden_pairs(es: Seq<Pair>, dest: Seq<char>)
    ensures
        forall|i: int| 0 <= i < es.len() ==> hidden_pairs(es, dest).contains_key(
            #[trigger] shown_key(es[i].0, es[i].1.depth, dest),
        ),
        forall|k: Seq<char>| #[trigger]
            hidden_pairs(es, dest).contains_key(k) ==> exists|i: int|
                0 <= i < es.len() && k == shown_key(es[i].0, es[i].1.depth, dest),
        (forall|i: int| 0 <= i < es.len() ==> rooted_under((#[trigger] es[i]).0, dest)) ==> all_under(
            hidden_pairs(es, dest),
            dest,
        ),
    decreases es.len(),
{
    if es.len() > 0 {
        let front = es.drop_last();
        lemma_hidden_pairs(front, dest);
        let last_key = shown_key(es.last().0, es.last().1.depth, dest);
        assert forall|i: int| 0 <= i < es.len() implies hidden_pairs(es, dest).contains_key(
            #[trigger] shown_key(es[i].0, es[i].1.depth, dest),
        ) by {
            if i < es.len() - 1 {
                assert(front[i] == es[i]);
                assert(hidden_pairs(front, dest).contains_key(shown_key(front[i].0, front[i].1.depth, dest)));
            }
        }
        assert forall|k: Seq<char>| #[trigger] hidden_pairs(es, dest).contains_key(k) implies exists|i: int|
            0 <= i < es.len() && k == shown_key(es[i].0, es[i].1.depth, dest) by {
            if k == last_key {
                assert(k == shown_key(es[es.len() - 1].0, es[es.len() - 1].1.depth, dest));
            } else {
                assert(hidden_pairs(front, dest).contains_key(k));
                let i = choose|i: int| 0 <= i < front.len() && k == shown_key(front[i].0, front[i].1.depth, dest);
                assert(front[i] == es[i]);
            }
        }
        if forall|i: int| 0 <= i < es.len() ==> rooted_under((#[trigger] es[i]).0, dest) {
            assert forall|i: int| 0 <= i < front.len() implies rooted_under((#[trigger] front[i]).0, dest) by {
                assert(front[i] == es[i]);
            }
            assert(rooted_under(es[es.len() - 1].0, dest));
            lemma_shown_key(es.last().0, es.last().1.depth, dest);
        }
    }
}


/// The selection makes a listed mapping of a listed mapping.
pub proof fn lemma_selected_listed(
    m: Map<Seq<char>, FileEntryView>,
    walk: DirWalkView,
    upto: int,
    folders: Seq<Seq<char>>,
    dest: Seq<char>,
)
    requires
        listed(m),
    ensures
        listed(selected(m, walk, upto, folders, dest)),
    decreases upto,
{
    if upto > 0 {
        lemma_selected_listed(m, walk, upto - 1, folders, dest);
        let e = walk.entries[upto - 1];
        let pair = placed(e, walk.root, dest, folders);
        lemma_listed_insert(selected(m, walk, upto - 1, folders, dest), pair.0, pair.1);
    }
}

/// The selection of all walks makes a listed mapping of a listed mapping.
pub proof fn lemma_selected_all_listed(
    m: Map<Seq<char>, FileEntryView>,
    walks: Seq<DirWalkView>,
    folders: Seq<Seq<char>>,
    dest: Seq<char>,
)
    requires
        listed(m),
    ensures
        listed(selected_all(m, walks, folders, dest)),
    decreases walks.len(),
{
    if walks.len() > 0 {
        lemma_selected_all_listed(m, walks.drop_last(), folders, dest);
        lemma_selected_listed(
            selected_all(m, walks.drop_last(), folders, dest),
            walks.last(),
            walks.last().entries.len() as int,
            folders,
            dest,
        );
    }
}

/// The inclusion makes a listed mapping of a listed mapping.
pub proof fn lemma_included_listed(m: Map<Seq<char>, FileEntryView>, walk: DirWalkView, upto: int, dest: Seq<char>)
    requires
        listed(m),
    ensures
        listed(included(m, walk, upto, dest)),
    decreases upto,
{
    if upto > 0 {
        lemma_included_listed(m, walk, upto - 1, dest);
        let e = walk.entries[upto - 1];
        lemma_listed_insert(
            included(m, walk, upto - 1, dest),
            rewritten(e.path, parent(walk.root), dest, false),
            adjusted(e, 0),
        );
    }
}

/// The inclusion of all walks makes a listed mapping of a listed mapping.
pub proof fn lemma_included_all_listed(m: Map<Seq<char>, FileEntryView>, walks: Seq<DirWalkView>, dest: Seq<char>)
    requires
        listed(m),
    ensures
        listed(included_all(m, walks, dest)),
    decreases walks.len(),
{
    if walks.len() > 0 {
        lemma_included_all_listed(m, walks.drop_last(), dest);
        lemma_included_listed(included_all(m, walks.drop_last(), dest), walks.last(), walks.last().entries.len() as int, dest);
    }
}

/// What holds of a resolved mapping.
///
/// Its keys are the shown keys of the entries that the removal of overlay
/// folders left, and each such entry is in it. So a key of it is the key of
/// a package root, or one whose file name was hidden already, or one with a
/// hidden first segment below the destination. None of its keys lies in an
/// overlay folder under the destination.
///
/// Inclusion is stronger than exclusion: whatever the exclude patterns are,
/// every node of an include walk is in the mapping under its shown key,
/// unless its key lies in an overlay folder under the destination.
///
/// Every key lies at or below the destination, where the keys of the
/// mapping at the start did and the walks are sound.
pub proof fn lemma_resolved(
    m: Map<Seq<char>, FileEntryView>,
    walks: Seq<DirWalkView>,
    include_walks: Seq<DirWalkView>,
    folders: Seq<Seq<char>>,
    excludes: Seq<Seq<char>>,
    dest: Seq<char>,
)
    requires
        listed(m),
    ensures
        forall|k: Seq<char>| #[trigger]
            resolved(m, walks, include_walks, folders, excludes, dest).contains_key(k) ==> !overlay_key(k, dest),
        forall|k: Seq<char>| #[trigger]
            resolved(m, walks, include_walks, folders, excludes, dest).contains_key(k) ==> exists|from: Seq<char>|
                {
                    &&& cleaned(m, walks, include_walks, folders, excludes, dest).contains_key(from)
                    &&& !overlay_key(from, dest)
                    &&& k == shown_key(from, cleaned(m, walks, include_walks, folders, excludes, dest)[from].depth, dest)
                },
        forall|from: Seq<char>| #[trigger]
            cleaned(m, walks, include_walks, folders, excludes, dest).contains_key(from) ==> resolved(
                m,
                walks,
                include_walks,
                folders,
                excludes,
                dest,
            ).contains_key(shown_key(from, cleaned(m, walks, include_walks, folders, excludes, dest)[from].depth, dest)),
        forall|w: int, i: int|
            0 <= w < include_walks.len() && 0 <= i < include_walks[w].entries.len() ==> {
                let key = #[trigger] include_key(include_walks[w], i, dest);
                let held = widened(m, walks, include_walks, folders, excludes, dest);
                held.contains_key(key) && (overlay_key(key, dest) || resolved(
                    m,
                    walks,
                    include_walks,
                    folders,
                    excludes,
                    dest,
                ).contains_key(shown_key(key, held[key].depth, dest)))
            },
        all_under(m, dest) && (forall|w: int| 0 <= w < walks.len() ==> sound(#[trigger] walks[w])) && (forall|w: int|
            0 <= w < include_walks.len() ==> sound(#[trigger] include_walks[w])) ==> all_under(
            resolved(m, walks, include_walks, folders, excludes, dest),
            dest,
        ),
{
    let chosen = selected_all(m, walks, folders, dest);
    let filtered = kept(chosen, not_excluded(excludes));
    let held = widened(m, walks, include_walks, folders, excludes, dest);
    let left = cleaned(m, walks, include_walks, folders, excludes, dest);
    let full = resolved(m, walks, include_walks, folders, excludes, dest);
    lemma_selected_all_listed(m, walks, folders, dest);
    lemma_listed_kept(chosen, not_excluded(excludes));
    lemma_included_all_listed(filtered, include_walks, dest);
    lemma_listed_kept(held, not_overlay(dest));
    lemma_listed(left);
    let es = in_order(left);
    lemma_hidden_pairs(es, dest);
    assert forall|k: Seq<char>| #[trigger] full.contains_key(k) implies exists|from: Seq<char>|
        {
            &&& left.contains_key(from)
            &&& !overlay_key(from, dest)
            &&& k == shown_key(from, left[from].depth, dest)
        } by {
        let i = choose|i: int| 0 <= i < es.len() && k == shown_key(es[i].0, es[i].1.depth, dest);
        assert(left.contains_key(es[i].0) && left[es[i].0] == es[i].1);
        assert(k == shown_key(es[i].0, left[es[i].0].depth, dest));
    }
    assert forall|k: Seq<char>| #[trigger] full.contains_key(k) implies !overlay_key(k, dest) by {
        let i = choose|i: int| 0 <= i < es.len() && k == shown_key(es[i].0, es[i].1.depth, dest);
        assert(left.contains_key(es[i].0));
        lemma_shown_key_no_overlay(es[i].0, es[i].1.depth, dest);
    }
    assert forall|from: Seq<char>| #[trigger] left.contains_key(from) implies full.contains_key(
        shown_key(from, left[from].depth, dest),
    ) by {
        assert(has_key(es, from));
        let i = choose|i: int| 0 <= i < es.len() && (#[trigger] es[i]).0 == from;
        assert(left[es[i].0] == es[i].1);
        assert(full.contains_key(shown_key(es[i].0, es[i].1.depth, dest)));
    }
    lemma_included_all(filtered, include_walks, dest);
    assert forall|w: int, i: int| 0 <= w < include_walks.len() && 0 <= i < include_walks[w].entries.len() implies {
        let key = #[trigger] include_key(include_walks[w], i, dest);
        held.contains_key(key) && (overlay_key(key, dest) || full.contains_key(
            shown_key(key, held[key].depth, dest),
        ))
    } by {
        let key = include_key(include_walks[w], i, dest);
        assert(held.contains_key(key));
        if !overlay_key(key, dest) {
            assert(left.contains_key(key));
            assert(left[key] == held[key]);
        }
    }
    if all_under(m, dest) && (forall|w: int| 0 <= w < walks.len() ==> sound(#[trigger] walks[w])) && (forall|w: int|
        0 <= w < include_walks.len() ==> sound(#[trigger] include_walks[w])) {
        lemma_selected_all_under(m, walks, folders, dest);
        assert(all_under(filtered, dest));
        assert(all_under(held, dest));
        assert(all_under(left, dest));
        assert forall|i: int| 0 <= i < es.len() implies rooted_under((#[trigger] es[i]).0, dest) by {
            assert(left.contains_key(es[i].0));
        }
    }
}


} // verus!
