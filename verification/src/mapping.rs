//! The resolved mapping: destination keys and the source entries behind them.

use vstd::prelude::*;
use crate::order::{lemma_precedes_irreflexive, lemma_precedes_total, lemma_precedes_transitive, place, precedes, Place};
use crate::text::{same_chars, to_chars};

verus! {

/// What kind of node a source entry is.
#[derive(Clone, Copy, Debug, PartialEq, Eq, Structural)]
pub enum FileKind {
    File,
    Dir,
    Symlink,
    Other,
}

/// One node met while a source tree was walked.
#[derive(Clone, Debug, PartialEq, Eq)]
pub struct FileEntry {
    pub path: String,
    pub file_type: FileKind,
    pub depth: usize,
}

/// The mathematical value of a `FileEntry`.
pub struct FileEntryView {
    pub path: Seq<char>,
    pub file_type: FileKind,
    pub depth: nat,
}

impl View for FileEntry {
    type V = FileEntryView;

    open spec fn view(&self) -> FileEntryView {
        FileEntryView { path: self.path@, file_type: self.file_type, depth: self.depth as nat }
    }
}

impl FileEntry {
    /// A copy of this entry.
    pub fn duplicate(&self) -> (res: FileEntry)
        ensures
            res@ == self@,
    {
        FileEntry { path: self.path.clone(), file_type: self.file_type, depth: self.depth }
    }
}

/// A destination key with the entry it stands for.
pub type Pair = (Seq<char>, FileEntryView);

/// Whether the keys rise strictly from each pair to the next.
pub open spec fn rising(es: Seq<Pair>) -> bool {
    forall|i: int, j: int| 0 <= i < j < es.len() ==> precedes(#[trigger] es[i].0, #[trigger] es[j].0)
}

/// The association that the pairs make when they are entered in order,
/// a later pair replacing an earlier one with the same key.
pub open spec fn as_map(es: Seq<Pair>) -> Map<Seq<char>, FileEntryView>
    decreases es.len(),
{
    if es.len() == 0 {
        Map::empty()
    } else {
        as_map(es.drop_last()).insert(es.last().0, es.last().1)
    }
}

/// Whether some pair has the key `k`.
pub open spec fn has_key(es: Seq<Pair>, k: Seq<char>) -> bool {
    exists|i: int| 0 <= i < es.len() && (#[trigger] es[i]).0 == k
}

/// The keys of the association are the keys of the pairs.
pub proof fn lemma_as_map_keys(es: Seq<Pair>, k: Seq<char>)
    ensures
        as_map(es).contains_key(k) <==> has_key(es, k),
    decreases es.len(),
{
    if es.len() > 0 {
        let front = es.drop_last();
        lemma_as_map_keys(front, k);
        if has_key(front, k) {
            let i = choose|i: int| 0 <= i < front.len() && (#[trigger] front[i]).0 == k;
            assert(es[i].0 == k);
        }
        if es.last().0 == k {
            assert(es[es.len() - 1].0 == k);
        }
        if has_key(es, k) {
            let i = choose|i: int| 0 <= i < es.len() && (#[trigger] es[i]).0 == k;
            if i < es.len() - 1 {
                assert(front[i].0 == k);
            }
        }
    }
}

/// Where keys rise, each pair is what the association holds under its key.
pub proof fn lemma_as_map_value(es: Seq<Pair>, i: int)
    requires
        rising(es),
        0 <= i < es.len(),
    ensures
        as_map(es).contains_key(es[i].0),
        as_map(es)[es[i].0] == es[i].1,
    decreases es.len(),
{
    let front = es.drop_last();
    if i < es.len() - 1 {
        assert(rising(front)) by {
            assert forall|a: int, b: int| 0 <= a < b < front.len() implies precedes(#[trigger] front[a].0, #[trigger] front[b].0) by {
                assert(front[a] == es[a] && front[b] == es[b]);
            }
        }
        lemma_as_map_value(front, i);
        assert(front[i] == es[i]);
        assert(precedes(es[i].0, es[es.len() - 1].0));
        lemma_precedes_irreflexive(es[i].0);
    }
}

/// A pair with a new key, entered at any place, adds that key to the association.
pub proof fn lemma_as_map_insert_at(es: Seq<Pair>, p: int, x: Pair)
    requires
        0 <= p <= es.len(),
        !has_key(es, x.0),
    ensures
        as_map(es.insert(p, x)) == as_map(es).insert(x.0, x.1),
    decreases es.len(),
{
    let after = es.insert(p, x);
    if p == es.len() {
        assert(after.drop_last() =~= es);
    } else {
        let front = es.drop_last();
        assert(after.drop_last() =~= front.insert(p, x));
        assert(after.last() == es.last());
        assert(!has_key(front, x.0)) by {
            if has_key(front, x.0) {
                let i = choose|i: int| 0 <= i < front.len() && (#[trigger] front[i]).0 == x.0;
                assert(es[i].0 == x.0);
            }
        }
        lemma_as_map_insert_at(front, p, x);
        assert(es[es.len() - 1].0 != x.0);
        assert(as_map(front).insert(x.0, x.1).insert(es.last().0, es.last().1) =~= as_map(front).insert(
            es.last().0,
            es.last().1,
        ).insert(x.0, x.1));
    }
}

/// Where keys rise, a new value at one place replaces the value under that key.
pub proof fn lemma_as_map_update(es: Seq<Pair>, p: int, v: FileEntryView)
    requires
        rising(es),
        0 <= p < es.len(),
    ensures
        as_map(es.update(p, (es[p].0, v))) == as_map(es).insert(es[p].0, v),
    decreases es.len(),
{
    let k = es[p].0;
    let after = es.update(p, (k, v));
    let front = es.drop_last();
    if p == es.len() - 1 {
        assert(after.drop_last() =~= front);
        assert(as_map(front).insert(k, v) =~= as_map(front).insert(k, es[p].1).insert(k, v));
    } else {
        assert(rising(front)) by {
            assert forall|a: int, b: int| 0 <= a < b < front.len() implies precedes(#[trigger] front[a].0, #[trigger] front[b].0) by {
                assert(front[a] == es[a] && front[b] == es[b]);
            }
        }
        assert(after.drop_last() =~= front.update(p, (k, v)));
        assert(after.last() == es.last());
        lemma_as_map_update(front, p, v);
        assert(front[p] == es[p]);
        assert(precedes(es[p].0, es[es.len() - 1].0));
        lemma_precedes_irreflexive(k);
        assert(as_map(front).insert(k, v).insert(es.last().0, es.last().1) =~= as_map(front).insert(
            es.last().0,
            es.last().1,
        ).insert(k, v));
    }
}

/// The front of rising pairs rises.
pub proof fn lemma_rising_front(es: Seq<Pair>)
    requires
        rising(es),
        es.len() > 0,
    ensures
        rising(es.drop_last()),
        !has_key(es.drop_last(), es.last().0),
        as_map(es.drop_last()) == as_map(es).remove(es.last().0),
{
    let front = es.drop_last();
    let k = es.last().0;
    assert forall|a: int, b: int| 0 <= a < b < front.len() implies precedes(#[trigger] front[a].0, #[trigger] front[b].0) by {
        assert(front[a] == es[a] && front[b] == es[b]);
    }
    if has_key(front, k) {
        let i = choose|i: int| 0 <= i < front.len() && (#[trigger] front[i]).0 == k;
        assert(front[i] == es[i]);
        assert(precedes(es[i].0, es[es.len() - 1].0));
        lemma_precedes_irreflexive(k);
    }
    lemma_as_map_keys(front, k);
    assert(as_map(front) =~= as_map(es).remove(k));
}

/// An association is held by one rising sequence of pairs only.
pub proof fn lemma_rising_unique(a: Seq<Pair>, b: Seq<Pair>)
    requires
        rising(a),
        rising(b),
        as_map(a) == as_map(b),
    ensures
        a == b,
    decreases a.len(),
{
    if a.len() == 0 {
        if b.len() > 0 {
            assert(b[0].0 == b[0].0);
            lemma_as_map_keys(b, b[0].0);
        }
        assert(a =~= b);
    } else if b.len() == 0 {
        assert(a[0].0 == a[0].0);
        lemma_as_map_keys(a, a[0].0);
    } else {
        let ka = a.last().0;
        let kb = b.last().0;
        lemma_as_map_value(a, a.len() - 1);
        lemma_as_map_value(b, b.len() - 1);
        lemma_as_map_keys(b, ka);
        lemma_as_map_keys(a, kb);
        let j = choose|j: int| 0 <= j < b.len() && (#[trigger] b[j]).0 == ka;
        let i = choose|i: int| 0 <= i < a.len() && (#[trigger] a[i]).0 == kb;
        lemma_precedes_total(ka, kb);
        lemma_precedes_irreflexive(ka);
        lemma_precedes_irreflexive(kb);
        if j < b.len() - 1 {
            assert(precedes(b[j].0, b[b.len() - 1].0));
        }
        if i < a.len() - 1 {
            assert(precedes(a[i].0, a[a.len() - 1].0));
        }
        assert(ka == kb);
        lemma_rising_front(a);
        lemma_rising_front(b);
        lemma_rising_unique(a.drop_last(), b.drop_last());
        assert(a =~= a.drop_last().push(a.last()));
        assert(b =~= b.drop_last().push(b.last()));
    }
}

/// The pairs of an association in rising order of their keys.
pub open spec fn in_order(m: Map<Seq<char>, FileEntryView>) -> Seq<Pair> {
    choose|es: Seq<Pair>| rising(es) && as_map(es) == m
}

/// Rising pairs are the pairs, in order, of the association that they make.
pub proof fn lemma_in_order(es: Seq<Pair>)
    requires
        rising(es),
    ensures
        in_order(as_map(es)) == es,
{
    let found = in_order(as_map(es));
    assert(rising(found) && as_map(found) == as_map(es));
    lemma_rising_unique(found, es);
}

/// The part of an association whose pairs meet `keep`.
pub open spec fn kept(m: Map<Seq<char>, FileEntryView>, keep: spec_fn(Pair) -> bool) -> Map<Seq<char>, FileEntryView> {
    Map::new(|k: Seq<char>| m.contains_key(k) && keep((k, m[k])), |k: Seq<char>| m[k])
}

/// Whether the flag at place `i` is set.
pub open spec fn flagged(flags: Seq<bool>, i: int) -> bool {
    0 <= i < flags.len() && flags[i]
}

/// The pairs whose flag is not set, in their order.
pub open spec fn unflagged(es: Seq<Pair>, flags: Seq<bool>) -> Seq<Pair>
    decreases es.len(),
{
    if es.len() == 0 {
        Seq::empty()
    } else if flagged(flags, es.len() - 1) {
        unflagged(es.drop_last(), flags)
    } else {
        unflagged(es.drop_last(), flags).push(es.last())
    }
}

/// A removal by flags of which none is set removes nothing.
pub proof fn lemma_unflagged_all(es: Seq<Pair>, flags: Seq<bool>)
    requires
        forall|j: int| 0 <= j < es.len() ==> !flagged(flags, j),
    ensures
        unflagged(es, flags) == es,
    decreases es.len(),
{
    if es.len() > 0 {
        lemma_unflagged_all(es.drop_last(), flags);
        assert(es.drop_last().push(es.last()) =~= es);
    }
}

/// A pair that is left after a removal by flags stood in the sequence, at
/// the place that is handed back, with its flag not set.
pub proof fn lemma_unflagged_source(es: Seq<Pair>, flags: Seq<bool>, i: int) -> (j: int)
    requires
        0 <= i < unflagged(es, flags).len(),
    ensures
        0 <= j < es.len(),
        !flagged(flags, j),
        es[j] == unflagged(es, flags)[i],
    decreases es.len(),
{
    let front = es.drop_last();
    if flagged(flags, es.len() - 1) {
        lemma_unflagged_source(front, flags, i)
    } else if i < unflagged(front, flags).len() {
        lemma_unflagged_source(front, flags, i)
    } else {
        es.len() - 1
    }
}

/// A pair whose flag is not set is left after a removal by flags, at the
/// place that is handed back.
pub proof fn lemma_unflagged_stays(es: Seq<Pair>, flags: Seq<bool>, j: int) -> (i: int)
    requires
        0 <= j < es.len(),
        !flagged(flags, j),
    ensures
        0 <= i < unflagged(es, flags).len(),
        unflagged(es, flags)[i] == es[j],
    decreases es.len(),
{
    let front = es.drop_last();
    if j < es.len() - 1 {
        lemma_unflagged_stays(front, flags, j)
    } else {
        unflagged(front, flags).len() as int
    }
}

/// Rising keys still rise after a removal by flags.
pub proof fn lemma_unflagged_rising(es: Seq<Pair>, flags: Seq<bool>)
    requires
        rising(es),
    ensures
        rising(unflagged(es, flags)),
    decreases es.len(),
{
    if es.len() > 0 {
        let front = es.drop_last();
        let left = unflagged(es, flags);
        let before = unflagged(front, flags);
        assert(rising(front)) by {
            assert forall|a: int, b: int| 0 <= a < b < front.len() implies precedes(#[trigger] front[a].0, #[trigger] front[b].0) by {
                assert(front[a] == es[a] && front[b] == es[b]);
            }
        }
        lemma_unflagged_rising(front, flags);
        if !flagged(flags, es.len() - 1) {
            assert forall|a: int, b: int| 0 <= a < b < left.len() implies precedes(#[trigger] left[a].0, #[trigger] left[b].0) by {
                if b < before.len() {
                    assert(left[a] == before[a] && left[b] == before[b]);
                } else {
                    assert(left[a] == before[a]);
                    let j = lemma_unflagged_source(front, flags, a);
                    assert(es[j] == left[a]);
                    assert(left[b] == es[es.len() - 1]);
                    assert(precedes(es[j].0, es[es.len() - 1].0));
                }
            }
        }
    }
}

/// Where the flags are set at the pairs that do not meet `keep`, a removal
/// by flags leaves the part of the association that meets it.
pub proof fn lemma_unflagged_kept(es: Seq<Pair>, flags: Seq<bool>, keep: spec_fn(Pair) -> bool)
    requires
        rising(es),
        forall|j: int| 0 <= j < es.len() ==> flagged(flags, j) == !keep(#[trigger] es[j]),
    ensures
        as_map(unflagged(es, flags)) == kept(as_map(es), keep),
{
    let left = unflagged(es, flags);
    let m = as_map(es);
    lemma_unflagged_rising(es, flags);
    assert forall|k: Seq<char>| #[trigger] as_map(left).contains_key(k) implies kept(m, keep).contains_key(k)
        && as_map(left)[k] == kept(m, keep)[k] by {
        lemma_as_map_keys(left, k);
        let i = choose|i: int| 0 <= i < left.len() && (#[trigger] left[i]).0 == k;
        let j = lemma_unflagged_source(es, flags, i);
        lemma_as_map_value(es, j);
        lemma_as_map_value(left, i);
    }
    assert forall|k: Seq<char>| #[trigger] kept(m, keep).contains_key(k) implies as_map(left).contains_key(k) by {
        lemma_as_map_keys(es, k);
        let j = choose|j: int| 0 <= j < es.len() && (#[trigger] es[j]).0 == k;
        lemma_as_map_value(es, j);
        assert(keep(es[j]));
        let i = lemma_unflagged_stays(es, flags, j);
        lemma_as_map_value(left, i);
    }
    assert(as_map(left) =~= kept(m, keep));
}

/// The pairs with one more pair entered at the place that its key asks
/// for, in place of a pair with the same key.
pub open spec fn entered(es: Seq<Pair>, x: Pair) -> Seq<Pair>
    decreases es.len(),
{
    if es.len() == 0 {
        seq![x]
    } else if precedes(es.last().0, x.0) {
        es.push(x)
    } else if es.last().0 == x.0 {
        es.drop_last().push(x)
    } else {
        entered(es.drop_last(), x).push(es.last())
    }
}

/// Entering a pair into rising pairs leaves them rising, makes the
/// association hold the pair, and brings in no other pair.
pub proof fn lemma_entered(es: Seq<Pair>, x: Pair)
    requires
        rising(es),
    ensures
        rising(entered(es, x)),
        as_map(entered(es, x)) == as_map(es).insert(x.0, x.1),
        forall|i: int| 0 <= i < entered(es, x).len() ==> #[trigger] entered(es, x)[i] == x || exists|j: int|
            0 <= j < es.len() && es[j] == entered(es, x)[i],
    decreases es.len(),
{
    let after = entered(es, x);
    if es.len() == 0 {
        assert(after.drop_last() =~= es);
    } else if precedes(es.last().0, x.0) {
        assert(after.drop_last() =~= es);
        assert forall|a: int, b: int| 0 <= a < b < after.len() implies precedes(#[trigger] after[a].0, #[trigger] after[b].0) by {
            if b == es.len() {
                if a < es.len() - 1 {
                    assert(precedes(es[a].0, es[es.len() - 1].0));
                    lemma_precedes_transitive(es[a].0, es.last().0, x.0);
                }
            } else {
                assert(after[a] == es[a] && after[b] == es[b]);
            }
        }
        assert forall|i: int| 0 <= i < after.len() implies #[trigger] after[i] == x || exists|j: int|
            0 <= j < es.len() && es[j] == after[i] by {
            if i < es.len() {
                assert(es[i] == after[i]);
            }
        }
    } else if es.last().0 == x.0 {
        let front = es.drop_last();
        lemma_rising_front(es);
        assert(after.drop_last() =~= front);
        assert(as_map(front).insert(x.0, x.1) =~= as_map(front).insert(es.last().0, es.last().1).insert(x.0, x.1));
        assert forall|a: int, b: int| 0 <= a < b < after.len() implies precedes(#[trigger] after[a].0, #[trigger] after[b].0) by {
            assert(after[a] == es[a]);
            assert(after[b].0 == es[b].0);
        }
        assert forall|i: int| 0 <= i < after.len() implies #[trigger] after[i] == x || exists|j: int|
            0 <= j < es.len() && es[j] == after[i] by {
            if i < front.len() {
                assert(es[i] == after[i]);
            }
        }
    } else {
        let front = es.drop_last();
        let inner = entered(front, x);
        lemma_rising_front(es);
        lemma_entered(front, x);
        lemma_precedes_total(es.last().0, x.0);
        assert(after.drop_last() =~= inner);
        assert(as_map(front).insert(x.0, x.1).insert(es.last().0, es.last().1) =~= as_map(front).insert(
            es.last().0,
            es.last().1,
        ).insert(x.0, x.1));
        assert forall|a: int, b: int| 0 <= a < b < after.len() implies precedes(#[trigger] after[a].0, #[trigger] after[b].0) by {
            if b < inner.len() {
                assert(after[a] == inner[a] && after[b] == inner[b]);
            } else {
                assert(after[a] == inner[a]);
                if inner[a] != x {
                    let j = choose|j: int| 0 <= j < front.len() && front[j] == inner[a];
                    assert(es[j] == front[j]);
                    assert(precedes(es[j].0, es[es.len() - 1].0));
                }
            }
        }
        assert forall|i: int| 0 <= i < after.len() implies #[trigger] after[i] == x || exists|j: int|
            0 <= j < es.len() && es[j] == after[i] by {
            if i < inner.len() {
                assert(after[i] == inner[i]);
                if inner[i] != x {
                    let j = choose|j: int| 0 <= j < front.len() && front[j] == inner[i];
                    assert(es[j] == after[i]);
                }
            } else {
                assert(es[es.len() - 1] == after[i]);
            }
        }
    }
}

/// Whether an association can be written as pairs with rising keys. Every
/// mapping can.
pub open spec fn listed(m: Map<Seq<char>, FileEntryView>) -> bool {
    exists|es: Seq<Pair>| rising(es) && as_map(es) == m
}

/// The pairs of a listed association, in order, are the association: each
/// key of it stands in them once, with its entry.
pub proof fn lemma_listed(m: Map<Seq<char>, FileEntryView>)
    requires
        listed(m),
    ensures
        rising(in_order(m)),
        as_map(in_order(m)) == m,
        forall|i: int| 0 <= i < in_order(m).len() ==> m.contains_key(#[trigger] in_order(m)[i].0) && m[in_order(m)[i].0]
            == in_order(m)[i].1,
        forall|k: Seq<char>| m.contains_key(k) ==> has_key(in_order(m), k),
{
    let es = in_order(m);
    assert forall|i: int| 0 <= i < es.len() implies m.contains_key(#[trigger] es[i].0) && m[es[i].0] == es[i].1 by {
        lemma_as_map_value(es, i);
    }
    assert forall|k: Seq<char>| m.contains_key(k) implies has_key(es, k) by {
        lemma_as_map_keys(es, k);
    }
}

/// An association with one more pair is listed where the association is.
pub proof fn lemma_listed_insert(m: Map<Seq<char>, FileEntryView>, k: Seq<char>, v: FileEntryView)
    requires
        listed(m),
    ensures
        listed(m.insert(k, v)),
{
    let es = in_order(m);
    lemma_entered(es, (k, v));
    assert(rising(entered(es, (k, v))) && as_map(entered(es, (k, v))) == m.insert(k, v));
}

/// A part of an association is listed where the association is.
pub proof fn lemma_listed_kept(m: Map<Seq<char>, FileEntryView>, keep: spec_fn(Pair) -> bool)
    requires
        listed(m),
    ensures
        listed(kept(m, keep)),
{
    let es = in_order(m);
    let flags = Seq::new(es.len(), |j: int| !keep(es[j]));
    lemma_unflagged_kept(es, flags, keep);
    lemma_unflagged_rising(es, flags);
    assert(rising(unflagged(es, flags)) && as_map(unflagged(es, flags)) == kept(m, keep));
}

/// The pairs that a vector of slots stands for.
pub open spec fn pairs(slots: Seq<(String, FileEntry)>) -> Seq<Pair> {
    slots.map_values(|s: (String, FileEntry)| (s.0@, s.1@))
}

/// The resolved mapping. Each destination key occurs once, and the keys are
/// kept in rising order, so that a directory is met before what lies in it.
#[derive(Debug)]
pub struct ActionMap {
    slots: Vec<(String, FileEntry)>,
}

impl View for ActionMap {
    type V = Map<Seq<char>, FileEntryView>;

    open spec fn view(&self) -> Map<Seq<char>, FileEntryView> {
        as_map(self.entries())
    }
}

impl ActionMap {
    /// The pairs of the mapping in the order in which they are visited.
    pub closed spec fn entries(&self) -> Seq<Pair> {
        pairs(self.slots@)
    }

    #[verifier::type_invariant]
    spec fn ordered(&self) -> bool {
        rising(pairs(self.slots@))
    }

    /// The mapping that holds nothing.
    pub fn new() -> (res: ActionMap)
        ensures
            res.entries() == Seq::<Pair>::empty(),
            res@ == Map::<Seq<char>, FileEntryView>::empty(),
    {
        let res = ActionMap { slots: Vec::new() };
        assert(pairs(res.slots@) =~= Seq::<Pair>::empty());
        res
    }

    /// How many keys the mapping holds. The pairs of a mapping are visited
    /// in rising order of their keys.
    pub fn len(&self) -> (n: usize)
        ensures
            n == self.entries().len(),
            rising(self.entries()),
            self.entries() == in_order(self@),
            listed(self@),
    {
        proof {
            use_type_invariant(self);
            lemma_in_order(self.entries());
        }
        self.slots.len()
    }

    /// The key at place `i` of the visiting order.
    pub fn key_at(&self, i: usize) -> (key: &String)
        requires
            i < self.entries().len(),
        ensures
            key@ == self.entries()[i as int].0,
    {
        &self.slots[i].0
    }

    /// The entry at place `i` of the visiting order.
    pub fn entry_at(&self, i: usize) -> (entry: &FileEntry)
        requires
            i < self.entries().len(),
        ensures
            entry@ == self.entries()[i as int].1,
    {
        &self.slots[i].1
    }

    /// The keys of the mapping in the order in which they are visited.
    pub fn keys(&self) -> (res: Vec<String>)
        ensures
            res@.len() == self.entries().len(),
            forall|i: int| 0 <= i < res@.len() ==> (#[trigger] res@[i])@ == self.entries()[i].0,
    {
        let mut res: Vec<String> = Vec::new();
        let mut i: usize = 0;
        while i < self.slots.len()
            invariant
                i <= self.slots.len(),
                res@.len() == i,
                forall|j: int| 0 <= j < i ==> (#[trigger] res@[j])@ == self.entries()[j].0,
            decreases self.slots.len() - i,
        {
            res.push(self.slots[i].0.clone());
            i = i + 1;
        }
        res
    }

    /// The entry that stands under `key`, if there is one.
    pub fn get(&self, key: &str) -> (res: Option<&FileEntry>)
        ensures
            res is Some <==> self@.contains_key(key@),
            res matches Some(entry) ==> entry@ == self@[key@],
    {
        proof {
            use_type_invariant(self);
        }
        let wanted = to_chars(key);
        let ghost es = self.entries();
        let mut i: usize = 0;
        while i < self.slots.len()
            invariant
                i <= self.slots.len(),
                wanted@ == key@,
                es == self.entries(),
                rising(es),
                forall|j: int| 0 <= j < i ==> (#[trigger] es[j]).0 != key@,
            decreases self.slots.len() - i,
        {
            let here = to_chars(self.slots[i].0.as_str());
            if same_chars(&here, &wanted) {
                proof {
                    lemma_as_map_value(es, i as int);
                }
                return Some(&self.slots[i].1);
            }
            i = i + 1;
        }
        proof {
            lemma_as_map_keys(es, key@);
        }
        None
    }

    /// Removes the pairs whose flag is set; a pair without a flag stays.
    pub fn remove_flagged(&mut self, flags: &Vec<bool>)
        ensures
            final(self).entries() == unflagged(old(self).entries(), flags@),
            rising(final(self).entries()),
    {
        proof {
            use_type_invariant(&*self);
        }
        let ghost es = self.entries();
        let mut left: Vec<(String, FileEntry)> = Vec::new();
        let mut i: usize = 0;
        assert(es.subrange(0, 0) =~= Seq::<Pair>::empty());
        assert(pairs(left@) =~= Seq::<Pair>::empty());
        while i < self.slots.len()
            invariant
                i <= self.slots.len(),
                *self == *old(self),
                es == pairs(self.slots@),
                pairs(left@) == unflagged(es.subrange(0, i as int), flags@),
            decreases self.slots.len() - i,
        {
            let ghost upto = es.subrange(0, i + 1);
            assert(upto.drop_last() =~= es.subrange(0, i as int));
            assert(upto.last() == es[i as int]);
            if !(i < flags.len() && flags[i]) {
                let ghost before = pairs(left@);
                left.push((self.slots[i].0.clone(), self.slots[i].1.duplicate()));
                assert(pairs(left@) =~= before.push(es[i as int]));
            }
            i = i + 1;
        }
        proof {
            assert(es.subrange(0, es.len() as int) =~= es);
            lemma_unflagged_rising(es, flags@);
        }
        core::mem::swap(&mut self.slots, &mut left);
    }

    /// Enters `entry` under `key`, in place of what stood there.
    pub fn insert(&mut self, key: String, entry: FileEntry)
        ensures
            final(self)@ == old(self)@.insert(key@, entry@),
            rising(final(self).entries()),
    {
        proof {
            use_type_invariant(&*self);
        }
        // the slots are taken out, changed, and put back
        let mut slots: Vec<(String, FileEntry)> = Vec::new();
        assert(pairs(slots@) =~= Seq::<Pair>::empty());
        core::mem::swap(&mut self.slots, &mut slots);
        place_slot(&mut slots, key, entry);
        core::mem::swap(&mut self.slots, &mut slots);
    }
}

/// Enters a pair into slots whose keys rise, keeping them rising.
fn place_slot(slots: &mut Vec<(String, FileEntry)>, key: String, entry: FileEntry)
    requires
        rising(pairs(old(slots)@)),
    ensures
        rising(pairs(final(slots)@)),
        as_map(pairs(final(slots)@)) == as_map(pairs(old(slots)@)).insert(key@, entry@),
{
    let wanted = to_chars(key.as_str());
    let ghost es = pairs(slots@);
    let mut p: usize = 0;
    let mut passed = false;
    while p < slots.len() && !passed
        invariant
            p <= slots.len(),
            *slots == *old(slots),
            es == pairs(slots@),
            rising(es),
            wanted@ == key@,
            forall|i: int| 0 <= i < p ==> precedes(#[trigger] es[i].0, key@),
            passed ==> p < slots.len() && precedes(key@, es[p as int].0),
        decreases slots.len() - p + (if passed { 0int } else { 1int }),
    {
        let here = to_chars(slots[p].0.as_str());
        match place(&here, &wanted) {
            Place::Before => {
                p = p + 1;
            },
            Place::Same => {
                proof {
                    lemma_as_map_update(es, p as int, entry@);
                }
                slots.set(p, (key, entry));
                proof {
                    let now = pairs(slots@);
                    assert(now =~= es.update(p as int, (key@, entry@)));
                    assert forall|a: int, b: int| 0 <= a < b < now.len() implies precedes(#[trigger] now[a].0, #[trigger] now[b].0) by {
                        assert(now[a].0 == es[a].0 && now[b].0 == es[b].0);
                    }
                }
                return ;
            },
            Place::After => {
                proof {
                    lemma_precedes_total(es[p as int].0, key@);
                }
                passed = true;
            },
        }
    }
    proof {
        assert(!has_key(es, key@)) by {
            if has_key(es, key@) {
                let i = choose|i: int| 0 <= i < es.len() && (#[trigger] es[i]).0 == key@;
                lemma_precedes_irreflexive(key@);
                if i > p {
                    assert(precedes(es[p as int].0, es[i].0));
                    lemma_precedes_transitive(key@, es[p as int].0, es[i].0);
                }
            }
        }
        lemma_as_map_insert_at(es, p as int, (key@, entry@));
    }
    slots.insert(p, (key, entry));
    proof {
        let now = pairs(slots@);
        assert(now =~= es.insert(p as int, (key@, entry@)));
        assert forall|a: int, b: int| 0 <= a < b < now.len() implies precedes(#[trigger] now[a].0, #[trigger] now[b].0) by {
            if b < p {
                assert(now[a] == es[a] && now[b] == es[b]);
            } else if b == p {
                assert(now[a] == es[a]);
            } else if a < p {
                assert(now[a] == es[a] && now[b] == es[b - 1]);
            } else if a == p {
                assert(now[b] == es[b - 1]);
                if b - 1 > p {
                    assert(precedes(es[p as int].0, es[b - 1].0));
                    lemma_precedes_transitive(key@, es[p as int].0, es[b - 1].0);
                }
            } else {
                assert(now[a] == es[a - 1] && now[b] == es[b - 1]);
            }
        }
    }
}

} // verus!
