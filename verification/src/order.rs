//! The order in which destination keys are visited.

use vstd::prelude::*;

verus! {

/// Whether `a` stands before `b`: at the first place where they differ `a`
/// has the smaller character, or `a` ends there and `b` goes on.
pub open spec fn precedes(a: Seq<char>, b: Seq<char>) -> bool
    decreases a.len(),
{
    if b.len() == 0 {
        false
    } else if a.len() == 0 {
        true
    } else if a[0] != b[0] {
        (a[0] as int) < (b[0] as int)
    } else {
        precedes(a.skip(1), b.skip(1))
    }
}

/// How one key stands to another.
#[derive(Clone, Copy, Debug, PartialEq, Eq, Structural)]
pub enum Place {
    Before,
    Same,
    After,
}

/// The place of `a` relative to `b`.
pub open spec fn place_of(a: Seq<char>, b: Seq<char>) -> Place {
    if a == b {
        Place::Same
    } else if precedes(a, b) {
        Place::Before
    } else {
        Place::After
    }
}

/// Nothing stands before itself.
pub proof fn lemma_precedes_irreflexive(a: Seq<char>)
    ensures
        !precedes(a, a),
    decreases a.len(),
{
    if a.len() > 0 {
        lemma_precedes_irreflexive(a.skip(1));
    }
}

/// Of two different keys one stands before the other.
pub proof fn lemma_precedes_total(a: Seq<char>, b: Seq<char>)
    ensures
        a == b || precedes(a, b) || precedes(b, a),
        !(precedes(a, b) && precedes(b, a)),
    decreases a.len(),
{
    if a.len() == 0 || b.len() == 0 {
        if a.len() == 0 && b.len() == 0 {
            assert(a =~= b);
        }
    } else if a[0] == b[0] {
        lemma_precedes_total(a.skip(1), b.skip(1));
        if a.skip(1) == b.skip(1) {
            assert(a =~= seq![a[0]] + a.skip(1));
            assert(b =~= seq![b[0]] + b.skip(1));
        }
    }
}

/// The order carries over: before a key that stands before a third is before the third.
pub proof fn lemma_precedes_transitive(a: Seq<char>, b: Seq<char>, c: Seq<char>)
    requires
        precedes(a, b),
        precedes(b, c),
    ensures
        precedes(a, c),
    decreases a.len(),
{
    if a.len() > 0 && a[0] == b[0] && b[0] == c[0] {
        lemma_precedes_transitive(a.skip(1), b.skip(1), c.skip(1));
    }
}

/// A path stands before every path that goes on from it: a directory
/// comes before what lies in it.
pub proof fn lemma_prefix_precedes(a: Seq<char>, b: Seq<char>)
    requires
        a.len() < b.len(),
        b.subrange(0, a.len() as int) == a,
    ensures
        precedes(a, b),
    decreases a.len(),
{
    if a.len() > 0 {
        assert(b.subrange(0, a.len() as int)[0] == a[0]);
        assert(b.skip(1).subrange(0, a.len() - 1) =~= a.skip(1)) by {
            assert forall|i: int| 0 <= i < a.len() - 1 implies b.skip(1).subrange(0, a.len() - 1)[i] == a.skip(1)[i] by {
                assert(b.subrange(0, a.len() as int)[i + 1] == a[i + 1]);
            }
        }
        lemma_prefix_precedes(a.skip(1), b.skip(1));
    }
}

/// Compares two keys.
pub fn place(a: &Vec<char>, b: &Vec<char>) -> (r: Place)
    ensures
        r == place_of(a@, b@),
{
    let mut i: usize = 0;
    assert(a@.skip(0) =~= a@ && b@.skip(0) =~= b@);
    while i < a.len() && i < b.len()
        invariant
            i <= a.len(),
            i <= b.len(),
            a@.subrange(0, i as int) == b@.subrange(0, i as int),
            place_of(a@, b@) == place_of(a@.skip(i as int), b@.skip(i as int)),
        decreases a.len() - i,
    {
        let ghost ra = a@.skip(i as int);
        let ghost rb = b@.skip(i as int);
        assert(ra[0] == a@[i as int] && rb[0] == b@[i as int]);
        assert(ra.skip(1) =~= a@.skip(i + 1));
        assert(rb.skip(1) =~= b@.skip(i + 1));
        if a[i] != b[i] {
            assert(ra != rb);
            let x: char = a[i];
            let y: char = b[i];
            return if x < y {
                Place::Before
            } else {
                Place::After
            };
        }
        proof {
            if ra == rb {
                assert(ra.skip(1) == rb.skip(1));
            } else {
                assert(ra.skip(1) != rb.skip(1)) by {
                    if ra.skip(1) == rb.skip(1) {
                        assert(ra =~= seq![ra[0]] + ra.skip(1));
                        assert(rb =~= seq![rb[0]] + rb.skip(1));
                    }
                }
            }
            assert(a@.subrange(0, i + 1) =~= a@.subrange(0, i as int).push(a@[i as int]));
            assert(b@.subrange(0, i + 1) =~= b@.subrange(0, i as int).push(b@[i as int]));
        }
        i = i + 1;
    }
    let ghost ra = a@.skip(i as int);
    let ghost rb = b@.skip(i as int);
    if i < b.len() {
        assert(ra.len() == 0 && rb.len() > 0);
        Place::Before
    } else if i < a.len() {
        assert(rb.len() == 0 && ra.len() > 0);
        Place::After
    } else {
        assert(ra =~= rb);
        Place::Same
    }
}

} // verus!
