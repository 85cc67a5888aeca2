//! Laws of resolution, stated over the configuration's spec functions.

use vstd::prelude::*;
use crate::target::Targets;

verus! {

/// With no changed files nothing is activated.
pub proof fn lemma_empty_input(t: Targets)
    ensures
        t.resolved(Seq::<String>::empty()) == Set::<Seq<char>>::empty(),
{
    let files = Seq::<String>::empty();
    assert(t.seed(files) =~= Set::<Seq<char>>::empty());
    assert(t.closed(Set::<Seq<char>>::empty()));
    assert forall|m: Seq<char>| !t.resolved(files).contains(m) by {
        if t.resolved(files).contains(m) {
            assert(t.forced(t.seed(files), m));
            assert(Set::<Seq<char>>::empty().contains(m));
        }
    }
    assert(t.resolved(files) =~= Set::<Seq<char>>::empty());
}

/// An expansion never removes a target: the set after `k + 1` expansions
/// holds the set after `k`.
pub proof fn lemma_expansion_monotone(t: Targets, s: Set<Seq<char>>, k: nat)
    ensures
        t.iterate(s, k).subset_of(t.iterate(s, k + 1)),
{
    assert(t.iterate(s, k + 1) == t.step(t.iterate(s, k)));
}

/// The resolved set holds every directly matched target and is a fixpoint
/// of expansion: resolving again from it activates nothing more.
pub proof fn lemma_resolution_is_fixpoint(t: Targets, files: Seq<String>)
    ensures
        t.seed(files).subset_of(t.resolved(files)),
        t.closed(t.resolved(files)),
        t.step(t.resolved(files)) == t.resolved(files),
{
    let seed = t.seed(files);
    let r = t.resolved(files);
    assert forall|m: Seq<char>| seed.contains(m) implies r.contains(m) by {
        assert forall|x: Set<Seq<char>>| seed.subset_of(x) && t.closed(x) implies #[trigger] x.contains(m) by {
            assert(seed.contains(m));
        }
    }
    assert forall|i: int, k: int|
        0 <= i < t.len() && 0 <= k < t.target(i).activated_by@.len()
            && r.contains(#[trigger] t.target(i).activated_by@[k]@)
        implies r.contains(t.name(i)) by {
        assert forall|x: Set<Seq<char>>| seed.subset_of(x) && t.closed(x) implies #[trigger] x.contains(t.name(i)) by {
            assert(t.forced(seed, t.target(i).activated_by@[k]@));
            assert(x.contains(t.target(i).activated_by@[k]@));
        }
    }
    assert forall|m: Seq<char>| t.step(r).contains(m) implies r.contains(m) by {
        if !r.contains(m) {
            let (i, k) = choose|i: int, k: int| 0 <= i < t.len() && #[trigger] t.name(i) == m
                && 0 <= k < t.target(i).activated_by@.len()
                && r.contains(#[trigger] t.target(i).activated_by@[k]@);
        }
    }
    assert(t.step(r) =~= r);
}

/// The order of the changed files does not matter: two lists that are
/// permutations of each other activate the same targets.
pub proof fn lemma_order_independent(t: Targets, files1: Seq<String>, files2: Seq<String>)
    requires
        files1.to_multiset() == files2.to_multiset(),
    ensures
        t.resolved(files1) == t.resolved(files2),
{
    files1.to_multiset_ensures();
    files2.to_multiset_ensures();
    assert forall|i: int| 0 <= i < t.len() && t.hit_by(i, files1) implies t.hit_by(i, files2) by {
        let f = choose|f: int| 0 <= f < files1.len() && #[trigger] t.target(i).hit(files1[f]@);
        assert(files1.contains(files1[f]));
        assert(files1.to_multiset().count(files1[f]) > 0);
        assert(files2.contains(files1[f]));
        let g = choose|g: int| 0 <= g < files2.len() && files2[g] == files1[f];
        assert(t.target(i).hit(files2[g]@));
    }
    assert forall|i: int| 0 <= i < t.len() && t.hit_by(i, files2) implies t.hit_by(i, files1) by {
        let f = choose|f: int| 0 <= f < files2.len() && #[trigger] t.target(i).hit(files2[f]@);
        assert(files2.contains(files2[f]));
        assert(files2.to_multiset().count(files2[f]) > 0);
        assert(files1.contains(files2[f]));
        let g = choose|g: int| 0 <= g < files1.len() && files1[g] == files2[f];
        assert(t.target(i).hit(files1[g]@));
    }
    assert(t.seed(files1) =~= t.seed(files2));
    assert(t.resolved(files1) =~= t.resolved(files2));
}

} // verus!
