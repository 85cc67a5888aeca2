//! Indices derived from a configuration when it is loaded: the pattern index,
//! from each pattern to the target that owns it, and the activation graph,
//! from each activator to the targets that it activates.

use vstd::prelude::*;
use crate::pattern::{glob_match, glob_matches};
use crate::target::Targets;

verus! {

/// `index` lists the pattern `p` as owned by target `i`.
pub open spec fn indexed(index: Seq<(String, usize)>, p: Seq<char>, i: int) -> bool {
    exists|q: int| #![trigger index[q]] 0 <= q < index.len() && index[q].0@ == p && index[q].1 as int == i
}

/// `index` lists the patterns of the targets of `t`, each with its owner,
/// and nothing else.
pub open spec fn pattern_index_ok(t: Targets, index: Seq<(String, usize)>) -> bool {
    &&& forall|q: int| #![trigger index[q]] 0 <= q < index.len() ==> index[q].1 < t.len()
        && t.target(index[q].1 as int).has_pattern(index[q].0@)
    &&& forall|i: int| #![trigger t.target(i)] 0 <= i < t.len() ==> indexed(index, t.target(i).path@, i)
    &&& forall|i: int, g: int| #![trigger t.target(i).globs@[g]]
        0 <= i < t.len() && 0 <= g < t.target(i).globs@.len() ==> indexed(index, t.target(i).globs@[g]@, i)
}

/// One of the first `upto` entries of `index` is owned by target `i` and
/// matches `file`.
pub open spec fn index_hit(index: Seq<(String, usize)>, i: int, file: Seq<char>, upto: int) -> bool {
    exists|q: int| #![trigger index[q]] 0 <= q < upto && index[q].1 as int == i && glob_match(index[q].0@, file)
}

/// `graph` holds an edge from activator `j` to dependent `i`.
pub open spec fn edge(graph: Seq<(usize, usize)>, j: int, i: int) -> bool {
    exists|e: int| #![trigger graph[e]] 0 <= e < graph.len() && graph[e].0 as int == j && graph[e].1 as int == i
}

/// `graph` holds an edge from `j` to `i` exactly when target `i` lists the
/// name of target `j` among its activators.
pub open spec fn graph_ok(t: Targets, graph: Seq<(usize, usize)>) -> bool {
    &&& forall|e: int| #![trigger graph[e]] 0 <= e < graph.len() ==> graph[e].0 < t.len()
        && graph[e].1 < t.len() && t.target(graph[e].1 as int).has_activator(t.name(graph[e].0 as int))
    &&& forall|i: int, k: int, j: int| #![trigger t.name(j), t.target(i).activated_by@[k]]
        0 <= i < t.len() && 0 <= k < t.target(i).activated_by@.len() && 0 <= j < t.len()
            && t.name(j) == t.target(i).activated_by@[k]@ ==> edge(graph, j, i)
}

proof fn lemma_indexed_extend(a: Seq<(String, usize)>, b: Seq<(String, usize)>, p: Seq<char>, i: int)
    requires
        a.len() <= b.len(),
        forall|q: int| 0 <= q < a.len() ==> b[q] == a[q],
        indexed(a, p, i),
    ensures
        indexed(b, p, i),
{
    let q = choose|q: int| #![trigger a[q]] 0 <= q < a.len() && a[q].0@ == p && a[q].1 as int == i;
    assert(b[q] == a[q]);
}

proof fn lemma_edge_extend(a: Seq<(usize, usize)>, b: Seq<(usize, usize)>, j: int, i: int)
    requires
        a.len() <= b.len(),
        forall|e: int| 0 <= e < a.len() ==> b[e] == a[e],
        edge(a, j, i),
    ensures
        edge(b, j, i),
{
    let e = choose|e: int| #![trigger a[e]] 0 <= e < a.len() && a[e].0 as int == j && a[e].1 as int == i;
    assert(b[e] == a[e]);
}

/// Through a complete pattern index, a target is hit exactly when one of its
/// entries matches.
pub proof fn lemma_hit_by_index(t: Targets, index: Seq<(String, usize)>, i: int, file: Seq<char>)
    requires
        pattern_index_ok(t, index),
        0 <= i < t.len(),
    ensures
        t.target(i).hit(file) == index_hit(index, i, file, index.len() as int),
{
    let tg = t.target(i);
    if tg.hit(file) {
        if glob_match(tg.path@, file) {
            assert(indexed(index, tg.path@, i));
            let q = choose|q: int| #![trigger index[q]] 0 <= q < index.len() && index[q].0@ == tg.path@
                && index[q].1 as int == i;
            assert(index_hit(index, i, file, index.len() as int));
        } else {
            let g = choose|g: int| 0 <= g < tg.globs@.len() && glob_match(#[trigger] tg.globs@[g]@, file);
            assert(indexed(index, t.target(i).globs@[g]@, i));
            let q = choose|q: int| #![trigger index[q]] 0 <= q < index.len() && index[q].0@ == tg.globs@[g]@
                && index[q].1 as int == i;
            assert(index_hit(index, i, file, index.len() as int));
        }
    }
    if index_hit(index, i, file, index.len() as int) {
        let q = choose|q: int| #![trigger index[q]] 0 <= q < index.len() && index[q].1 as int == i
            && glob_match(index[q].0@, file);
        assert(tg.has_pattern(index[q].0@));
        if index[q].0@ != tg.path@ {
            let g = choose|g: int| 0 <= g < tg.globs@.len() && #[trigger] tg.globs@[g]@ == index[q].0@;
            assert(glob_match(tg.globs@[g]@, file));
        }
    }
}

/// The pattern index of `targets`: for every target its path, then its
/// globs, each with the target's position.
pub fn build_pattern_index(targets: &Targets) -> (index: Vec<(String, usize)>)
    ensures
        pattern_index_ok(*targets, index@),
{
    let n = targets.targets.len();
    let mut index: Vec<(String, usize)> = Vec::new();
    let mut i: usize = 0;
    while i < n
        invariant
            n == targets.len(),
            i <= n,
            forall|q: int| #![trigger index@[q]] 0 <= q < index@.len() ==> index@[q].1 < i
                && targets.target(index@[q].1 as int).has_pattern(index@[q].0@),
            forall|a: int| 0 <= a < i ==> indexed(index@, (#[trigger] targets.target(a)).path@, a),
            forall|a: int, g: int| #![trigger targets.target(a).globs@[g]]
                0 <= a < i && 0 <= g < targets.target(a).globs@.len() ==> indexed(index@, targets.target(a).globs@[g]@, a),
        decreases n - i,
    {
        let ghost start = index@;
        let t = &targets.targets[i].1;
        index.push((t.path.clone(), i));
        assert(index@[index@.len() - 1].0@ == t.path@);
        let mut g: usize = 0;
        while g < t.globs.len()
            invariant
                n == targets.len(),
                i < n,
                *t == targets.target(i as int),
                g <= t.globs@.len(),
                start.len() <= index@.len(),
                forall|q: int| 0 <= q < start.len() ==> index@[q] == start[q],
                forall|q: int| #![trigger index@[q]] 0 <= q < index@.len() ==> index@[q].1 <= i
                    && targets.target(index@[q].1 as int).has_pattern(index@[q].0@),
                indexed(index@, t.path@, i as int),
                forall|h: int| 0 <= h < g ==> indexed(index@, #[trigger] t.globs@[h]@, i as int),
            decreases t.globs.len() - g,
        {
            let ghost before = index@;
            index.push((t.globs[g].clone(), i));
            proof {
                let last = index@.len() - 1;
                assert(index@[last].0@ == t.globs@[g as int]@);
                assert(t.has_pattern(t.globs@[g as int]@));
                lemma_indexed_extend(before, index@, t.path@, i as int);
                assert forall|h: int| 0 <= h <= g implies indexed(index@, #[trigger] t.globs@[h]@, i as int) by {
                    if h < g {
                        lemma_indexed_extend(before, index@, t.globs@[h]@, i as int);
                    } else {
                        assert(index@[last].0@ == t.globs@[h]@);
                    }
                }
            }
            g = g + 1;
        }
        proof {
            assert forall|a: int| 0 <= a < i + 1 implies indexed(index@, (#[trigger] targets.target(a)).path@, a) by {
                if a < i {
                    lemma_indexed_extend(start, index@, targets.target(a).path@, a);
                }
            }
            assert forall|a: int, h: int| #![trigger targets.target(a).globs@[h]]
                0 <= a < i + 1 && 0 <= h < targets.target(a).globs@.len() implies indexed(index@, targets.target(a).globs@[h]@, a) by {
                if a < i {
                    lemma_indexed_extend(start, index@, targets.target(a).globs@[h]@, a);
                }
            }
        }
        i = i + 1;
    }
    index
}

/// For each target, whether one of its patterns matches `path`, found
/// through the pattern index.
pub fn pattern_hits(targets: &Targets, index: &Vec<(String, usize)>, path: &str) -> (h: Vec<bool>)
    requires
        targets.patterns_valid(),
        pattern_index_ok(*targets, index@),
    ensures
        h@.len() == targets.len(),
        forall|i: int| 0 <= i < targets.len() ==> h@[i] == targets.target(i).hit(path@),
{
    let n = targets.targets.len();
    let mut h = vec![false; n];
    let mut q: usize = 0;
    while q < index.len()
        invariant
            n == targets.len(),
            targets.patterns_valid(),
            pattern_index_ok(*targets, index@),
            h@.len() == n,
            q <= index@.len(),
            forall|i: int| 0 <= i < n ==> h@[i] == index_hit(index@, i, path@, q as int),
        decreases index.len() - q,
    {
        let i = index[q].1;
        proof {
            let p = index@[q as int].0@;
            let tg = targets.target(i as int);
            assert(tg.patterns_valid());
            if p != tg.path@ {
                let g = choose|g: int| 0 <= g < tg.globs@.len() && #[trigger] tg.globs@[g]@ == p;
            }
        }
        let ghost before = h@;
        if !h[i] && glob_matches(index[q].0.as_str(), path) {
            h.set(i, true);
        }
        proof {
            assert forall|a: int| 0 <= a < n implies h@[a] == index_hit(index@, a, path@, q + 1) by {
                if index_hit(index@, a, path@, q as int) {
                    let w = choose|w: int| #![trigger index@[w]] 0 <= w < q && index@[w].1 as int == a
                        && glob_match(index@[w].0@, path@);
                    assert(index_hit(index@, a, path@, q + 1));
                }
                if index_hit(index@, a, path@, q + 1) && !index_hit(index@, a, path@, q as int) {
                    let w = choose|w: int| #![trigger index@[w]] 0 <= w < q + 1 && index@[w].1 as int == a
                        && glob_match(index@[w].0@, path@);
                    assert(w == q);
                }
                if a == i as int && h@[a] && !before[a] {
                    assert(index_hit(index@, a, path@, q + 1));
                }
            }
        }
        q = q + 1;
    }
    proof {
        assert forall|i: int| 0 <= i < targets.len() implies h@[i] == targets.target(i).hit(path@) by {
            lemma_hit_by_index(*targets, index@, i, path@);
        }
    }
    h
}

/// The position of the target named `name`, if there is one.
fn position_of(targets: &Targets, name: &String) -> (r: Option<usize>)
    ensures
        r matches Some(j) ==> j < targets.len() && targets.name(j as int) == name@,
        r is None ==> forall|j: int| 0 <= j < targets.len() ==> targets.name(j) != name@,
{
    let mut j: usize = 0;
    while j < targets.targets.len()
        invariant
            j <= targets.len(),
            forall|b: int| 0 <= b < j ==> targets.name(b) != name@,
        decreases targets.targets.len() - j,
    {
        if targets.targets[j].0 == *name {
            return Some(j);
        }
        j = j + 1;
    }
    None
}

/// The activation graph of `targets`: an edge from each activator to each
/// target that lists it. Names that no target carries give no edge.
pub fn build_graph(targets: &Targets) -> (graph: Vec<(usize, usize)>)
    requires
        targets.names_unique(),
    ensures
        graph_ok(*targets, graph@),
{
    let n = targets.targets.len();
    let mut graph: Vec<(usize, usize)> = Vec::new();
    let mut i: usize = 0;
    while i < n
        invariant
            n == targets.len(),
            targets.names_unique(),
            i <= n,
            forall|e: int| #![trigger graph@[e]] 0 <= e < graph@.len() ==> graph@[e].0 < n && graph@[e].1 < i
                && targets.target(graph@[e].1 as int).has_activator(targets.name(graph@[e].0 as int)),
            forall|a: int, k: int, j: int| #![trigger targets.name(j), targets.target(a).activated_by@[k]]
                0 <= a < i && 0 <= k < targets.target(a).activated_by@.len() && 0 <= j < n
                    && targets.name(j) == targets.target(a).activated_by@[k]@ ==> edge(graph@, j, a),
        decreases n - i,
    {
        let ghost start = graph@;
        let acts = &targets.targets[i].1.activated_by;
        let mut k: usize = 0;
        while k < acts.len()
            invariant
                n == targets.len(),
                targets.names_unique(),
                i < n,
                *acts == targets.target(i as int).activated_by,
                k <= acts@.len(),
                start.len() <= graph@.len(),
                forall|e: int| 0 <= e < start.len() ==> graph@[e] == start[e],
                forall|e: int| #![trigger graph@[e]] 0 <= e < graph@.len() ==> graph@[e].0 < n && graph@[e].1 <= i
                    && targets.target(graph@[e].1 as int).has_activator(targets.name(graph@[e].0 as int)),
                forall|c: int, j: int| #![trigger targets.name(j), acts@[c]]
                    0 <= c < k && 0 <= j < n && targets.name(j) == acts@[c]@ ==> edge(graph@, j, i as int),
            decreases acts.len() - k,
        {
            let ghost before = graph@;
            match position_of(targets, &acts[k]) {
                Some(j) => {
                    graph.push((j, i));
                    proof {
                        let last = graph@.len() - 1;
                        assert(graph@[last] == (j, i));
                        assert(acts@[k as int]@ == targets.name(j as int));
                        assert(targets.target(i as int).has_activator(targets.name(j as int)));
                        assert forall|c: int, j2: int| #![trigger targets.name(j2), acts@[c]]
                            0 <= c < k + 1 && 0 <= j2 < n && targets.name(j2) == acts@[c]@ implies edge(graph@, j2, i as int) by {
                            if c < k {
                                lemma_edge_extend(before, graph@, j2, i as int);
                            } else {
                                assert(j2 == j as int);
                            }
                        }
                    }
                },
                None => {},
            }
            k = k + 1;
        }
        proof {
            assert forall|a: int, c: int, j: int| #![trigger targets.name(j), targets.target(a).activated_by@[c]]
                0 <= a < i + 1 && 0 <= c < targets.target(a).activated_by@.len() && 0 <= j < n
                    && targets.name(j) == targets.target(a).activated_by@[c]@ implies edge(graph@, j, a) by {
                if a < i {
                    lemma_edge_extend(start, graph@, j, a);
                }
            }
        }
        i = i + 1;
    }
    graph
}

} // verus!
