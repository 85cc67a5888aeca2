//! A loaded manifest and the resolution of changed files into activated
//! targets.

use vstd::prelude::*;
use crate::pattern::glob_valid;
use crate::target::Targets;
use crate::index::{pattern_index_ok, graph_ok, edge, build_pattern_index, build_graph, pattern_hits};

verus! {

/// Why a configuration cannot be loaded.
#[derive(Debug, Clone, PartialEq, Eq)]
pub enum ManifestError {
    /// Two targets carry this name.
    DuplicateTarget(String),
    /// This pattern of some target is not a valid glob.
    InvalidPattern(String),
}

/// What is reported of one target: whether it changed, and the commit to
/// build it from.
#[derive(Debug, Clone, PartialEq, Eq)]
pub struct TargetOutput {
    pub changed: bool,
    pub sha: String,
}

/// Some string of `r` reads `n`.
pub open spec fn lists(r: Seq<String>, n: Seq<char>) -> bool {
    exists|x: int| 0 <= x < r.len() && r[x]@ == n
}

/// The names of the targets whose flag in `flags` is set.
pub open spec fn flag_set(t: Targets, flags: Seq<bool>) -> Set<Seq<char>> {
    Set::new(|n: Seq<char>| exists|i: int| 0 <= i < t.len() && flags[i] && #[trigger] t.name(i) == n)
}

/// Target `i` lists among its activators a target whose flag in `flags` is set.
pub open spec fn triggered(t: Targets, flags: Seq<bool>, i: int) -> bool {
    exists|k: int| 0 <= k < t.target(i).activated_by@.len()
        && #[trigger] flag_set(t, flags).contains(t.target(i).activated_by@[k]@)
}

spec fn count_true(s: Seq<bool>) -> nat
    decreases s.len(),
{
    if s.len() == 0 {
        0
    } else {
        count_true(s.drop_last()) + if s.last() { 1nat } else { 0nat }
    }
}

proof fn lemma_count_bound(s: Seq<bool>)
    ensures
        count_true(s) <= s.len(),
    decreases s.len(),
{
    if s.len() > 0 {
        lemma_count_bound(s.drop_last());
    }
}

proof fn lemma_count_set(s: Seq<bool>, i: int)
    requires
        0 <= i < s.len(),
    ensures
        count_true(s.update(i, true)) == count_true(s) + if s[i] { 0nat } else { 1nat },
    decreases s.len(),
{
    if i == s.len() - 1 {
        assert(s.update(i, true).drop_last() =~= s.drop_last());
    } else {
        lemma_count_set(s.drop_last(), i);
        assert(s.update(i, true).drop_last() =~= s.drop_last().update(i, true));
    }
}

/// A target that lists a forced name among its activators is forced too.
proof fn lemma_forced_step(t: Targets, seed: Set<Seq<char>>, i: int, k: int)
    requires
        0 <= i < t.len(),
        0 <= k < t.target(i).activated_by@.len(),
        t.forced(seed, t.target(i).activated_by@[k]@),
    ensures
        t.forced(seed, t.name(i)),
{
    assert forall|x: Set<Seq<char>>| seed.subset_of(x) && t.closed(x) implies #[trigger] x.contains(
        t.name(i),
    ) by {
        assert(x.contains(t.target(i).activated_by@[k]@));
    }
}

/// One of the first `upto` edges of `graph` leads to target `i` from a
/// target whose flag is set.
spec fn edge_fires(graph: Seq<(usize, usize)>, flags: Seq<bool>, i: int, upto: int) -> bool {
    exists|e: int| #![trigger graph[e]] 0 <= e < upto && graph[e].1 as int == i && flags[graph[e].0 as int]
}

/// Through a complete activation graph, a target lists a flagged activator
/// exactly when an edge into it leaves a flagged target.
proof fn lemma_triggered_by_edge(t: Targets, graph: Seq<(usize, usize)>, flags: Seq<bool>, i: int)
    requires
        graph_ok(t, graph),
        0 <= i < t.len(),
        flags.len() == t.len(),
    ensures
        triggered(t, flags, i) == edge_fires(graph, flags, i, graph.len() as int),
{
    let acts = t.target(i).activated_by@;
    if triggered(t, flags, i) {
        let k = choose|k: int| 0 <= k < acts.len() && #[trigger] flag_set(t, flags).contains(acts[k]@);
        let j = choose|j: int| 0 <= j < t.len() && flags[j] && #[trigger] t.name(j) == acts[k]@;
        assert(edge(graph, j, i));
        let e = choose|e: int| #![trigger graph[e]] 0 <= e < graph.len() && graph[e].0 as int == j
            && graph[e].1 as int == i;
        assert(edge_fires(graph, flags, i, graph.len() as int));
    }
    if edge_fires(graph, flags, i, graph.len() as int) {
        let e = choose|e: int| #![trigger graph[e]] 0 <= e < graph.len() && graph[e].1 as int == i
            && flags[graph[e].0 as int];
        let j = graph[e].0 as int;
        assert(t.target(i).has_activator(t.name(j)));
        let k = choose|k: int| 0 <= k < acts.len() && #[trigger] acts[k]@ == t.name(j);
        assert(flag_set(t, flags).contains(t.name(j)));
        assert(flag_set(t, flags).contains(acts[k]@));
    }
}

/// A loaded configuration, its derived indices, and the outcome of its last
/// resolution.
#[derive(Debug)]
pub struct Manifest {
    targets: Targets,
    activated: Vec<bool>,
    /// Every pattern of every target, with the position of its owner.
    path_to_activator: Vec<(String, usize)>,
    /// (activator, dependent) positions, one pair for each activator name
    /// that some target carries.
    activator_to_target: Vec<(usize, usize)>,
}

impl Manifest {
    /// The configuration the manifest was loaded from.
    pub closed spec fn config(self) -> Targets {
        self.targets
    }

    /// The names of the targets activated by the last resolution.
    pub closed spec fn activated_set(self) -> Set<Seq<char>> {
        flag_set(self.targets, self.activated@)
    }

    /// The configuration is well formed, and the flags and both indices
    /// agree with it.
    pub closed spec fn wf(self) -> bool {
        &&& self.targets.well_formed()
        &&& self.activated@.len() == self.targets.len()
        &&& pattern_index_ok(self.targets, self.path_to_activator@)
        &&& graph_ok(self.targets, self.activator_to_target@)
    }

    /// Loads a configuration: target names must be unique and every pattern
    /// a valid glob. No target is activated yet.
    pub fn from_targets(targets: Targets) -> (r: Result<Manifest, ManifestError>)
        ensures
            r is Ok <==> targets.well_formed(),
            r matches Ok(m) ==> m.wf() && m.config() == targets && m.activated_set() == Set::<
                Seq<char>,
            >::empty(),
            r matches Err(ManifestError::DuplicateTarget(n)) ==> exists|i: int, j: int|
                0 <= i < j < targets.len() && targets.name(i) == n@ && targets.name(j) == n@,
            r matches Err(ManifestError::InvalidPattern(p)) ==> exists|i: int|
                0 <= i < targets.len() && targets.target(i).has_pattern(p@) && !glob_valid(p@),
    {
        let n = targets.targets.len();
        let mut i: usize = 0;
        while i < n
            invariant
                n == targets.len(),
                i <= n,
                forall|a: int, b: int|
                    0 <= a < i && a < b < n ==> targets.name(a) != targets.name(b),
            decreases n - i,
        {
            let mut j: usize = i + 1;
            while j < n
                invariant
                    n == targets.len(),
                    i < n,
                    i + 1 <= j <= n,
                    forall|a: int, b: int|
                        0 <= a < i && a < b < n ==> targets.name(a) != targets.name(b),
                    forall|b: int| i < b < j ==> targets.name(i as int) != targets.name(b),
                decreases n - j,
            {
                if targets.targets[i].0 == targets.targets[j].0 {
                    assert(targets.name(i as int) == targets.name(j as int));
                    return Err(ManifestError::DuplicateTarget(targets.targets[i].0.clone()));
                }
                j = j + 1;
            }
            i = i + 1;
        }
        assert(targets.names_unique()) by {
            assert forall|a: int, b: int|
                0 <= a < targets.len() && 0 <= b < targets.len() && a != b implies targets.name(a)
                != targets.name(b) by {
                if b < a {
                    assert(targets.name(b) != targets.name(a));
                }
            }
        }
        let mut i: usize = 0;
        while i < n
            invariant
                n == targets.len(),
                i <= n,
                forall|a: int| 0 <= a < i ==> (#[trigger] targets.target(a)).patterns_valid(),
            decreases n - i,
        {
            match targets.targets[i].1.invalid_pattern() {
                Some(p) => {
                    assert(!targets.target(i as int).patterns_valid());
                    return Err(ManifestError::InvalidPattern(p));
                },
                None => {},
            }
            i = i + 1;
        }
        let activated = vec![false; n];
        let path_to_activator = build_pattern_index(&targets);
        let activator_to_target = build_graph(&targets);
        let m = Manifest { targets, activated, path_to_activator, activator_to_target };
        assert(m.activated_set() =~= Set::<Seq<char>>::empty());
        Ok(m)
    }

    /// The configured default comparison reference.
    pub fn base(&self) -> (r: &str)
        ensures
            r@ == self.config().base@,
    {
        self.targets.base.as_str()
    }
    /// The flag of each target: whether one of the changed files matches
    /// one of its patterns.
    fn seed_flags(&self, files: &Vec<String>) -> (flags: Vec<bool>)
        requires
            self.wf(),
        ensures
            flags@.len() == self.targets.len(),
            forall|i: int| 0 <= i < self.targets.len() ==> flags@[i] == self.targets.hit_by(i, files@),
    {
        let n = self.targets.targets.len();
        let mut flags = vec![false; n];
        let mut f: usize = 0;
        while f < files.len()
            invariant
                self.wf(),
                n == self.targets.len(),
                f <= files@.len(),
                flags@.len() == n,
                forall|i: int| 0 <= i < n ==> flags@[i] == exists|g: int|
                    0 <= g < f && #[trigger] self.targets.target(i).hit(files@[g]@),
            decreases files.len() - f,
        {
            let h = pattern_hits(&self.targets, &self.path_to_activator, files[f].as_str());
            let ghost before = flags@;
            let mut next: Vec<bool> = Vec::new();
            let mut i: usize = 0;
            while i < n
                invariant
                    n == self.targets.len(),
                    f < files@.len(),
                    h@.len() == n,
                    forall|a: int| 0 <= a < n ==> h@[a] == self.targets.target(a).hit(files@[f as int]@),
                    flags@.len() == n,
                    flags@ == before,
                    i <= n,
                    next@.len() == i,
                    forall|a: int| 0 <= a < i ==> next@[a] == (before[a] || h@[a]),
                decreases n - i,
            {
                let v = flags[i] || h[i];
                next.push(v);
                assert(next@[i as int] == v);
                i = i + 1;
            }
            flags = next;
            proof {
                assert forall|a: int| 0 <= a < n implies flags@[a] == exists|g: int|
                    0 <= g < f + 1 && #[trigger] self.targets.target(a).hit(files@[g]@) by {
                    assert(flags@[a] == (before[a] || h@[a]));
                    assert(h@[a] == self.targets.target(a).hit(files@[f as int]@));
                    if flags@[a] && !before[a] {
                        assert(self.targets.target(a).hit(files@[f as int]@));
                    }
                    if !flags@[a] {
                        assert(!self.targets.target(a).hit(files@[f as int]@));
                    }
                }
            }
            f = f + 1;
        }
        flags
    }

    /// The targets not yet flagged that list a flagged target among their
    /// activators, found by walking the activation graph. A target may be
    /// named more than once.
    fn test_inactive_targets(&self, flags: &Vec<bool>) -> (r: Vec<usize>)
        requires
            self.wf(),
            flags@.len() == self.targets.len(),
        ensures
            forall|x: int| 0 <= x < r@.len() ==> {
                &&& r@[x] < self.targets.len()
                &&& !flags@[r@[x] as int]
                &&& triggered(self.targets, flags@, r@[x] as int)
            },
            forall|i: int| 0 <= i < self.targets.len() && !flags@[i] && triggered(self.targets, flags@, i)
                ==> r@.contains(i as usize),
    {
        let graph = &self.activator_to_target;
        let mut r: Vec<usize> = Vec::new();
        let mut e: usize = 0;
        while e < graph.len()
            invariant
                self.wf(),
                *graph == self.activator_to_target,
                flags@.len() == self.targets.len(),
                e <= graph@.len(),
                forall|x: int| 0 <= x < r@.len() ==> {
                    &&& r@[x] < self.targets.len()
                    &&& !flags@[r@[x] as int]
                    &&& triggered(self.targets, flags@, r@[x] as int)
                },
                forall|i: int| 0 <= i < self.targets.len() && !flags@[i] && edge_fires(graph@, flags@, i, e as int)
                    ==> r@.contains(i as usize),
            decreases graph.len() - e,
        {
            let (j, i) = graph[e];
            let ghost old_r = r@;
            if flags[j] && !flags[i] {
                r.push(i);
                proof {
                    assert(edge_fires(graph@, flags@, i as int, graph@.len() as int));
                    lemma_triggered_by_edge(self.targets, graph@, flags@, i as int);
                    assert(r@[r@.len() - 1] == i);
                }
            }
            proof {
                assert forall|a: int| 0 <= a < self.targets.len() && !flags@[a] && edge_fires(graph@, flags@, a, e + 1)
                    implies r@.contains(a as usize) by {
                    if edge_fires(graph@, flags@, a, e as int) {
                        let x = choose|x: int| 0 <= x < old_r.len() && old_r[x] == a as usize;
                        assert(r@[x] == a as usize);
                    } else {
                        let w = choose|w: int| #![trigger graph@[w]] 0 <= w < e + 1 && graph@[w].1 as int == a
                            && flags@[graph@[w].0 as int];
                        assert(w == e);
                        assert(r@[r@.len() - 1] == i);
                    }
                }
            }
            e = e + 1;
        }
        proof {
            assert forall|i: int| 0 <= i < self.targets.len() && !flags@[i] && triggered(self.targets, flags@, i)
                implies r@.contains(i as usize) by {
                lemma_triggered_by_edge(self.targets, graph@, flags@, i);
            }
        }
        r
    }

    /// The resolution of `files` as a value, leaving the manifest as it is:
    /// the flag of each target in configuration order, and how many
    /// expansions it took to reach them.
    pub fn activation(&self, files: &Vec<String>) -> (res: (Vec<bool>, usize))
        requires
            self.wf(),
        ensures
            res.0@.len() == self.config().len(),
            flag_set(self.config(), res.0@) == self.config().resolved(files@),
            flag_set(self.config(), res.0@) == self.config().iterate(self.config().seed(files@), res.1 as nat),
            res.1 <= self.config().len(),
    {
        let ghost t = self.targets;
        let ghost seed = t.seed(files@);
        let mut flags = self.seed_flags(files);
        let ghost seed_flags = flags@;
        let n = self.targets.targets.len();
        proof {
            assert forall|i: int| 0 <= i < n && flags@[i] implies t.forced(seed, #[trigger] t.name(i)) by {
                assert forall|x: Set<Seq<char>>| seed.subset_of(x) && t.closed(x) implies #[trigger] x.contains(
                    t.name(i),
                ) by {
                    assert(seed.contains(t.name(i)));
                }
            }
            lemma_count_bound(flags@);
            assert(flag_set(t, flags@) =~= seed) by {
                assert forall|m: Seq<char>| seed.contains(m) implies flag_set(t, flags@).contains(m) by {
                    let i = choose|i: int| 0 <= i < t.len() && #[trigger] t.name(i) == m && t.hit_by(i, files@);
                    assert(flags@[i]);
                }
            }
        }
        let mut iterations: usize = 0;
        loop
            invariant
                self.wf(),
                t == self.targets,
                seed == t.seed(files@),
                n == t.len(),
                flags@.len() == n,
                seed_flags.len() == n,
                forall|i: int| 0 <= i < n ==> seed_flags[i] == t.hit_by(i, files@),
                forall|i: int| 0 <= i < n && seed_flags[i] ==> flags@[i],
                forall|i: int| 0 <= i < n && flags@[i] ==> t.forced(seed, #[trigger] t.name(i)),
                iterations <= count_true(flags@),
                count_true(flags@) <= n,
                flag_set(t, flags@) == t.iterate(seed, iterations as nat),
            ensures
                flag_set(t, flags@) == t.iterate(seed, iterations as nat),
                flags@.len() == n,
                forall|i: int| 0 <= i < n && seed_flags[i] ==> flags@[i],
                forall|i: int| 0 <= i < n && flags@[i] ==> t.forced(seed, #[trigger] t.name(i)),
                forall|i: int| 0 <= i < n && !flags@[i] ==> !triggered(t, flags@, i),
                iterations <= n,
            decreases n - count_true(flags@),
        {
            let cand = self.test_inactive_targets(&flags);
            if cand.len() == 0 {
                assert forall|i: int| 0 <= i < n && !flags@[i] implies !triggered(t, flags@, i) by {
                    if triggered(t, flags@, i) {
                        assert(cand@.contains(i as usize));
                    }
                }
                break;
            }
            let ghost prev = flags@;
            let mut j: usize = 0;
            while j < cand.len()
                invariant
                    n == t.len(),
                    prev.len() == n,
                    flags@.len() == n,
                    j <= cand@.len(),
                    cand@.len() > 0,
                    forall|x: int| 0 <= x < cand@.len() ==> {
                        &&& cand@[x] < n
                        &&& !prev[cand@[x] as int]
                        &&& triggered(t, prev, cand@[x] as int)
                    },
                    forall|i: int| 0 <= i < n && prev[i] ==> flags@[i],
                    forall|i: int| 0 <= i < n && flags@[i] ==> prev[i] || triggered(t, prev, i),
                    count_true(flags@) >= count_true(prev) + if j > 0 { 1nat } else { 0nat },
                    j == 0 ==> flags@ == prev,
                    forall|x: int| 0 <= x < j ==> flags@[#[trigger] cand@[x] as int],
                decreases cand.len() - j,
            {
                let c = cand[j];
                proof {
                    lemma_count_set(flags@, c as int);
                }
                flags.set(c, true);
                j = j + 1;
            }
            proof {
                assert forall|i: int| 0 <= i < n && flags@[i] implies t.forced(seed, #[trigger] t.name(i)) by {
                    if !prev[i] {
                        let k = choose|k: int| 0 <= k < t.target(i).activated_by@.len()
                            && #[trigger] flag_set(t, prev).contains(t.target(i).activated_by@[k]@);
                        let a = t.target(i).activated_by@[k]@;
                        let i2 = choose|i2: int| 0 <= i2 < t.len() && prev[i2] && #[trigger] t.name(i2) == a;
                        assert(t.forced(seed, t.name(i2)));
                        lemma_forced_step(t, seed, i, k);
                    }
                }
                lemma_count_bound(flags@);
                let ps = flag_set(t, prev);
                assert(flag_set(t, flags@) =~= t.step(ps)) by {
                    assert forall|m: Seq<char>| flag_set(t, flags@).contains(m) implies t.step(ps).contains(m) by {
                        let i = choose|i: int| 0 <= i < t.len() && flags@[i] && #[trigger] t.name(i) == m;
                        if !prev[i] {
                            let k = choose|k: int| 0 <= k < t.target(i).activated_by@.len()
                                && #[trigger] flag_set(t, prev).contains(t.target(i).activated_by@[k]@);
                            assert(ps.contains(t.target(i).activated_by@[k]@));
                        } else {
                            assert(ps.contains(m));
                        }
                    }
                    assert forall|m: Seq<char>| t.step(ps).contains(m) implies flag_set(t, flags@).contains(m) by {
                        if ps.contains(m) {
                            let i = choose|i: int| 0 <= i < t.len() && prev[i] && #[trigger] t.name(i) == m;
                            assert(flags@[i]);
                        } else {
                            let (i, k) = choose|i: int, k: int| 0 <= i < t.len() && #[trigger] t.name(i) == m
                                && 0 <= k < t.target(i).activated_by@.len()
                                && ps.contains(#[trigger] t.target(i).activated_by@[k]@);
                            assert(triggered(t, prev, i));
                            if !prev[i] {
                                assert(cand@.contains(i as usize));
                                let x = choose|x: int| 0 <= x < cand@.len() && cand@[x] == i as usize;
                                assert(flags@[cand@[x] as int]);
                            }
                            assert(flags@[i]);
                        }
                    }
                }
            }
            iterations = iterations + 1;
        }
        proof {
            let s = flag_set(t, flags@);
            assert(t.closed(s)) by {
                assert forall|i: int, k: int|
                    0 <= i < t.len() && 0 <= k < t.target(i).activated_by@.len()
                        && s.contains(#[trigger] t.target(i).activated_by@[k]@)
                    implies s.contains(t.name(i)) by {
                    assert(triggered(t, flags@, i));
                    assert(flags@[i]);
                }
            }
            assert(seed.subset_of(s)) by {
                assert forall|m: Seq<char>| seed.contains(m) implies s.contains(m) by {
                    let i = choose|i: int| 0 <= i < t.len() && #[trigger] t.name(i) == m && t.hit_by(i, files@);
                    assert(flags@[i]);
                }
            }
            assert(s =~= t.resolved(files@)) by {
                assert forall|m: Seq<char>| t.resolved(files@).contains(m) implies s.contains(m) by {
                    assert(t.forced(seed, m));
                }
            }
        }
        (flags, iterations)
    }

    /// Resolves the changed files into the activated targets: every target
    /// that one of the files matches, and, transitively, every target that
    /// lists an activated target among its activators. What an earlier
    /// resolution left is discarded. Returns the number of expansions
    /// performed: the activated set is the directly matched set after that
    /// many expansions, and the number never exceeds the number of targets.
    pub fn resolve(&mut self, changed_files: &Vec<String>) -> (iterations: usize)
        requires
            old(self).wf(),
        ensures
            final(self).wf(),
            final(self).config() == old(self).config(),
            final(self).activated_set() == old(self).config().resolved(changed_files@),
            final(self).activated_set() == old(self).config().iterate(
                old(self).config().seed(changed_files@),
                iterations as nat,
            ),
            iterations <= old(self).config().len(),
    {
        let (flags, iterations) = self.activation(changed_files);
        self.activated = flags;
        iterations
    }

    /// Every target, in configuration order, with whether the last
    /// resolution activated it.
    pub fn activated_targets(&self) -> (r: Vec<(String, bool)>)
        requires
            self.wf(),
        ensures
            r@.len() == self.config().len(),
            forall|i: int| 0 <= i < r@.len() ==> {
                &&& (#[trigger] r@[i]).0@ == self.config().name(i)
                &&& r@[i].1 == self.activated_set().contains(self.config().name(i))
            },
    {
        let mut r: Vec<(String, bool)> = Vec::new();
        let mut i: usize = 0;
        while i < self.targets.targets.len()
            invariant
                self.wf(),
                i <= self.targets.len(),
                r@.len() == i,
                forall|a: int| 0 <= a < i ==> {
                    &&& (#[trigger] r@[a]).0@ == self.targets.name(a)
                    &&& r@[a].1 == self.activated@[a]
                },
            decreases self.targets.targets.len() - i,
        {
            r.push((self.targets.targets[i].0.clone(), self.activated[i]));
            i = i + 1;
        }
        proof {
            let t = self.targets;
            assert forall|a: int| 0 <= a < r@.len() implies r@[a].1 == flag_set(t, self.activated@).contains(t.name(a)) by {
                if flag_set(t, self.activated@).contains(t.name(a)) {
                    let b = choose|b: int| 0 <= b < t.len() && self.activated@[b] && #[trigger] t.name(b) == t.name(a);
                    assert(b == a);
                }
            }
        }
        r
    }
    /// The report of every target, in configuration order: a target is
    /// changed when the last resolution activated it or when `force` is set,
    /// and is then built from `head_sha`, else from `merge_base_sha`.
    pub fn target_outputs(&self, head_sha: &String, merge_base_sha: &String, force: bool) -> (r: Vec<(String, TargetOutput)>)
        requires
            self.wf(),
        ensures
            r@.len() == self.config().len(),
            forall|i: int| 0 <= i < r@.len() ==> {
                &&& (#[trigger] r@[i]).0@ == self.config().name(i)
                &&& r@[i].1.changed == (force || self.activated_set().contains(self.config().name(i)))
                &&& r@[i].1.sha@ == if r@[i].1.changed { head_sha@ } else { merge_base_sha@ }
            },
    {
        let flags = self.activated_targets();
        let mut r: Vec<(String, TargetOutput)> = Vec::new();
        let mut i: usize = 0;
        while i < flags.len()
            invariant
                self.wf(),
                flags@.len() == self.config().len(),
                forall|a: int| 0 <= a < flags@.len() ==> {
                    &&& (#[trigger] flags@[a]).0@ == self.config().name(a)
                    &&& flags@[a].1 == self.activated_set().contains(self.config().name(a))
                },
                i <= flags@.len(),
                r@.len() == i,
                forall|a: int| 0 <= a < i ==> {
                    &&& (#[trigger] r@[a]).0@ == self.config().name(a)
                    &&& r@[a].1.changed == (force || self.activated_set().contains(self.config().name(a)))
                    &&& r@[a].1.sha@ == if r@[a].1.changed { head_sha@ } else { merge_base_sha@ }
                },
            decreases flags.len() - i,
        {
            let changed = force || flags[i].1;
            let sha = if changed { head_sha.clone() } else { merge_base_sha.clone() };
            r.push((flags[i].0.clone(), TargetOutput { changed, sha }));
            i = i + 1;
        }
        r
    }
    /// The names of the targets, in configuration order, that have a pattern
    /// matching `path`. Each name appears once.
    pub fn test_path(&self, path: &str) -> (r: Vec<String>)
        requires
            self.wf(),
        ensures
            r@.len() <= self.config().len(),
            forall|x: int| 0 <= x < r@.len() ==> self.config().names_hit(#[trigger] r@[x]@, path@),
            forall|i: int| 0 <= i < self.config().len() && #[trigger] self.config().target(i).hit(path@)
                ==> lists(r@, self.config().name(i)),
            forall|x: int, y: int| 0 <= x < y < r@.len() ==> r@[x]@ != r@[y]@,
    {
        let ghost t = self.targets;
        let h = pattern_hits(&self.targets, &self.path_to_activator, path);
        let mut r: Vec<String> = Vec::new();
        let ghost mut idx: Seq<int> = Seq::empty();
        let mut i: usize = 0;
        while i < self.targets.targets.len()
            invariant
                self.wf(),
                t == self.targets,
                i <= t.len(),
                h@.len() == t.len(),
                forall|a: int| 0 <= a < t.len() ==> h@[a] == t.target(a).hit(path@),
                r@.len() == idx.len(),
                r@.len() <= i,
                forall|x: int| 0 <= x < idx.len() ==> 0 <= #[trigger] idx[x] < i && t.name(idx[x]) == r@[x]@
                    && t.target(idx[x]).hit(path@),
                forall|x: int, y: int| 0 <= x < y < idx.len() ==> idx[x] < idx[y],
                forall|a: int| 0 <= a < i && #[trigger] t.target(a).hit(path@) ==> lists(r@, t.name(a)),
            decreases self.targets.targets.len() - i,
        {
            assert(t.target(i as int).patterns_valid());
            let ghost old_r = r@;
            if self.targets.targets[i].1.matches(path) {
                r.push(self.targets.targets[i].0.clone());
                proof {
                    idx = idx.push(i as int);
                    assert(r@[r@.len() - 1]@ == t.name(i as int));
                }
            }
            proof {
                assert forall|a: int| 0 <= a <= i && #[trigger] t.target(a).hit(path@)
                    implies lists(r@, t.name(a)) by {
                    if a < i {
                        let x = choose|x: int| 0 <= x < old_r.len() && old_r[x]@ == t.name(a);
                        assert(r@[x] == old_r[x]);
                    } else {
                        assert(r@[r@.len() - 1]@ == t.name(i as int));
                    }
                }
            }
            i = i + 1;
        }
        proof {
            assert(t == self.config());
            assert forall|x: int| 0 <= x < r@.len() implies t.names_hit(#[trigger] r@[x]@, path@) by {
                assert(t.name(idx[x]) == r@[x]@);
                assert(t.target(idx[x]).hit(path@));
            }
            assert forall|x: int, y: int| 0 <= x < y < r@.len() implies r@[x]@ != r@[y]@ by {
                assert(idx[x] < idx[y]);
                assert(t.name(idx[x]) != t.name(idx[y]));
            }
        }
        r
    }
}

} // verus!
