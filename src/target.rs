//! The configuration data: targets with their patterns and activators.

use vstd::prelude::*;
use crate::pattern::{glob_valid, glob_match, glob_is_valid, glob_matches};

verus! {

/// One build or deploy target.
///
/// `path` is always one of the target's patterns, used verbatim; `globs` and
/// `activated_by` are read as sets: their order and repetitions do not matter.
#[derive(Debug, Clone)]
pub struct Target {
    pub path: String,
    pub globs: Vec<String>,
    pub activated_by: Vec<String>,
}

impl Target {
    /// `p` is one of the target's patterns: its path or one of its globs.
    pub open spec fn has_pattern(self, p: Seq<char>) -> bool {
        p == self.path@ || exists|k: int| 0 <= k < self.globs@.len() && #[trigger] self.globs@[k]@ == p
    }

    /// Every pattern of the target is accepted by the glob parser.
    pub open spec fn patterns_valid(self) -> bool {
        &&& glob_valid(self.path@)
        &&& forall|k: int| 0 <= k < self.globs@.len() ==> glob_valid(#[trigger] self.globs@[k]@)
    }

    /// Some pattern of the target matches the changed file `file`.
    pub open spec fn hit(self, file: Seq<char>) -> bool {
        glob_match(self.path@, file)
            || exists|k: int| 0 <= k < self.globs@.len() && glob_match(#[trigger] self.globs@[k]@, file)
    }

    /// The target lists `a` among its activators.
    pub open spec fn has_activator(self, a: Seq<char>) -> bool {
        exists|k: int| 0 <= k < self.activated_by@.len() && #[trigger] self.activated_by@[k]@ == a
    }

    /// Whether any pattern of the target matches `file`.
    pub fn matches(&self, file: &str) -> (r: bool)
        requires
            self.patterns_valid(),
        ensures
            r == self.hit(file@),
    {
        if glob_matches(self.path.as_str(), file) {
            return true;
        }
        let mut k: usize = 0;
        while k < self.globs.len()
            invariant
                self.patterns_valid(),
                k <= self.globs@.len(),
                !glob_match(self.path@, file@),
                forall|j: int| 0 <= j < k ==> !glob_match(#[trigger] self.globs@[j]@, file@),
            decreases self.globs.len() - k,
        {
            if glob_matches(self.globs[k].as_str(), file) {
                return true;
            }
            k = k + 1;
        }
        false
    }

    /// The first pattern of the target that the glob parser refuses, if any.
    pub fn invalid_pattern(&self) -> (r: Option<String>)
        ensures
            r is None <==> self.patterns_valid(),
            r matches Some(p) ==> self.has_pattern(p@) && !glob_valid(p@),
    {
        if !glob_is_valid(self.path.as_str()) {
            return Some(self.path.clone());
        }
        let mut k: usize = 0;
        while k < self.globs.len()
            invariant
                k <= self.globs@.len(),
                glob_valid(self.path@),
                forall|j: int| 0 <= j < k ==> glob_valid(#[trigger] self.globs@[j]@),
            decreases self.globs.len() - k,
        {
            if !glob_is_valid(self.globs[k].as_str()) {
                return Some(self.globs[k].clone());
            }
            k = k + 1;
        }
        None
    }
}

/// The whole configuration: the default comparison reference and the targets,
/// each under its name.
#[derive(Debug, Clone)]
pub struct Targets {
    pub base: String,
    pub targets: Vec<(String, Target)>,
}

impl Targets {
    pub open spec fn len(self) -> int {
        self.targets@.len() as int
    }

    /// The name of the target at position `i`.
    pub open spec fn name(self, i: int) -> Seq<char> {
        self.targets@[i].0@
    }

    /// The target at position `i`.
    pub open spec fn target(self, i: int) -> Target {
        self.targets@[i].1
    }

    /// No two targets share a name.
    pub open spec fn names_unique(self) -> bool {
        forall|i: int, j: int|
            0 <= i < self.len() && 0 <= j < self.len() && i != j ==> self.name(i) != self.name(j)
    }

    /// Every pattern of every target is accepted by the glob parser.
    pub open spec fn patterns_valid(self) -> bool {
        forall|i: int| 0 <= i < self.len() ==> (#[trigger] self.target(i)).patterns_valid()
    }

    /// What a loaded manifest requires of its configuration.
    pub open spec fn well_formed(self) -> bool {
        self.names_unique() && self.patterns_valid()
    }

    /// `n` is the name of some target.
    pub open spec fn has_name(self, n: Seq<char>) -> bool {
        exists|i: int| 0 <= i < self.len() && #[trigger] self.name(i) == n
    }

    /// Some target named `n` has a pattern that matches `file`.
    pub open spec fn names_hit(self, n: Seq<char>, file: Seq<char>) -> bool {
        exists|i: int| 0 <= i < self.len() && #[trigger] self.name(i) == n && self.target(i).hit(file)
    }

    /// Target `i` is matched by one of the changed files.
    pub open spec fn hit_by(self, i: int, files: Seq<String>) -> bool {
        exists|f: int| 0 <= f < files.len() && #[trigger] self.target(i).hit(files[f]@)
    }

    /// The targets that the changed files activate directly, through their
    /// patterns.
    pub open spec fn seed(self, files: Seq<String>) -> Set<Seq<char>> {
        Set::new(|n: Seq<char>| exists|i: int| 0 <= i < self.len() && #[trigger] self.name(i) == n && self.hit_by(i, files))
    }

    /// A set of names is closed when every target that lists a member of it
    /// among its activators is a member too.
    pub open spec fn closed(self, s: Set<Seq<char>>) -> bool {
        forall|i: int, k: int|
            0 <= i < self.len() && 0 <= k < self.target(i).activated_by@.len()
                && s.contains(#[trigger] self.target(i).activated_by@[k]@)
                ==> s.contains(self.name(i))
    }

    /// `n` lies in every closed set that holds all of `seed`.
    pub open spec fn forced(self, seed: Set<Seq<char>>, n: Seq<char>) -> bool {
        forall|x: Set<Seq<char>>| seed.subset_of(x) && self.closed(x) ==> #[trigger] x.contains(n)
    }

    /// The targets that the changed files activate: the least closed set of
    /// names that holds every target matched directly.
    pub open spec fn resolved(self, files: Seq<String>) -> Set<Seq<char>> {
        Set::new(|n: Seq<char>| self.forced(self.seed(files), n))
    }

    /// One expansion: `s` together with every target that lists a member of
    /// `s` among its activators.
    pub open spec fn step(self, s: Set<Seq<char>>) -> Set<Seq<char>> {
        s.union(Set::new(|n: Seq<char>| exists|i: int, k: int|
            0 <= i < self.len() && #[trigger] self.name(i) == n
                && 0 <= k < self.target(i).activated_by@.len()
                && s.contains(#[trigger] self.target(i).activated_by@[k]@)))
    }

    /// `s` after `k` expansions.
    pub open spec fn iterate(self, s: Set<Seq<char>>, k: nat) -> Set<Seq<char>>
        decreases k,
    {
        if k == 0 {
            s
        } else {
            self.step(self.iterate(s, (k - 1) as nat))
        }
    }
}

} // verus!
