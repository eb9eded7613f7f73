//! The generic depth-first backtracking engine. It is written against a
//! capability contract: any state type that can enumerate candidate successor
//! states, recognise a solution, and record itself in a set of hash strings
//! can be searched. The engine owns the explored-state set and the solution
//! collection; states whose hash views intersect the explored set are pruned,
//! and a solution is recorded only when none of its hash views has been seen,
//! so the recorded solutions are pairwise distinct under the hash relation.

use vstd::hash_set::StringHashSet;
use vstd::prelude::*;

verus! {

/// Some view string of a candidate is already present in a set of explored
/// hash strings.
pub open spec fn views_overlap(views: Set<Seq<char>>, explored: Set<Seq<char>>) -> bool {
    exists|v: Seq<char>| views.contains(v) && explored.contains(v)
}

/// The capability contract a domain state type satisfies to be searched by
/// the [`Solver`].
pub trait Backtrackable: Sized {
    /// The domain type's own validity invariant.
    spec fn inv(&self) -> bool;

    /// The hash strings under which this state is recorded and recognised.
    spec fn hash_views_set(&self) -> Set<Seq<char>>;

    /// Whether the state is a solution.
    spec fn spec_solved(&self) -> bool;

    /// An upper bound on the remaining search depth below this state; every
    /// candidate successor must strictly lower it.
    spec fn measure(&self) -> nat;

    /// The candidate successor states of this state.
    fn get_next_candidates(&self) -> (r: Vec<Self>)
        requires
            self.inv(),
        ensures
            forall|i: int|
                0 <= i < r@.len() ==> (#[trigger] r@[i]).inv() && r@[i].measure()
                    < self.measure(),
    ;

    /// Whether this state is a solution.
    fn is_solution(&self) -> (r: bool)
        requires
            self.inv(),
        ensures
            r == self.spec_solved(),
    ;

    /// Record this state's hash views in the given set.
    fn insert_explorations(&self, hash_set: &mut StringHashSet)
        ensures
            final(hash_set)@ == old(hash_set)@.union(self.hash_views_set()),
    ;

    /// Whether any of this state's hash views is in the given set.
    fn is_candidate_explored(&self, hash_set: &StringHashSet) -> (r: bool)
        ensures
            r == views_overlap(self.hash_views_set(), hash_set@),
    ;

    /// Every state has at least one hash view: without one it could be
    /// neither recorded nor recognised, and recorded solutions with empty
    /// view sets would count as distinct while being indistinguishable.
    proof fn hash_views_inhabited(&self)
        ensures
            exists|v: Seq<char>| self.hash_views_set().contains(v),
    ;

    /// A copy of this state that the solver cannot distinguish from it.
    fn duplicate(&self) -> (r: Self)
        ensures
            r.inv() == self.inv(),
            r.spec_solved() == self.spec_solved(),
            r.hash_views_set() == self.hash_views_set(),
            r.measure() == self.measure(),
    ;
}

/// Configuration of a solver run. Both options only steer the tracing that an
/// embedding program may perform around the search; they carry no semantic
/// role in the search itself.
pub struct SolverOpts {
    pub verbose: bool,
    /// A pause between search steps, in milliseconds, for human-paced traces.
    pub delay: Option<u64>,
}

impl Default for SolverOpts {
    /// Quiet, with no delay.
    fn default() -> (r: Self)
        ensures
            !r.verbose,
            r.delay is None,
    {
        SolverOpts { verbose: false, delay: None }
    }
}

/// The generic backtracking solver: the explored-state set and the collected
/// solutions, shared across the whole search tree.
pub struct Solver<T: Backtrackable> {
    pub opts: SolverOpts,
    pub explored_candidates: StringHashSet,
    pub solutions: Vec<T>,
}

impl<T: Backtrackable> Solver<T> {
    /// The solver's invariant: every recorded solution is a valid, solved
    /// state whose hash views have all been recorded as explored, and the
    /// hash-view sets of distinct solutions are pairwise disjoint — no two
    /// recorded solutions are equal under the hash relation.
    pub open spec fn inv(&self) -> bool {
        &&& forall|i: int|
            0 <= i < self.solutions@.len() ==> {
                &&& (#[trigger] self.solutions@[i]).inv()
                &&& self.solutions@[i].spec_solved()
                &&& self.solutions@[i].hash_views_set().subset_of(self.explored_candidates@)
            }
        &&& forall|i: int, j: int|
            0 <= i < j < self.solutions@.len() ==> (#[trigger] self.solutions@[i]).hash_views_set()
                .disjoint((#[trigger] self.solutions@[j]).hash_views_set())
    }

    /// A fresh solver: nothing explored, no solutions.
    pub fn new(opts: SolverOpts) -> (r: Self)
        ensures
            r.explored_candidates@ == Set::<Seq<char>>::empty(),
            r.solutions@.len() == 0,
            r.opts == opts,
            r.inv(),
    {
        Solver { opts, explored_candidates: StringHashSet::new(), solutions: Vec::new() }
    }

    /// Search the subtree rooted at `candidate` exhaustively: prune it if it
    /// has been explored, record it if it is an unseen solution, otherwise
    /// recurse into its not-yet-explored candidate successors (deduplicated
    /// within the batch) and finally record the candidate itself as explored.
    /// Previously recorded solutions are kept untouched, the explored set
    /// only grows, a candidate that was already explored changes nothing, an
    /// unseen solution is recorded, and on return the candidate always counts
    /// as explored, so no path ever re-expands this configuration.
    #[verifier::loop_isolation(false)]
    pub fn solve(&mut self, candidate: &T)
        requires
            old(self).inv(),
            candidate.inv(),
        ensures
            final(self).inv(),
            old(self).explored_candidates@.subset_of(final(self).explored_candidates@),
            final(self).solutions@.len() >= old(self).solutions@.len(),
            forall|i: int|
                0 <= i < old(self).solutions@.len() ==> final(self).solutions@[i] == old(
                    self,
                ).solutions@[i],
            views_overlap(candidate.hash_views_set(), final(self).explored_candidates@),
            views_overlap(candidate.hash_views_set(), old(self).explored_candidates@)
                ==> *final(self) == *old(self),
            candidate.spec_solved() && !views_overlap(
                candidate.hash_views_set(),
                old(self).explored_candidates@,
            ) ==> {
                &&& final(self).solutions@.len() == old(self).solutions@.len() + 1
                &&& final(self).solutions@.last().hash_views_set() == candidate.hash_views_set()
                &&& final(self).solutions@.last().spec_solved()
            },
        decreases candidate.measure(),
    {
        if candidate.is_candidate_explored(&self.explored_candidates) {
            return;
        }
        if candidate.is_solution() && !candidate.is_candidate_explored(
            &self.explored_candidates,
        ) {
            // An unseen solution: register its hash views, then record it.
            candidate.insert_explorations(&mut self.explored_candidates);
            let dup = candidate.duplicate();
            proof {
                assert forall|i: int| 0 <= i < self.solutions@.len() implies (
                #[trigger] self.solutions@[i]).hash_views_set().disjoint(dup.hash_views_set()) by {
                    assert forall|v: Seq<char>|
                        self.solutions@[i].hash_views_set().contains(v) implies !dup.hash_views_set()
                        .contains(v) by {
                        assert(old(self).explored_candidates@.contains(v));
                        if dup.hash_views_set().contains(v) {
                            assert(views_overlap(
                                candidate.hash_views_set(),
                                old(self).explored_candidates@,
                            ));
                        }
                    }
                }
            }
            self.solutions.push(dup);
            proof {
                candidate.hash_views_inhabited();
            }
            return;
        }
        let next_candidates = candidate.get_next_candidates();
        let mut unique_candidates = StringHashSet::new();
        let mut unexplored_candidates: Vec<usize> = Vec::new();
        let mut i: usize = 0;
        // Filter out candidates already explored globally, and deduplicate
        // candidates whose hash views collide within this same batch.
        while i < next_candidates.len()
            invariant
                i <= next_candidates.len(),
                forall|t: int|
                    0 <= t < unexplored_candidates@.len() ==> (#[trigger] unexplored_candidates@[t])
                        < next_candidates@.len(),
            decreases next_candidates.len() - i,
        {
            let c = &next_candidates[i];
            if !c.is_candidate_explored(&self.explored_candidates) && !c.is_candidate_explored(
                &unique_candidates,
            ) {
                c.insert_explorations(&mut unique_candidates);
                unexplored_candidates.push(i);
            }
            i += 1;
        }
        let mut j: usize = 0;
        while j < unexplored_candidates.len()
            invariant
                j <= unexplored_candidates.len(),
                self.inv(),
                old(self).explored_candidates@.subset_of(self.explored_candidates@),
                self.solutions@.len() >= old(self).solutions@.len(),
                forall|t: int|
                    0 <= t < old(self).solutions@.len() ==> self.solutions@[t] == old(
                        self,
                    ).solutions@[t],
                forall|t: int|
                    0 <= t < unexplored_candidates@.len() ==> (#[trigger] unexplored_candidates@[t])
                        < next_candidates@.len(),
            decreases unexplored_candidates.len() - j,
        {
            let idx = unexplored_candidates[j];
            self.solve(&next_candidates[idx]);
            j += 1;
        }
        // Post-order: record the candidate itself so no other path re-expands
        // this configuration later in the search.
        let ghost pre = *self;
        candidate.insert_explorations(&mut self.explored_candidates);
        proof {
            candidate.hash_views_inhabited();
            assert forall|t: int| 0 <= t < self.solutions@.len() implies (
            #[trigger] self.solutions@[t]).hash_views_set().subset_of(
                self.explored_candidates@,
            ) by {
                assert(self.solutions@[t].hash_views_set().subset_of(pre.explored_candidates@));
            }
        }
    }
}

/// Idempotence of recording: re-inserting hash views that are already in the
/// explored set leaves the set, and therefore the outcome of every later
/// explored-check, unchanged.
pub proof fn lemma_reinsert_explored_idempotent(
    views: Set<Seq<char>>,
    explored: Set<Seq<char>>,
    other: Set<Seq<char>>,
)
    requires
        views.subset_of(explored),
    ensures
        explored.union(views) == explored,
        views_overlap(other, explored.union(views)) == views_overlap(other, explored),
{
    assert(explored.union(views) =~= explored);
}

} // verus!
