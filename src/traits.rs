use crate::sharedlist::SharedList;
use vstd::multiset::Multiset;
use vstd::prelude::*;
use vstd::std_specs::cmp::PartialEqSpec;

verus! {

/// A configuration of a searchable domain.
pub trait State: Sized + Clone + Eq + core::hash::Hash {
    type Point: Copy;

    /// The states reachable in one transition, in the order `next` yields them.
    spec fn successors(&self) -> Seq<Self>;

    /// The (expected point, actual point) pairs that `differences` yields.
    spec fn spec_differences(&self) -> Seq<(Self::Point, Self::Point)>;

    fn next(&self) -> (r: Vec<Self>)
        ensures
            r@ == self.successors(),
    ;

    fn differences(&self) -> (r: Vec<(Self::Point, Self::Point)>)
        ensures
            r@ == self.spec_differences(),
    ;

    /// `==` is equality of values, and a clone equals the value it was made from.
    proof fn lemma_exact_copies()
        ensures
            Self::obeys_eq_spec(),
            forall|a: Self, b: Self| (#[trigger] a.eq_spec(&b) <==> a == b),
            forall|a: Self, b: Self| #[trigger] call_ensures(Self::clone, (&a,), b) ==> a == b,
    ;
}

/// A search driver: it owns a start and a goal and is consumed by one search.
pub trait Solver<S: State>: Sized {
    spec fn start(&self) -> S;

    spec fn goal(&self) -> S;

    /// Finds one path from the start to the goal, and counts the states it expanded.
    fn find_one_with_checks<SB: StateBox<S>>(self) -> (r: Option<(Vec<S>, usize)>)
        ensures
            self.start() == self.goal() ==> (r matches Some((p, n)) && p@ == seq![self.start()]
                && n == 0),
            r matches Some((p, n)) ==> path_between(p@, self.start(), self.goal()),
            r matches Some((p, n)) ==> (self.start() != self.goal() ==> n >= 1),
            r matches Some((p, n)) ==> p@.no_duplicates(),
            r matches Some((p, n)) ==> (self.start() != self.goal() ==> exists|t: Seq<S>|
                expansion_record(t, self.start(), self.goal(), p@, n as int)),
            self.start() != self.goal() && is_step(self.start(), self.goal()) ==> (r matches Some(
                (p, n),
            ) && p@ == seq![self.start(), self.goal()] && n == 1),
            r is None <==> !reachable(self.start(), self.goal()),
            depth_ordered::<S, SB>() ==> (r matches Some((p, n)) ==> shortest(
                p@,
                self.start(),
                self.goal(),
            )),
    ;

    /// Finds one path from the start to the goal.
    fn find_one<SB: StateBox<S>>(self) -> (r: Option<Vec<S>>)
        ensures
            self.start() == self.goal() ==> (r matches Some(p) && p@ == seq![self.start()]),
            r matches Some(p) ==> path_between(p@, self.start(), self.goal()),
            r matches Some(p) ==> p@.no_duplicates(),
            self.start() != self.goal() && is_step(self.start(), self.goal()) ==> (r matches Some(p)
                && p@ == seq![self.start(), self.goal()]),
            r is None <==> !reachable(self.start(), self.goal()),
            depth_ordered::<S, SB>() ==> (r matches Some(p) ==> shortest(
                p@,
                self.start(),
                self.goal(),
            )),
    ;

    /// Finds every path to the goal that the search meets while it drains the frontier: each
    /// time the goal is a successor of an expanded state, the path through that state.
    fn find_all<SB: StateBox<S>>(self) -> (r: Vec<Vec<S>>)
        ensures
            forall|i: int|
                0 <= i < r@.len() ==> path_between(#[trigger] r@[i]@, self.start(), self.goal()),
            self.start() == self.goal() ==> (r@.len() >= 1 && r@[0]@ == seq![self.start()]),
            r@.len() == 0 <==> !reachable(self.start(), self.goal()),
            forall|s: S|
                reachable(self.start(), s) && #[trigger] is_step(s, self.goal()) ==> reported(r@, s),
            (forall|u: S| #[trigger] u.successors().no_duplicates()) ==> forall|j: int, k: int|
                0 <= j < k < r@.len() ==> (#[trigger] r@[j])@ != (#[trigger] r@[k])@,
            depth_ordered::<S, SB>() ==> forall|j: int, k: int|
                0 <= j < k < r@.len() ==> (#[trigger] r@[j])@.len() <= (#[trigger] r@[k])@.len(),
            depth_ordered::<S, SB>() ==> (r@.len() > 0 ==> shortest(
                r@[0]@,
                self.start(),
                self.goal(),
            )),
    ;
}

/// A frontier of pending (state, history) pairs; implementations differ in which pair `pop`
/// hands out.
pub trait StateBox<S: State>: Sized {
    spec fn wf(&self) -> bool;

    /// The pending pairs, each history as the sequence of its values.
    spec fn entries(&self) -> Multiset<(S, Seq<S>)>;

    /// `e` is a pair that this frontier's `pop` may hand out next.
    spec fn next_out(&self, e: (S, Seq<S>)) -> bool;

    /// Whether pairs leave in the order they came in.
    spec fn first_in_first_out() -> bool;

    /// Whether `pop` hands out a pair whose history is no longer than any other pending one.
    spec fn shallowest_first() -> bool;

    /// Whether the pair that came in last leaves first.
    spec fn last_in_first_out() -> bool;

    /// The pending pairs in the order they came in; it describes the frontier where
    /// `first_in_first_out` or `last_in_first_out` holds.
    spec fn queue(&self) -> Seq<(S, Seq<S>)>;

    /// Where pairs leave in or against the order they came in, the queue holds exactly the
    /// pending pairs.
    proof fn lemma_queue_holds_entries(&self)
        requires
            self.wf(),
            Self::first_in_first_out() || Self::last_in_first_out(),
        ensures
            forall|e: (S, Seq<S>)| #[trigger] self.entries().count(e) > 0 <==> self.queue().contains(e),
    ;

    fn init(state: S) -> (r: Self)
        ensures
            r.wf(),
            r.entries() =~= Multiset::singleton((state, Seq::<S>::empty())),
            Self::first_in_first_out() || Self::last_in_first_out() ==> r.queue() == seq![
                (state, Seq::<S>::empty()),
            ],
    ;

    fn insert(&mut self, state: S, history: SharedList<S>)
        requires
            old(self).wf(),
            history.wf(),
        ensures
            final(self).wf(),
            final(self).entries() =~= old(self).entries().insert((state, history@)),
            Self::first_in_first_out() || Self::last_in_first_out() ==> final(self).queue() == old(
                self,
            ).queue().push((state, history@)),
    ;

    fn pop(&mut self) -> (r: Option<(S, SharedList<S>)>)
        requires
            old(self).wf(),
        ensures
            final(self).wf(),
            r is None <==> old(self).entries().len() == 0,
            r is None ==> final(self).entries() =~= old(self).entries(),
            r matches Some((s, h)) ==> old(self).next_out((s, h@)),
            Self::first_in_first_out() ==> (r matches Some((s, h)) ==> old(self).queue().len() > 0
                && (s, h@) == old(self).queue()[0] && final(self).queue() == old(
                self,
            ).queue().drop_first()),
            Self::shallowest_first() ==> (r matches Some((s, h)) ==> forall|f: (S, Seq<S>)|
                #[trigger] old(self).entries().count(f) > 0 ==> h@.len() <= f.1.len()),
            Self::last_in_first_out() ==> (r matches Some((s, h)) ==> old(self).queue().len() > 0
                && (s, h@) == old(self).queue().last() && final(self).queue() == old(
                self,
            ).queue().drop_last()),
            r matches Some((s, h)) ==> h.wf() && old(self).entries() =~= final(self).entries().insert(
                (s, h@),
            ),
    ;
}

/// A distance between two points of a domain.
pub trait Distance: Clone + Eq + core::hash::Hash {
    type Point;

    spec fn spec_distance(a: Self::Point, b: Self::Point) -> int;

    fn distance(a: Self::Point, b: Self::Point) -> (r: u64)
        ensures
            r as int == Self::spec_distance(a, b),
    ;
}

/// `b` is one of the states that `a` leads to in one transition.
pub open spec fn is_step<S: State>(a: S, b: S) -> bool {
    a.successors().contains(b)
}

/// Each state of `p` leads to the next in one transition.
pub open spec fn is_path<S: State>(p: Seq<S>) -> bool {
    forall|i: int, j: int| 0 <= i && j == i + 1 && j < p.len() ==> #[trigger] is_step(p[i], p[j])
}

/// `p` is a non-empty path that starts at `from` and ends at `to`.
pub open spec fn path_between<S: State>(p: Seq<S>, from: S, to: S) -> bool {
    &&& p.len() >= 1
    &&& p[0] == from
    &&& p.last() == to
    &&& is_path(p)
}

/// The frontier hands pairs out by increasing history length: first in, first out (while every
/// pair is inserted one level below the one expanded), or always a shallowest pair.
pub open spec fn depth_ordered<S: State, SB: StateBox<S>>() -> bool {
    SB::first_in_first_out() || SB::shallowest_first()
}

/// `n`, capped at `usize::MAX`.
pub open spec fn min_usize(n: int) -> int {
    if n > usize::MAX {
        usize::MAX as int
    } else {
        n
    }
}

/// `t` can be the sequence of states that a search from `start` to `goal` expanded, in order,
/// when it returned the path `p` after `n` expansions: `n` states (a count that stops at
/// `usize::MAX`), none twice, the start first, each reachable from the start and none the
/// goal, none but the last with the goal among its successors, the last one `p`'s
/// next-to-last state, and among them every state of `p` but its last.
pub open spec fn expansion_record<S: State>(t: Seq<S>, start: S, goal: S, p: Seq<S>, n: int) -> bool {
    &&& n == min_usize(t.len() as int)
    &&& t.no_duplicates()
    &&& t.len() > 0 ==> t[0] == start && t.last() == p[p.len() - 2]
    &&& forall|i: int| 0 <= i < t.len() ==> reachable(start, #[trigger] t[i]) && t[i] != goal
    &&& forall|i: int| 0 <= i < t.len() - 1 ==> !is_step(#[trigger] t[i], goal)
    &&& forall|i: int| 0 <= i < p.len() - 1 ==> t.contains(#[trigger] p[i])
}

/// Some path in `paths` reaches its last state straight from `s`.
pub open spec fn reported<S>(paths: Seq<Vec<S>>, s: S) -> bool {
    exists|k: int| 0 <= k < paths.len() && paths[k]@.len() >= 2 && #[trigger] paths[k]@[paths[k]@.len() - 2] == s
}

/// No path from `from` to `to` has fewer states than `p`.
pub open spec fn shortest<S: State>(p: Seq<S>, from: S, to: S) -> bool {
    forall|q: Seq<S>| #[trigger] path_between(q, from, to) ==> p.len() <= q.len()
}

/// Some path leads from `from` to `to`.
pub open spec fn reachable<S: State>(from: S, to: S) -> bool {
    exists|p: Seq<S>| path_between(p, from, to)
}

/// Sum of `D`'s distances over a sequence of point pairs, saturating at `u64::MAX`.
pub open spec fn total_distance<D: Distance>(pairs: Seq<(D::Point, D::Point)>) -> int
    decreases pairs.len(),
{
    if pairs.len() == 0 {
        0
    } else {
        let rest = total_distance::<D>(pairs.drop_last());
        let d = D::spec_distance(pairs.last().0, pairs.last().1);
        if rest + d > u64::MAX {
            u64::MAX as int
        } else {
            rest + d
        }
    }
}

/// The heuristic score of a state: the saturated sum of its point distances.
pub open spec fn heuristic<S: State<Point = P>, D: Distance<Point = P>, P>(s: S) -> int {
    total_distance::<D>(s.spec_differences())
}

/// What a sequence holds after a push.
pub(crate) proof fn lemma_push_contains<A>(s: Seq<A>, x: A)
    ensures
        forall|t: A| #[trigger] s.push(x).contains(t) <==> (s.contains(t) || t == x),
{
    assert forall|t: A| #[trigger] s.push(x).contains(t) <==> (s.contains(t) || t == x) by {
        if s.contains(t) {
            let k = choose|k: int| 0 <= k < s.len() && s[k] == t;
            assert(s.push(x)[k] == t);
        }
        if t == x {
            assert(s.push(x)[s.len() as int] == t);
        }
        if s.push(x).contains(t) {
            let k = choose|k: int| 0 <= k < s.len() + 1 && s.push(x)[k] == t;
            if k < s.len() {
                assert(s[k] == t);
            }
        }
    }
}

} // verus!
