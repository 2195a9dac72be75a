use crate::sharedlist::SharedList;
use crate::traits::{heuristic, total_distance, Distance, State, StateBox};
use std::marker::PhantomData;
use std::collections::VecDeque;
use vstd::multiset::Multiset;
use vstd::prelude::*;
use vstd::seq_lib::group_to_multiset_ensures;

verus! {

broadcast use vstd::multiset::group_multiset_axioms;

/// Breadth-first frontier: pairs leave in the order they came in.
pub struct BFSBox<S: State> {
    inner: VecDeque<(S, SharedList<S>)>,
}

/// Depth-first frontier: the pair that came in last leaves first.
pub struct DFSBox<S: State> {
    inner: Vec<(S, SharedList<S>)>,
}

/// Heuristic-guided frontier: the pair with the least heuristic score plus history length
/// leaves first.
#[verifier::reject_recursive_types(Diff)]
pub struct AStarBox<S: State<Point = Diff>, D: Distance<Point = Diff>, Diff> {
    inner: Vec<Scored<S>>,
    _dist: PhantomData<D>,
}

/// Depth-bucketed frontier: bucket `k` holds the pairs whose history has length `k`; the
/// pair with the least heuristic score in the shallowest non-empty bucket leaves first.
#[verifier::reject_recursive_types(Diff)]
pub struct StaggeredBox<S: State<Point = Diff>, D: Distance<Point = Diff>, Diff> {
    inner: Vec<Vec<Scored<S>>>,
    _dist: PhantomData<D>,
}

/// A pending pair and the score its frontier orders it by.
struct Scored<S> {
    score: u64,
    state: S,
    history: SharedList<S>,
}

/// The A* score of a pair: heuristic plus history length, saturating at `u64::MAX`.
pub open spec fn astar_score<S: State<Point = P>, D: Distance<Point = P>, P>(e: (S, Seq<S>)) -> int {
    let t = heuristic::<S, D, P>(e.0) + e.1.len();
    if t > u64::MAX {
        u64::MAX as int
    } else {
        t
    }
}

/// `e` comes no later than `f` in the depth-bucketed order: shallower first, then by
/// heuristic score.
pub open spec fn staggered_before<S: State<Point = P>, D: Distance<Point = P>, P>(
    e: (S, Seq<S>),
    f: (S, Seq<S>),
) -> bool {
    e.1.len() < f.1.len() || (e.1.len() == f.1.len() && heuristic::<S, D, P>(e.0)
        <= heuristic::<S, D, P>(f.0))
}

/// The score of `s` under `D`: the saturated sum of the distances of its point pairs.
fn heuristic_of<S: State<Point = P>, D: Distance<Point = P>, P: Copy>(s: &S) -> (r: u64)
    ensures
        r as int == heuristic::<S, D, P>(*s),
{
    let pairs = s.differences();
    let mut acc: u64 = 0;
    let mut i: usize = 0;
    while i < pairs.len()
        invariant
            pairs@ == s.spec_differences(),
            i <= pairs@.len(),
            acc as int == total_distance::<D>(pairs@.take(i as int)),
        decreases pairs@.len() - i,
    {
        let (a, b) = pairs[i];
        let d = D::distance(a, b);
        proof {
            assert(pairs@.take(i + 1).drop_last() =~= pairs@.take(i as int));
        }
        acc = acc.saturating_add(d);
        i = i + 1;
    }
    assert(pairs@.take(i as int) =~= pairs@);
    acc
}

spec fn scored_view<S>(e: Scored<S>) -> (S, Seq<S>) {
    (e.state, e.history@)
}

spec fn scored_bag<S>(q: Seq<Scored<S>>) -> Multiset<(S, Seq<S>)> {
    q.map_values(|e: Scored<S>| scored_view(e)).to_multiset()
}

proof fn lemma_scored_bag_push<S>(q: Seq<Scored<S>>, e: Scored<S>)
    ensures
        scored_bag(q.push(e)) =~= scored_bag(q).insert(scored_view(e)),
{
    broadcast use group_to_multiset_ensures;

    let f = |e: Scored<S>| scored_view(e);
    assert(q.push(e).map_values(f) =~= q.map_values(f).push(scored_view(e)));
}

proof fn lemma_scored_bag_remove<S>(q: Seq<Scored<S>>, i: int)
    requires
        0 <= i < q.len(),
    ensures
        scored_bag(q) =~= scored_bag(q.remove(i)).insert(scored_view(q[i])),
{
    broadcast use group_to_multiset_ensures;

    let f = |e: Scored<S>| scored_view(e);
    let m = q.map_values(f);
    assert(q.remove(i).map_values(f) =~= m.remove(i));
    assert(m[i] == scored_view(q[i]));
    assert(m.to_multiset().count(m[i]) > 0) by {
        assert(m.contains(m[i]));
    }
}

proof fn lemma_scored_bag_empty<S>(q: Seq<Scored<S>>)
    ensures
        scored_bag(q).len() == q.len(),
        q.len() == 0 ==> scored_bag(q) =~= Multiset::empty(),
{
    broadcast use group_to_multiset_ensures;

    assert(q.map_values(|e: Scored<S>| scored_view(e)).len() == q.len());
}

/// A pair counted in `scored_bag(q)` is the view of some element of `q`.
proof fn lemma_scored_bag_member<S>(q: Seq<Scored<S>>, e: (S, Seq<S>))
    requires
        scored_bag(q).count(e) > 0,
    ensures
        exists|j: int| 0 <= j < q.len() && scored_view(#[trigger] q[j]) == e,
{
    broadcast use group_to_multiset_ensures;

    let m = q.map_values(|e: Scored<S>| scored_view(e));
    assert(m.contains(e));
    let j = choose|j: int| 0 <= j < m.len() && m[j] == e;
    assert(scored_view(q[j]) == e);
}

/// Index of an element of least score in a non-empty run of scored pairs.
fn min_score_index<S>(q: &Vec<Scored<S>>) -> (r: usize)
    requires
        q@.len() > 0,
    ensures
        r < q@.len(),
        forall|j: int| 0 <= j < q@.len() ==> q@[r as int].score <= (#[trigger] q@[j]).score,
{
    let mut best: usize = 0;
    let mut i: usize = 1;
    while i < q.len()
        invariant
            0 < q@.len(),
            best < i <= q@.len(),
            forall|j: int| 0 <= j < i ==> q@[best as int].score <= (#[trigger] q@[j]).score,
        decreases q@.len() - i,
    {
        if q[i].score < q[best].score {
            best = i;
        }
        i = i + 1;
    }
    best
}

/// The pairs of all buckets, counted with multiplicity.
spec fn buckets_bag<S>(b: Seq<Vec<Scored<S>>>) -> Multiset<(S, Seq<S>)>
    decreases b.len(),
{
    if b.len() == 0 {
        Multiset::empty()
    } else {
        buckets_bag(b.drop_last()).add(scored_bag(b.last()@))
    }
}

/// Replacing one bucket changes the whole only by what that bucket gains or loses.
proof fn lemma_buckets_update<S>(b: Seq<Vec<Scored<S>>>, d: int, v: Vec<Scored<S>>)
    requires
        0 <= d < b.len(),
    ensures
        buckets_bag(b.update(d, v)).add(scored_bag(b[d]@)) =~= buckets_bag(b).add(scored_bag(v@)),
    decreases b.len(),
{
    let c = b.update(d, v);
    let bc = buckets_bag(c.drop_last());
    let bb = buckets_bag(b.drop_last());
    assert(buckets_bag(c) == bc.add(scored_bag(c.last()@)));
    assert(buckets_bag(b) == bb.add(scored_bag(b.last()@)));
    if d == b.len() - 1 {
        assert(c.drop_last() =~= b.drop_last());
        assert(c.last() == v);
        assert(b[d] == b.last());
    } else {
        lemma_buckets_update(b.drop_last(), d, v);
        assert(c.drop_last() =~= b.drop_last().update(d, v));
        assert(c.last() == b.last());
        assert(b.drop_last()[d] == b[d]);
        assert(bc.add(scored_bag(b[d]@)) == bb.add(scored_bag(v@)));
    }
    assert forall|x: (S, Seq<S>)|
        #[trigger] buckets_bag(c).add(scored_bag(b[d]@)).count(x) == buckets_bag(b).add(
            scored_bag(v@),
        ).count(x) by {
        if d != b.len() - 1 {
            assert(bc.add(scored_bag(b[d]@)).count(x) == bb.add(scored_bag(v@)).count(x));
        }
    }
}

/// Appending an empty bucket leaves the whole unchanged.
proof fn lemma_buckets_push_empty<S>(b: Seq<Vec<Scored<S>>>, v: Vec<Scored<S>>)
    requires
        v@.len() == 0,
    ensures
        buckets_bag(b.push(v)) =~= buckets_bag(b),
{
    lemma_scored_bag_empty(v@);
    assert(b.push(v).drop_last() =~= b);
}

/// When every bucket is empty, so is the whole.
proof fn lemma_buckets_all_empty<S>(b: Seq<Vec<Scored<S>>>)
    requires
        forall|k: int| 0 <= k < b.len() ==> (#[trigger] b[k])@.len() == 0,
    ensures
        buckets_bag(b).len() == 0,
    decreases b.len(),
{
    if b.len() > 0 {
        lemma_buckets_all_empty(b.drop_last());
        lemma_scored_bag_empty(b.last()@);
    }
}

/// A pair counted in the whole sits in some bucket.
proof fn lemma_buckets_member<S>(b: Seq<Vec<Scored<S>>>, e: (S, Seq<S>))
    requires
        buckets_bag(b).count(e) > 0,
    ensures
        exists|k: int, j: int|
            0 <= k < b.len() && 0 <= j < b[k]@.len() && scored_view(#[trigger] b[k]@[j]) == e,
    decreases b.len(),
{
    if scored_bag(b.last()@).count(e) > 0 {
        lemma_scored_bag_member(b.last()@, e);
        let j = choose|j: int| 0 <= j < b.last()@.len() && scored_view(#[trigger] b.last()@[j]) == e;
        assert(scored_view(b[b.len() - 1]@[j]) == e);
    } else {
        lemma_buckets_member(b.drop_last(), e);
        let (k, j) = choose|k: int, j: int|
            0 <= k < b.drop_last().len() && 0 <= j < b.drop_last()[k]@.len() && scored_view(
                #[trigger] b.drop_last()[k]@[j],
            ) == e;
        assert(scored_view(b[k]@[j]) == e);
    }
}

/// A pending pair with its history seen as a sequence.
pub open spec fn entry_view<S>(e: (S, SharedList<S>)) -> (S, Seq<S>) {
    (e.0, e.1@)
}

/// The pairs of `q`, with histories seen as sequences, counted with multiplicity.
pub open spec fn bag<S>(q: Seq<(S, SharedList<S>)>) -> Multiset<(S, Seq<S>)> {
    q.map_values(|e: (S, SharedList<S>)| entry_view(e)).to_multiset()
}

/// Every history held in `q` is well formed.
pub open spec fn histories_wf<S>(q: Seq<(S, SharedList<S>)>) -> bool {
    forall|i: int| 0 <= i < q.len() ==> (#[trigger] q[i]).1.wf()
}

proof fn lemma_bag_push<S>(q: Seq<(S, SharedList<S>)>, e: (S, SharedList<S>))
    ensures
        bag(q.push(e)) =~= bag(q).insert(entry_view(e)),
{
    broadcast use group_to_multiset_ensures;

    let f = |e: (S, SharedList<S>)| entry_view(e);
    assert(q.push(e).map_values(f) =~= q.map_values(f).push(entry_view(e)));
}

proof fn lemma_bag_remove<S>(q: Seq<(S, SharedList<S>)>, i: int)
    requires
        0 <= i < q.len(),
    ensures
        bag(q) =~= bag(q.remove(i)).insert(entry_view(q[i])),
{
    broadcast use group_to_multiset_ensures;

    let f = |e: (S, SharedList<S>)| entry_view(e);
    let m = q.map_values(f);
    assert(q.remove(i).map_values(f) =~= m.remove(i));
    assert(m[i] == entry_view(q[i]));
    assert(m.to_multiset().count(m[i]) > 0) by {
        assert(m.contains(m[i]));
    }
}

proof fn lemma_bag_single<S>(e: (S, SharedList<S>))
    ensures
        bag(seq![e]) =~= Multiset::singleton(entry_view(e)),
{
    lemma_bag_push(Seq::empty(), e);
    assert(Seq::<(S, SharedList<S>)>::empty().push(e) =~= seq![e]);
    assert(bag(Seq::<(S, SharedList<S>)>::empty()) =~= Multiset::empty()) by {
        broadcast use group_to_multiset_ensures;

        assert(Seq::<(S, SharedList<S>)>::empty().map_values(
            |e: (S, SharedList<S>)| entry_view(e),
        ).len() == 0);
    }
}

impl<S: State> StateBox<S> for BFSBox<S> {
    closed spec fn wf(&self) -> bool {
        histories_wf(self.inner@)
    }

    closed spec fn entries(&self) -> Multiset<(S, Seq<S>)> {
        bag(self.inner@)
    }

    /// The oldest pending pair leaves first.
    open spec fn next_out(&self, e: (S, Seq<S>)) -> bool {
        self.queue().len() > 0 && e == self.queue()[0]
    }

    open spec fn first_in_first_out() -> bool {
        true
    }

    open spec fn last_in_first_out() -> bool {
        false
    }

    open spec fn shallowest_first() -> bool {
        false
    }

    closed spec fn queue(&self) -> Seq<(S, Seq<S>)> {
        self.inner@.map_values(|e: (S, SharedList<S>)| entry_view(e))
    }

    proof fn lemma_queue_holds_entries(&self) {
        broadcast use group_to_multiset_ensures;

    }

    fn init(state: S) -> (r: Self) {
        let mut inner = VecDeque::new();
        inner.push_back((state, SharedList::new()));
        proof {
            lemma_bag_single(inner@[0]);
            assert(inner@ =~= seq![inner@[0]]);
        }
        let r = BFSBox { inner };
        assert(r.queue() =~= seq![(state, Seq::<S>::empty())]);
        r
    }

    fn insert(&mut self, state: S, history: SharedList<S>) {
        let ghost q = self.inner@;
        let ghost e = (state, history);
        self.inner.push_back((state, history));
        proof {
            lemma_bag_push(q, e);
            assert(self.queue() =~= old(self).queue().push((state, history@)));
        }
    }

    fn pop(&mut self) -> (r: Option<(S, SharedList<S>)>) {
        let ghost q = self.inner@;
        proof {
            broadcast use group_to_multiset_ensures;

            assert(q.map_values(|e: (S, SharedList<S>)| entry_view(e)).len() == q.len());
        }
        let r = self.inner.pop_front();
        proof {
            if q.len() > 0 {
                lemma_bag_remove(q, 0);
                assert(q.remove(0) =~= self.inner@);
                assert(self.queue() =~= old(self).queue().drop_first());
            }
        }
        r
    }
}

impl<S: State> StateBox<S> for DFSBox<S> {
    closed spec fn wf(&self) -> bool {
        histories_wf(self.inner@)
    }

    closed spec fn entries(&self) -> Multiset<(S, Seq<S>)> {
        bag(self.inner@)
    }

    /// The newest pending pair leaves first.
    open spec fn next_out(&self, e: (S, Seq<S>)) -> bool {
        self.queue().len() > 0 && e == self.queue().last()
    }

    open spec fn first_in_first_out() -> bool {
        false
    }

    open spec fn last_in_first_out() -> bool {
        true
    }

    open spec fn shallowest_first() -> bool {
        false
    }

    closed spec fn queue(&self) -> Seq<(S, Seq<S>)> {
        self.inner@.map_values(|e: (S, SharedList<S>)| entry_view(e))
    }

    proof fn lemma_queue_holds_entries(&self) {
        broadcast use group_to_multiset_ensures;

    }

    fn init(state: S) -> (r: Self) {
        let inner = vec![(state, SharedList::new())];
        proof {
            lemma_bag_single(inner@[0]);
            assert(inner@ =~= seq![inner@[0]]);
        }
        let r = DFSBox { inner };
        assert(r.queue() =~= seq![(state, Seq::<S>::empty())]);
        r
    }

    fn insert(&mut self, state: S, history: SharedList<S>) {
        let ghost q = self.inner@;
        let ghost e = (state, history);
        self.inner.push((state, history));
        proof {
            lemma_bag_push(q, e);
            assert(self.queue() =~= old(self).queue().push((state, history@)));
        }
    }

    fn pop(&mut self) -> (r: Option<(S, SharedList<S>)>) {
        let ghost q = self.inner@;
        proof {
            broadcast use group_to_multiset_ensures;

            assert(q.map_values(|e: (S, SharedList<S>)| entry_view(e)).len() == q.len());
        }
        let r = self.inner.pop();
        proof {
            if q.len() > 0 {
                lemma_bag_remove(q, q.len() - 1);
                assert(q.remove(q.len() - 1) =~= self.inner@);
                assert(self.queue() =~= old(self).queue().drop_last());
            }
        }
        r
    }
}

impl<S: State<Point = Diff>, D: Distance<Point = Diff>, Diff: Copy> StateBox<S> for AStarBox<S, D, Diff> {
    closed spec fn wf(&self) -> bool {
        forall|i: int|
            0 <= i < self.inner@.len() ==> (#[trigger] self.inner@[i]).history.wf()
                && self.inner@[i].score as int == astar_score::<S, D, Diff>(
                scored_view(self.inner@[i]),
            )
    }

    closed spec fn entries(&self) -> Multiset<(S, Seq<S>)> {
        scored_bag(self.inner@)
    }

    /// A pending pair of least A* score leaves first; among equal scores any may.
    open spec fn next_out(&self, e: (S, Seq<S>)) -> bool {
        &&& self.entries().count(e) > 0
        &&& forall|f: (S, Seq<S>)| #[trigger]
            self.entries().count(f) > 0 ==> astar_score::<S, D, Diff>(e) <= astar_score::<
                S,
                D,
                Diff,
            >(f)
    }

    open spec fn first_in_first_out() -> bool {
        false
    }

    open spec fn last_in_first_out() -> bool {
        false
    }

    open spec fn shallowest_first() -> bool {
        false
    }

    closed spec fn queue(&self) -> Seq<(S, Seq<S>)> {
        Seq::empty()
    }

    proof fn lemma_queue_holds_entries(&self) {
    }

    fn init(state: S) -> (r: Self) {
        let mut r = AStarBox { inner: Vec::new(), _dist: PhantomData };
        proof {
            lemma_scored_bag_empty(r.inner@);
        }
        r.insert(state, SharedList::new());
        r
    }

    fn insert(&mut self, state: S, history: SharedList<S>) {
        let h = heuristic_of::<S, D, Diff>(&state);
        let depth = history.len();
        let score = h.saturating_add(depth as u64);
        let ghost q = self.inner@;
        let e = Scored { score, state, history };
        proof {
            lemma_scored_bag_push(q, e);
        }
        self.inner.push(e);
    }

    fn pop(&mut self) -> (r: Option<(S, SharedList<S>)>) {
        let ghost q = self.inner@;
        proof {
            lemma_scored_bag_empty(q);
        }
        if self.inner.len() == 0 {
            return None;
        }
        let m = min_score_index(&self.inner);
        let e = self.inner.remove(m);
        proof {
            lemma_scored_bag_remove(q, m as int);
            assert(self.inner@ =~= q.remove(m as int));
            assert forall|f: (S, Seq<S>)| #[trigger]
                scored_bag(q).count(f) > 0 implies astar_score::<S, D, Diff>(scored_view(e))
                <= astar_score::<S, D, Diff>(f) by {
                lemma_scored_bag_member(q, f);
                let j = choose|j: int| 0 <= j < q.len() && scored_view(#[trigger] q[j]) == f;
                assert(q[m as int].score <= q[j].score);
            }
            assert forall|i: int| 0 <= i < self.inner@.len() implies (#[trigger] self.inner@[i]).history.wf()
                && self.inner@[i].score as int == astar_score::<S, D, Diff>(
                scored_view(self.inner@[i]),
            ) by {
                if i < m {
                    assert(self.inner@[i] == q[i]);
                } else {
                    assert(self.inner@[i] == q[i + 1]);
                }
            }
        }
        Some((e.state, e.history))
    }
}

/// Bucket `k` holds well-formed histories of length `k`, each scored by its state's heuristic.
spec fn bucket_ok<S: State<Point = P>, D: Distance<Point = P>, P>(v: Seq<Scored<S>>, k: int) -> bool {
    forall|i: int|
        0 <= i < v.len() ==> {
            let e = #[trigger] v[i];
            &&& e.history.wf()
            &&& e.history@.len() == k
            &&& e.score as int == heuristic::<S, D, P>(e.state)
        }
}

impl<S: State<Point = Diff>, D: Distance<Point = Diff>, Diff: Copy> StateBox<S> for StaggeredBox<
    S,
    D,
    Diff,
> {
    closed spec fn wf(&self) -> bool {
        forall|k: int|
            0 <= k < self.inner@.len() ==> bucket_ok::<S, D, Diff>(#[trigger] self.inner@[k]@, k)
    }

    closed spec fn entries(&self) -> Multiset<(S, Seq<S>)> {
        buckets_bag(self.inner@)
    }

    /// A pair of the shallowest non-empty bucket with least heuristic score there leaves first.
    open spec fn next_out(&self, e: (S, Seq<S>)) -> bool {
        &&& self.entries().count(e) > 0
        &&& forall|f: (S, Seq<S>)| #[trigger]
            self.entries().count(f) > 0 ==> staggered_before::<S, D, Diff>(e, f)
    }

    open spec fn first_in_first_out() -> bool {
        false
    }

    open spec fn last_in_first_out() -> bool {
        false
    }

    open spec fn shallowest_first() -> bool {
        true
    }

    closed spec fn queue(&self) -> Seq<(S, Seq<S>)> {
        Seq::empty()
    }

    proof fn lemma_queue_holds_entries(&self) {
    }

    fn init(state: S) -> (r: Self) {
        let mut r = StaggeredBox { inner: Vec::new(), _dist: PhantomData };
        r.insert(state, SharedList::new());
        r
    }

    fn insert(&mut self, state: S, history: SharedList<S>) {
        let depth = history.len();
        while self.inner.len() <= depth
            invariant
                self.wf(),
                self.entries() == old(self).entries(),
            decreases depth + 1 - self.inner@.len(),
        {
            let ghost b = self.inner@;
            let v: Vec<Scored<S>> = Vec::new();
            proof {
                lemma_buckets_push_empty(b, v);
            }
            self.inner.push(v);
            proof {
                assert forall|k: int| 0 <= k < self.inner@.len() implies bucket_ok::<S, D, Diff>(
                    #[trigger] self.inner@[k]@,
                    k,
                ) by {
                    if k < b.len() {
                        assert(self.inner@[k] == b[k]);
                    }
                }
            }
        }
        let score = heuristic_of::<S, D, Diff>(&state);
        let e = Scored { score, state, history };
        let ghost b = self.inner@;
        let ghost ev = scored_view(e);
        self.inner[depth].push(e);
        proof {
            lemma_scored_bag_push(b[depth as int]@, e);
            lemma_buckets_update(b, depth as int, self.inner@[depth as int]);
            assert(self.inner@ =~= b.update(depth as int, self.inner@[depth as int]));
            assert forall|x: (S, Seq<S>)| #[trigger] buckets_bag(self.inner@).count(x) == buckets_bag(
                b,
            ).insert(ev).count(x) by {
                assert(buckets_bag(self.inner@).add(scored_bag(b[depth as int]@)).count(x)
                    == buckets_bag(b).add(scored_bag(self.inner@[depth as int]@)).count(x));
            }
            assert(buckets_bag(self.inner@) =~= buckets_bag(b).insert(ev));
            assert forall|k: int| 0 <= k < self.inner@.len() implies bucket_ok::<S, D, Diff>(
                #[trigger] self.inner@[k]@,
                k,
            ) by {
                if k != depth {
                    assert(self.inner@[k] == b[k]);
                } else {
                    assert(bucket_ok::<S, D, Diff>(b[k]@, k));
                    assert forall|i: int| 0 <= i < self.inner@[k]@.len() implies {
                        let x = #[trigger] self.inner@[k]@[i];
                        &&& x.history.wf()
                        &&& x.history@.len() == k
                        &&& x.score as int == heuristic::<S, D, Diff>(x.state)
                    } by {
                        if i < b[k]@.len() {
                            assert(self.inner@[k]@[i] == b[k]@[i]);
                        }
                    }
                }
            }
        }
    }

    fn pop(&mut self) -> (r: Option<(S, SharedList<S>)>) {
        let ghost b = self.inner@;
        let mut d: usize = 0;
        while d < self.inner.len() && self.inner[d].len() == 0
            invariant
                self.inner@ == b,
                d <= b.len(),
                forall|k: int| 0 <= k < d ==> (#[trigger] b[k])@.len() == 0,
            decreases b.len() - d,
        {
            d = d + 1;
        }
        if d == self.inner.len() {
            proof {
                lemma_buckets_all_empty(b);
            }
            return None;
        }
        let m = min_score_index(&self.inner[d]);
        let e = self.inner[d].remove(m);
        proof {
            let bd = b[d as int]@;
            lemma_scored_bag_remove(bd, m as int);
            assert(self.inner@[d as int]@ =~= bd.remove(m as int));
            lemma_buckets_update(b, d as int, self.inner@[d as int]);
            assert(self.inner@ =~= b.update(d as int, self.inner@[d as int]));
            assert forall|x: (S, Seq<S>)| #[trigger] buckets_bag(b).count(x) == buckets_bag(
                self.inner@,
            ).insert(scored_view(e)).count(x) by {
                assert(buckets_bag(self.inner@).add(scored_bag(b[d as int]@)).count(x)
                    == buckets_bag(b).add(scored_bag(self.inner@[d as int]@)).count(x));
            }
            assert(buckets_bag(b) =~= buckets_bag(self.inner@).insert(scored_view(e)));
            assert(bucket_ok::<S, D, Diff>(b[d as int]@, d as int));
            assert forall|f: (S, Seq<S>)| #[trigger]
                buckets_bag(b).count(f) > 0 implies staggered_before::<S, D, Diff>(scored_view(e), f) by {
                lemma_buckets_member(b, f);
                let (k, j) = choose|k: int, j: int|
                    0 <= k < b.len() && 0 <= j < b[k]@.len() && scored_view(#[trigger] b[k]@[j]) == f;
                assert(bucket_ok::<S, D, Diff>(b[k]@, k));
                assert(b[k]@[j].history@.len() == k);
                if k == d {
                    assert(bd[m as int].score <= bd[j].score);
                }
            }
            assert forall|k: int| 0 <= k < self.inner@.len() implies bucket_ok::<S, D, Diff>(
                #[trigger] self.inner@[k]@,
                k,
            ) by {
                assert(bucket_ok::<S, D, Diff>(b[k]@, k));
                if k == d {
                    assert forall|i: int| 0 <= i < self.inner@[k]@.len() implies {
                        let x = #[trigger] self.inner@[k]@[i];
                        &&& x.history.wf()
                        &&& x.history@.len() == k
                        &&& x.score as int == heuristic::<S, D, Diff>(x.state)
                    } by {
                        if i < m {
                            assert(self.inner@[k]@[i] == bd[i]);
                        } else {
                            assert(self.inner@[k]@[i] == bd[i + 1]);
                        }
                    }
                } else {
                    assert(self.inner@[k] == b[k]);
                }
            }
        }
        Some((e.state, e.history))
    }
}

} // verus!
