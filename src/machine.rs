use crate::sharedlist::SharedList;
use crate::traits::{
    depth_ordered, expansion_record, is_path, is_step, reported, lemma_push_contains, min_usize, path_between, reachable,
    shortest, Solver, State, StateBox,
};
use vstd::multiset::Multiset;
use vstd::prelude::*;
use vstd::seq_lib::group_to_multiset_ensures;

verus! {

/// Holds the start and the goal of one search.
#[derive(Clone)]
pub struct Machine<S: State> {
    init_state: S,
    complete_state: S,
}

impl<S: State> Machine<S> {
    pub fn new(init_state: S, complete_state: S) -> (r: Self)
        ensures
            r.start() == init_state,
            r.goal() == complete_state,
    {
        Machine { init_state, complete_state }
    }
}

/// Some pair in `m` holds the state `t`.
spec fn pending<S>(m: Multiset<(S, Seq<S>)>, t: S) -> bool {
    exists|h: Seq<S>| #[trigger] m.count((t, h)) > 0
}

/// Every pair in `m` holds a history that, followed by its state, is a path from `start`;
/// and no history is longer than `bound`.
spec fn entries_lead_from<S: State>(m: Multiset<(S, Seq<S>)>, start: S, bound: nat) -> bool {
    forall|s: S, h: Seq<S>|
        #[trigger] m.count((s, h)) > 0 ==> path_between(h.push(s), start, s) && h.len() <= bound
}

/// Every state recorded as seen is still pending or has been expanded.
spec fn seen_accounted<S>(seen: Seq<S>, m: Multiset<(S, Seq<S>)>, expanded: Set<S>) -> bool {
    forall|t: S| #[trigger] seen.contains(t) ==> expanded.contains(t) || pending(m, t)
}

/// Every successor of an expanded state has been recorded as seen.
spec fn expanded_closed<S: State>(expanded: Set<S>, seen: Seq<S>) -> bool {
    forall|s: S, t: S| expanded.contains(s) && #[trigger] is_step(s, t) ==> seen.contains(t)
}

proof fn lemma_pending_kept<S>(before: Multiset<(S, Seq<S>)>, after: Multiset<(S, Seq<S>)>, e: (S, Seq<S>), t: S)
    requires
        before == after.insert(e),
        pending(before, t),
        t != e.0,
    ensures
        pending(after, t),
{
    let h = choose|h: Seq<S>| #[trigger] before.count((t, h)) > 0;
    assert(after.count((t, h)) > 0);
}

proof fn lemma_pending_inserted<S>(m: Multiset<(S, Seq<S>)>, e: (S, Seq<S>), t: S)
    requires
        pending(m, t) || t == e.0,
    ensures
        pending(m.insert(e), t),
{
    if t == e.0 {
        assert(m.insert(e).count((t, e.1)) > 0);
    } else {
        let h = choose|h: Seq<S>| #[trigger] m.count((t, h)) > 0;
        assert(m.insert(e).count((t, h)) > 0);
    }
}

/// After a pop, every seen state is still pending or expanded, counting the popped state as
/// expanded.
proof fn lemma_seen_after_pop<S>(
    before: Multiset<(S, Seq<S>)>,
    after: Multiset<(S, Seq<S>)>,
    e: (S, Seq<S>),
    seen: Seq<S>,
    expanded: Set<S>,
    start: S,
)
    requires
        before == after.insert(e),
        seen_accounted(seen, before, expanded),
        expanded.contains(start) || pending(before, start),
    ensures
        seen_accounted(seen, after, expanded.insert(e.0)),
        expanded.insert(e.0).contains(start) || pending(after, start),
{
    assert forall|t: S| #[trigger] seen.contains(t) implies expanded.insert(e.0).contains(t) || pending(
        after,
        t,
    ) by {
        if t != e.0 && !expanded.contains(t) {
            lemma_pending_kept(before, after, e, t);
        }
    }
    if start != e.0 && !expanded.contains(start) {
        lemma_pending_kept(before, after, e, start);
    }
}

/// Recording a state as seen while inserting it keeps every seen state pending or expanded.
proof fn lemma_seen_after_insert<S>(
    m: Multiset<(S, Seq<S>)>,
    e: (S, Seq<S>),
    seen: Seq<S>,
    done: Set<S>,
    start: S,
)
    requires
        seen_accounted(seen, m, done),
        done.contains(start) || pending(m, start),
    ensures
        seen_accounted(seen.push(e.0), m.insert(e), done),
        done.contains(start) || pending(m.insert(e), start),
{
    lemma_push_contains(seen, e.0);
    assert forall|t: S| #[trigger] seen.push(e.0).contains(t) implies done.contains(t) || pending(
        m.insert(e),
        t,
    ) by {
        if t == e.0 || !done.contains(t) {
            lemma_pending_inserted(m, e, t);
        }
    }
    if !done.contains(start) {
        lemma_pending_inserted(m, e, start);
    }
}

/// A path extended by one more transition is still a path.
proof fn lemma_path_extend<S: State>(p: Seq<S>, from: S, to: S, next: S)
    requires
        path_between(p, from, to),
        is_step(to, next),
    ensures
        path_between(p.push(next), from, next),
{
    let q = p.push(next);
    assert forall|i: int, j: int| 0 <= i && j == i + 1 && j < q.len() implies #[trigger] is_step(
        q[i],
        q[j],
    ) by {
        if j < p.len() {
            assert(is_step(p[i], p[j]));
        }
    }
}

/// A set that holds `start`, not `goal`, and every successor of its members, shuts `goal` out.
proof fn lemma_closed_set_unreachable<S: State>(closed: Set<S>, start: S, goal: S)
    requires
        closed.contains(start),
        !closed.contains(goal),
        forall|s: S, t: S| closed.contains(s) && #[trigger] is_step(s, t) ==> closed.contains(t),
    ensures
        !reachable(start, goal),
{
    if reachable(start, goal) {
        let p = choose|p: Seq<S>| path_between(p, start, goal);
        assert forall|i: int| 0 <= i < p.len() implies closed.contains(#[trigger] p[i]) by {
            lemma_path_prefix_closed(closed, p, i);
        }
        assert(closed.contains(p[p.len() - 1]));
    }
}

/// Every state reachable from `start` lies in a set that holds `start` and every successor of
/// its members.
proof fn lemma_reachable_in_closed<S: State>(closed: Set<S>, start: S, s: S)
    requires
        closed.contains(start),
        forall|a: S, b: S| closed.contains(a) && #[trigger] is_step(a, b) ==> closed.contains(b),
        reachable(start, s),
    ensures
        closed.contains(s),
{
    let p = choose|p: Seq<S>| path_between(p, start, s);
    lemma_path_prefix_closed(closed, p, p.len() - 1);
}

/// Adding a path keeps every state already reported.
proof fn lemma_reported_push<S>(paths: Seq<Vec<S>>, v: Vec<S>)
    ensures
        forall|s: S| reported(paths, s) ==> #[trigger] reported(paths.push(v), s),
{
    assert forall|s: S| reported(paths, s) implies #[trigger] reported(paths.push(v), s) by {
        let k = choose|k: int|
            0 <= k < paths.len() && paths[k]@.len() >= 2 && #[trigger] paths[k]@[paths[k]@.len() - 2] == s;
        assert(paths.push(v)[k] == paths[k]);
    }
}

proof fn lemma_path_prefix_closed<S: State>(closed: Set<S>, p: Seq<S>, i: int)
    requires
        0 <= i < p.len(),
        closed.contains(p[0]),
        is_path(p),
        forall|s: S, t: S| closed.contains(s) && #[trigger] is_step(s, t) ==> closed.contains(t),
    ensures
        closed.contains(p[i]),
    decreases i,
{
    if i > 0 {
        lemma_path_prefix_closed(closed, p, i - 1);
        assert(is_step(p[i - 1], p[i]));
    }
}

/// At most one pending pair holds the state `t`.
spec fn pending_once<S>(m: Multiset<(S, Seq<S>)>, t: S) -> bool {
    forall|h: Seq<S>, h2: Seq<S>|
        #[trigger] m.count((t, h)) > 0 && #[trigger] m.count((t, h2)) > 0 ==> h == h2 && m.count(
            (t, h),
        ) == 1
}

/// How often each state has been expanded (`trace`) agrees with the frontier and the seen
/// registry: a state is pending once or expanded once, and only after it was seen.
spec fn expansions_counted<S>(trace: Seq<S>, m: Multiset<(S, Seq<S>)>, seen: Seq<S>) -> bool {
    &&& forall|t: S| #[trigger] trace.to_multiset().count(t) <= 1
    &&& forall|t: S| #[trigger] trace.to_multiset().count(t) > 0 ==> seen.contains(t)
    &&& forall|t: S| #[trigger] pending(m, t) ==> trace.to_multiset().count(t) == 0 && seen.contains(t)
    &&& forall|t: S| #[trigger] pending_once(m, t)
}

/// Every pending history, followed by its state, holds no state twice, and every state of
/// the history was expanded.
spec fn entries_recorded<S>(m: Multiset<(S, Seq<S>)>, trace: Seq<S>) -> bool {
    forall|s: S, h: Seq<S>|
        #[trigger] m.count((s, h)) > 0 ==> h.push(s).no_duplicates() && forall|x: S|
            #[trigger] h.contains(x) ==> trace.contains(x)
}

proof fn lemma_push_no_duplicates<A>(s: Seq<A>, x: A)
    requires
        s.no_duplicates(),
        !s.contains(x),
    ensures
        s.push(x).no_duplicates(),
{
    let t = s.push(x);
    assert forall|i: int, j: int| 0 <= i < t.len() && 0 <= j < t.len() && i != j implies t[i] != t[j] by {
        if i < s.len() && j < s.len() {
        } else if i < s.len() {
            assert(s.contains(t[i]));
        } else if j < s.len() {
            assert(s.contains(t[j]));
        }
    }
}

/// A sequence whose elements each occur at most once has no duplicates.
proof fn lemma_counts_no_duplicates<A>(s: Seq<A>)
    requires
        forall|x: A| #[trigger] s.to_multiset().count(x) <= 1,
    ensures
        s.no_duplicates(),
    decreases s.len(),
{
    broadcast use group_to_multiset_ensures;

    if s.len() > 0 {
        let d = s.drop_last();
        assert(s == d.push(s.last()));
        assert forall|x: A| #[trigger] d.to_multiset().count(x) <= 1 by {
            assert(s.to_multiset().count(x) == d.to_multiset().count(x) + if x == s.last() {
                1int
            } else {
                0int
            });
        }
        lemma_counts_no_duplicates(d);
        assert(s.to_multiset().count(s.last()) == d.to_multiset().count(s.last()) + 1);
        assert(!d.contains(s.last())) by {
            if d.contains(s.last()) {
                assert(d.to_multiset().count(s.last()) > 0);
            }
        }
        lemma_push_no_duplicates(d, s.last());
    }
}

proof fn lemma_counted_after_pop<S>(
    trace: Seq<S>,
    before: Multiset<(S, Seq<S>)>,
    after: Multiset<(S, Seq<S>)>,
    seen: Seq<S>,
    e: (S, Seq<S>),
)
    requires
        expansions_counted(trace, before, seen),
        before == after.insert(e),
    ensures
        expansions_counted(trace.push(e.0), after, seen),
        seen.contains(e.0),
        !trace.contains(e.0),
{
    broadcast use group_to_multiset_ensures;

    let s = e.0;
    let t2 = trace.push(s);
    assert((s, e.1) == e);
    assert(before.count(e) > 0);
    assert(pending(before, s));
    assert(pending_once(before, s));
    assert(!pending(after, s)) by {
        if pending(after, s) {
            let h = choose|h: Seq<S>| #[trigger] after.count((s, h)) > 0;
            assert(before.count((s, h)) > 0);
            assert(pending_once(before, s));
        }
    }
    assert forall|t: S| t != s && #[trigger] pending(after, t) implies pending(before, t) by {
        let h = choose|h: Seq<S>| #[trigger] after.count((t, h)) > 0;
        assert(before.count((t, h)) > 0);
    }
    assert forall|t: S| #[trigger] pending_once(after, t) by {
        assert(pending_once(before, t));
        assert forall|h: Seq<S>, h2: Seq<S>|
            #[trigger] after.count((t, h)) > 0 && #[trigger] after.count((t, h2)) > 0 implies h == h2
            && after.count((t, h)) == 1 by {
            assert(before.count((t, h)) > 0 && before.count((t, h2)) > 0);
        }
    }
    assert forall|t: S| #[trigger] t2.to_multiset().count(t) <= 1 by {
        if t == s {
            assert(trace.to_multiset().count(t) == 0);
        }
    }
    assert(!trace.contains(s)) by {
        if trace.contains(s) {
            assert(trace.to_multiset().count(s) > 0);
        }
    }
}

proof fn lemma_counted_after_insert<S>(
    trace: Seq<S>,
    m: Multiset<(S, Seq<S>)>,
    seen: Seq<S>,
    e: (S, Seq<S>),
)
    requires
        expansions_counted(trace, m, seen),
        !seen.contains(e.0),
    ensures
        expansions_counted(trace, m.insert(e), seen.push(e.0)),
{
    broadcast use group_to_multiset_ensures;

    let t = e.0;
    let m2 = m.insert(e);
    lemma_push_contains(seen, t);
    assert(!pending(m, t));
    lemma_pending_inserted(m, e, t);
    assert forall|u: S| u != t && #[trigger] pending(m2, u) implies pending(m, u) by {
        let h = choose|h: Seq<S>| #[trigger] m2.count((u, h)) > 0;
        assert(m.count((u, h)) > 0);
    }
    assert forall|u: S| #[trigger] pending_once(m2, u) by {
        assert(pending_once(m, u));
        assert forall|h: Seq<S>, h2: Seq<S>|
            #[trigger] m2.count((u, h)) > 0 && #[trigger] m2.count((u, h2)) > 0 implies h == h2
            && m2.count((u, h)) == 1 by {
            if u == t {
                if m.count((u, h)) > 0 {
                    assert(pending(m, t));
                }
                if m.count((u, h2)) > 0 {
                    assert(pending(m, t));
                }
            }
        }
    }
    assert forall|u: S| #[trigger] trace.to_multiset().count(u) > 0 implies seen.push(t).contains(u) by {
        assert(seen.contains(u));
    }
}

/// A history and its state extended by a state `t` not yet seen: the extension holds no state
/// twice, and all but `t` were expanded.
proof fn lemma_path_recorded<S>(trace: Seq<S>, seen: Seq<S>, h: Seq<S>, s: S, t: S)
    requires
        forall|x: S| #[trigger] trace.to_multiset().count(x) > 0 ==> seen.contains(x),
        h.push(s).no_duplicates(),
        forall|x: S| #[trigger] h.contains(x) ==> trace.contains(x),
        trace.len() > 0,
        trace[trace.len() - 1] == s,
        !seen.contains(t),
    ensures
        h.push(s).push(t).no_duplicates(),
        forall|x: S| #[trigger] h.push(s).contains(x) ==> trace.contains(x),
        forall|i: int| 0 <= i < h.push(s).len() ==> trace.contains(#[trigger] h.push(s)[i]),
{
    broadcast use group_to_multiset_ensures;

    lemma_push_contains(h, s);
    assert(trace.contains(s)) by {
        assert(trace[trace.len() - 1] == s);
    }
    assert forall|i: int| 0 <= i < h.push(s).len() implies trace.contains(#[trigger] h.push(s)[i]) by {
        assert(h.push(s).contains(h.push(s)[i]));
    }
    assert(!h.push(s).contains(t)) by {
        if h.push(s).contains(t) {
            assert(trace.contains(t));
            assert(trace.to_multiset().count(t) > 0);
        }
    }
    lemma_push_no_duplicates(h.push(s), t);
}

/// The registry starts with the start state alone, pending once and expanded never.
proof fn lemma_counted_initially<S>(m: Multiset<(S, Seq<S>)>, start: S)
    requires
        m =~= Multiset::singleton((start, Seq::<S>::empty())),
    ensures
        expansions_counted(Seq::empty(), m, seq![start]),
        pending(m, start),
{
    broadcast use group_to_multiset_ensures;

    assert(m.count((start, Seq::<S>::empty())) > 0);
    assert(seq![start][0] == start);
    assert forall|t: S| #[trigger] pending(m, t) implies Seq::<S>::empty().to_multiset().count(t) == 0
        && seq![start].contains(t) by {
        let h = choose|h: Seq<S>| #[trigger] m.count((t, h)) > 0;
        assert((t, h) == (start, Seq::<S>::empty()));
    }
    assert forall|t: S| #[trigger] pending_once(m, t) by {
        assert forall|h: Seq<S>, h2: Seq<S>|
            #[trigger] m.count((t, h)) > 0 && #[trigger] m.count((t, h2)) > 0 implies h == h2
            && m.count((t, h)) == 1 by {
            assert((t, h) == (start, Seq::<S>::empty()));
            assert((t, h2) == (start, Seq::<S>::empty()));
        }
    }
    assert(Seq::<S>::empty().to_multiset() =~= Multiset::empty());
}

/// Histories along the queue never get shorter.
spec fn nondecreasing<S>(q: Seq<(S, Seq<S>)>) -> bool {
    forall|i: int, j: int| 0 <= i < j < q.len() ==> (#[trigger] q[i]).1.len() <= (#[trigger] q[j]).1.len()
}

/// Every pending history has length `level` or `level + 1`.
spec fn layered<S>(m: Multiset<(S, Seq<S>)>, level: int) -> bool {
    forall|s: S, h: Seq<S>| #[trigger] m.count((s, h)) > 0 ==> level <= h.len() <= level + 1
}

/// Every state that some path of at most `level` states reaches from `start` was expanded.
spec fn shallow_expanded<S: State>(expanded: Set<S>, start: S, level: int) -> bool {
    forall|t: S, p: Seq<S>| #[trigger] path_between(p, start, t) && p.len() <= level ==> expanded.contains(t)
}

/// A pending state other than `start` waits with a history shorter than every path to it.
spec fn pending_shortest<S: State>(m: Multiset<(S, Seq<S>)>, start: S) -> bool {
    forall|s: S, h: Seq<S>, p: Seq<S>|
        #![trigger m.count((s, h)), path_between(p, start, s)]
        m.count((s, h)) > 0 && s != start && path_between(p, start, s) ==> h.len() < p.len()
}

/// A path of two or more states is a path to its next-to-last state, then one step.
proof fn lemma_path_split<S: State>(p: Seq<S>, from: S, to: S)
    requires
        path_between(p, from, to),
        p.len() >= 2,
    ensures
        path_between(p.drop_last(), from, p[p.len() - 2]),
        is_step(p[p.len() - 2], to),
{
    let q = p.drop_last();
    assert forall|i: int, j: int| 0 <= i && j == i + 1 && j < q.len() implies #[trigger] is_step(
        q[i],
        q[j],
    ) by {
        assert(is_step(p[i], p[j]));
    }
    assert(is_step(p[p.len() - 2], p[p.len() - 1]));
}

/// A state first met by expanding a state of depth `d` has no path of `d + 1` states or fewer.
proof fn lemma_fresh_is_far<S: State>(expanded: Set<S>, seen: Seq<S>, start: S, d: int, t: S)
    requires
        shallow_expanded(expanded, start, d),
        expanded_closed(expanded, seen),
        !seen.contains(t),
        t != start,
    ensures
        forall|p: Seq<S>| #[trigger] path_between(p, start, t) ==> d + 1 < p.len(),
{
    assert forall|p: Seq<S>| #[trigger] path_between(p, start, t) implies d + 1 < p.len() by {
        if p.len() <= d + 1 {
            if p.len() == 1 {
                assert(p[0] == t);
            } else {
                lemma_path_split(p, start, t);
                let u = p[p.len() - 2];
                assert(path_between(p.drop_last(), start, u));
                assert(expanded.contains(u));
            }
        }
    }
}

/// Popping a shallowest pending pair: the level becomes its history's length, and once that
/// is one deeper, every state of the finished level has been expanded.
proof fn lemma_layers_after_pop<S: State>(
    before: Multiset<(S, Seq<S>)>,
    after: Multiset<(S, Seq<S>)>,
    e: (S, Seq<S>),
    expanded: Set<S>,
    seen: Seq<S>,
    start: S,
    level: int,
)
    requires
        before == after.insert(e),
        before.count(e) > 0,
        forall|f: (S, Seq<S>)| #[trigger] before.count(f) > 0 ==> e.1.len() <= f.1.len(),
        layered(before, level),
        shallow_expanded(expanded, start, level),
        pending_shortest(before, start),
        expanded_closed(expanded, seen),
        seen_accounted(seen, before, expanded),
        e.1.len() == level + 1 ==> expanded.contains(start),
    ensures
        layered(after, e.1.len() as int),
        shallow_expanded(expanded, start, e.1.len() as int),
        pending_shortest(after, start),
{
    let d = e.1.len() as int;
    assert(level <= d <= level + 1) by {
        assert(before.count((e.0, e.1)) > 0);
    }
    assert forall|s: S, h: Seq<S>| #[trigger] after.count((s, h)) > 0 implies d <= h.len() <= d + 1 by {
        assert(before.count((s, h)) > 0);
    }
    assert forall|s: S, h: Seq<S>, p: Seq<S>|
        #![trigger after.count((s, h)), path_between(p, start, s)]
        after.count((s, h)) > 0 && s != start && path_between(p, start, s) implies h.len() < p.len() by {
        assert(before.count((s, h)) > 0);
    }
    if d == level + 1 {
        assert forall|t: S, p: Seq<S>| #[trigger] path_between(p, start, t) && p.len() <= d implies expanded.contains(
            t,
        ) by {
            if p.len() <= level {
            } else if t != start {
                lemma_path_split(p, start, t);
                let u = p[p.len() - 2];
                assert(path_between(p.drop_last(), start, u));
                assert(expanded.contains(u));
                assert(seen.contains(t));
                if !expanded.contains(t) {
                    let h = choose|h: Seq<S>| #[trigger] before.count((t, h)) > 0;
                    assert(h.len() < p.len());
                    assert(d <= h.len());
                }
            }
        }
    }
}

/// Inserting, one level deeper, a state not seen before keeps the layering.
proof fn lemma_layers_after_insert<S: State>(
    m: Multiset<(S, Seq<S>)>,
    e: (S, Seq<S>),
    expanded: Set<S>,
    seen: Seq<S>,
    start: S,
    level: int,
)
    requires
        layered(m, level),
        pending_shortest(m, start),
        e.1.len() == level + 1,
        shallow_expanded(expanded, start, level),
        expanded_closed(expanded, seen),
        !seen.contains(e.0),
    ensures
        layered(m.insert(e), level),
        pending_shortest(m.insert(e), start),
{
    let m2 = m.insert(e);
    assert forall|s: S, h: Seq<S>| #[trigger] m2.count((s, h)) > 0 implies level <= h.len() <= level + 1 by {
        if (s, h) != e {
            assert(m.count((s, h)) > 0);
        }
    }
    if e.0 != start {
        lemma_fresh_is_far(expanded, seen, start, level, e.0);
    }
    assert forall|s: S, h: Seq<S>, p: Seq<S>|
        #![trigger m2.count((s, h)), path_between(p, start, s)]
        m2.count((s, h)) > 0 && s != start && path_between(p, start, s) implies h.len() < p.len() by {
        if (s, h) != e {
            assert(m.count((s, h)) > 0);
        }
    }
}

/// In a queue whose histories never get shorter, the front is a shallowest pending pair.
proof fn lemma_queue_front_shallowest<S>(q: Seq<(S, Seq<S>)>, m: Multiset<(S, Seq<S>)>)
    requires
        nondecreasing(q),
        q.len() > 0,
        forall|f: (S, Seq<S>)| #[trigger] m.count(f) > 0 <==> q.contains(f),
    ensures
        forall|f: (S, Seq<S>)| #[trigger] m.count(f) > 0 ==> q[0].1.len() <= f.1.len(),
{
    assert forall|f: (S, Seq<S>)| #[trigger] m.count(f) > 0 implies q[0].1.len() <= f.1.len() by {
        assert(q.contains(f));
        let i = choose|i: int| 0 <= i < q.len() && q[i] == f;
        if i > 0 {
            assert(q[0].1.len() <= q[i].1.len());
        }
    }
}

/// Appending a pair at the deeper level keeps the queue's histories from getting shorter.
proof fn lemma_queue_push<S>(q: Seq<(S, Seq<S>)>, m: Multiset<(S, Seq<S>)>, e: (S, Seq<S>), level: int)
    requires
        nondecreasing(q),
        forall|f: (S, Seq<S>)| #[trigger] m.count(f) > 0 <==> q.contains(f),
        layered(m, level),
        e.1.len() == level + 1,
    ensures
        nondecreasing(q.push(e)),
{
    let q2 = q.push(e);
    assert forall|i: int, j: int| 0 <= i < j < q2.len() implies (#[trigger] q2[i]).1.len() <= (
    #[trigger] q2[j]).1.len() by {
        assert(q2[i] == q[i]);
        if j < q.len() {
            assert(q2[j] == q[j]);
        } else {
            assert(q.contains(q[i]));
            assert(m.count((q[i].0, q[i].1)) > 0);
        }
    }
}

/// The next-to-last state of a path.
spec fn penult<S>(v: Vec<S>) -> S {
    v@[v@.len() - 2]
}

/// Only the first reported path may have fewer than two states; the others each end through a
/// different expanded state.
spec fn distinct_ends<S>(r: Seq<Vec<S>>, trace: Seq<S>) -> bool {
    &&& forall|k: int| 1 <= k < r.len() ==> (#[trigger] r[k])@.len() >= 2
    &&& forall|k: int| 0 <= k < r.len() && (#[trigger] r[k])@.len() >= 2 ==> trace.contains(penult(r[k]))
    &&& forall|j: int, k: int|
        0 <= j < k < r.len() && (#[trigger] r[j])@.len() >= 2 && (#[trigger] r[k])@.len() >= 2 ==> penult(
            r[j],
        ) != penult(r[k])
}

/// Reported paths never get shorter, and none has more than `level + 2` states.
spec fn results_by_length<S>(r: Seq<Vec<S>>, level: int) -> bool {
    &&& forall|j: int, k: int| 0 <= j < k < r.len() ==> (#[trigger] r[j])@.len() <= (#[trigger] r[k])@.len()
    &&& forall|k: int| 0 <= k < r.len() ==> (#[trigger] r[k])@.len() <= level + 2
}

proof fn lemma_results_push<S>(r: Seq<Vec<S>>, v: Vec<S>, level: int)
    requires
        results_by_length(r, level),
        v@.len() == level + 2,
    ensures
        results_by_length(r.push(v), level),
{
    let r2 = r.push(v);
    assert forall|j: int, k: int| 0 <= j < k < r2.len() implies (#[trigger] r2[j])@.len() <= (
    #[trigger] r2[k])@.len() by {
        assert(r2[j] == r[j]);
        if k < r.len() {
            assert(r2[k] == r[k]);
        }
    }
    assert forall|k: int| 0 <= k < r2.len() implies (#[trigger] r2[k])@.len() <= level + 2 by {
        if k < r.len() {
            assert(r2[k] == r[k]);
        }
    }
}

/// With a frontier that hands pairs out by depth (see `depth_ordered`), the path that
/// `find_one` returns is no longer than any path that `find_all` reports for the same start
/// and goal, and the first path that `find_all` reports is just as long.
pub proof fn lemma_first_found_no_longer<S: State>(
    one: Seq<S>,
    all: Seq<Seq<S>>,
    start: S,
    goal: S,
)
    requires
        path_between(one, start, goal),
        shortest(one, start, goal),
        forall|i: int| 0 <= i < all.len() ==> path_between(#[trigger] all[i], start, goal),
        all.len() > 0 ==> shortest(all[0], start, goal),
    ensures
        forall|i: int| 0 <= i < all.len() ==> one.len() <= (#[trigger] all[i]).len(),
        all.len() > 0 ==> all[0].len() == one.len(),
{
    assert forall|i: int| 0 <= i < all.len() implies one.len() <= (#[trigger] all[i]).len() by {
        assert(path_between(all[i], start, goal));
    }
    if all.len() > 0 {
        assert(path_between(all[0], start, goal));
    }
}

/// Whether `t` is among the recorded states.
fn contains_state<S: State>(seen: &Vec<S>, t: &S) -> (r: bool)
    ensures
        r == seen@.contains(*t),
{
    proof {
        S::lemma_exact_copies();
    }
    let mut i: usize = 0;
    while i < seen.len()
        invariant
            i <= seen@.len(),
            forall|j: int| 0 <= j < i ==> seen@[j] != *t,
        decreases seen@.len() - i,
    {
        proof {
            S::lemma_exact_copies();
        }
        if seen[i] == *t {
            assert(seen@[i as int] == *t);
            return true;
        }
        i = i + 1;
    }
    false
}

/// The history, then the state it led to, then the state reached from there.
fn complete_path<S: State>(history: &SharedList<S>, state: &S, next: &S) -> (r: Vec<S>)
    ensures
        r@ == history@.push(*state).push(*next),
{
    proof {
        S::lemma_exact_copies();
    }
    let mut path = history.to_vec();
    assert(path@ =~= history@);
    path.push(state.clone());
    path.push(next.clone());
    path
}

impl<S: State> Machine<S> {
    /// Like `find_one_with_checks`, and also hands back the states in the order they were
    /// expanded: no state is expanded twice.
    pub fn find_one_traced<SB: StateBox<S>>(self) -> (r: (Option<(Vec<S>, usize)>, Ghost<Seq<S>>))
        ensures
            self.start() == self.goal() ==> (r.0 matches Some((p, n)) && p@ == seq![self.start()]
                && n == 0),
            r.0 matches Some((p, n)) ==> path_between(p@, self.start(), self.goal()),
            r.0 matches Some((p, n)) ==> (self.start() != self.goal() ==> n >= 1),
            r.0 matches Some((p, n)) ==> expansion_record(
                r.1@,
                self.start(),
                self.goal(),
                p@,
                n as int,
            ),
            r.0 matches Some((p, n)) ==> p@.no_duplicates(),
            self.start() != self.goal() && is_step(self.start(), self.goal()) ==> (r.0 matches Some(
                (p, n),
            ) && p@ == seq![self.start(), self.goal()] && n == 1),
            r.0 is None <==> !reachable(self.start(), self.goal()),
            depth_ordered::<S, SB>() ==> (r.0 matches Some((p, n)) ==> shortest(
                p@,
                self.start(),
                self.goal(),
            )),
            forall|t: S| #[trigger] r.1@.to_multiset().count(t) <= 1,
    {
        proof {
            S::lemma_exact_copies();
        }
        let Machine { init_state, complete_state } = self;
        if init_state == complete_state {
            proof {
                assert(path_between(seq![init_state], init_state, init_state));
                assert(is_step(init_state, init_state) ==> true);
            }
            proof {
                broadcast use group_to_multiset_ensures;

                assert(Seq::<S>::empty().to_multiset().len() == 0);
            }
            return (Some((vec![init_state], 0)), Ghost(Seq::empty()));
        }
        let ghost start = init_state;
        let ghost goal = complete_state;
        let mut checks: usize = 0;
        let mut seen: Vec<S> = Vec::new();
        seen.push(init_state.clone());
        let mut frontier = SB::init(init_state);
        let ghost mut expanded: Set<S> = Set::empty();
        let ghost mut trace: Seq<S> = Seq::empty();
        let ghost mut level: int = 0;
        proof {
            broadcast use group_to_multiset_ensures;

            let e = (start, Seq::<S>::empty());
            if depth_ordered::<S, SB>() {
                assert forall|t: S, p: Seq<S>| #[trigger] path_between(p, start, t) && p.len() <= level implies expanded.contains(
                    t,
                ) by {}
                assert forall|s: S, h: Seq<S>| #[trigger] frontier.entries().count((s, h)) > 0 implies level
                    <= h.len() <= level + 1 by {
                    assert((s, h) == e);
                }
            }
            assert(Seq::<S>::empty().push(start) =~= seq![start]);
            assert(path_between(seq![start], start, start));
            assert(frontier.entries().count(e) > 0);
            assert(seen@ == seq![start]);
            lemma_counted_initially(frontier.entries(), start);
            assert(seen@[0] == start);
            assert forall|t: S| #[trigger] seen@.contains(t) implies t != goal && (expanded.contains(t)
                || pending(frontier.entries(), t)) by {
                assert(t == seen@[0]);
            }
            assert forall|s: S, h: Seq<S>| #[trigger]
                frontier.entries().count((s, h)) > 0 implies h.push(s).no_duplicates() && forall|x: S|
                #[trigger] h.contains(x) ==> trace.contains(x) by {
                assert((s, h) == e);
                assert(h.push(s) =~= seq![s]);
            }
            assert forall|s: S, h: Seq<S>| #[trigger]
                frontier.entries().count((s, h)) > 0 implies path_between(h.push(s), start, s)
                && h.len() <= seen@.len() && s != goal by {
                assert((s, h) == e);
            }
        }
        loop
            invariant
                frontier.wf(),
                start == self.start(),
                goal == self.goal(),
                complete_state == goal,
                start != goal,
                seen@.len() <= usize::MAX,
                entries_lead_from(frontier.entries(), start, seen@.len()),
                forall|s: S, h: Seq<S>| #[trigger] frontier.entries().count((s, h)) > 0 ==> s != goal,
                seen_accounted(seen@, frontier.entries(), expanded),
                forall|t: S| #[trigger] seen@.contains(t) ==> t != goal,
                expanded.contains(start) || pending(frontier.entries(), start),
                forall|s: S| #[trigger] expanded.contains(s) ==> s != goal,
                expanded_closed(expanded, seen@),
                expansions_counted(trace, frontier.entries(), seen@),
                entries_recorded(frontier.entries(), trace),
                trace.len() == 0 ==> frontier.entries() =~= Multiset::singleton((start, Seq::<S>::empty())),
                trace.len() > 0 ==> trace[0] == start,
                forall|k: int| 0 <= k < trace.len() ==> reachable(start, #[trigger] trace[k]) && trace[k] != goal,
                trace.len() >= 1 ==> !is_step(start, goal),
                forall|k: int| 0 <= k < trace.len() ==> expanded.contains(#[trigger] trace[k]),
                checks as int == min_usize(trace.len() as int),
                trace.len() > 0 ==> expanded.contains(start),
                SB::first_in_first_out() ==> nondecreasing(frontier.queue()),
                depth_ordered::<S, SB>() ==> layered(frontier.entries(), level),
                depth_ordered::<S, SB>() ==> shallow_expanded(expanded, start, level),
                depth_ordered::<S, SB>() ==> pending_shortest(frontier.entries(), start),
                level >= 0,
            decreases usize::MAX - seen@.len(), frontier.entries().len(),
        {
            let ghost before = frontier.entries();
            let ghost before_q = frontier.queue();
            proof {
                if SB::first_in_first_out() {
                    frontier.lemma_queue_holds_entries();
                }
            }
            let popped = frontier.pop();
            match popped {
                None => {
                    proof {
                        assert forall|t: S| !pending(frontier.entries(), t) by {
                            if pending(frontier.entries(), t) {
                                let h = choose|h: Seq<S>| #[trigger] frontier.entries().count((t, h)) > 0;
                                assert(frontier.entries().len() > 0);
                            }
                        }
                        assert forall|s: S, t: S|
                            expanded.contains(s) && #[trigger] is_step(s, t) implies expanded.contains(t) by {
                            assert(seen@.contains(t));
                            assert(!pending(frontier.entries(), t));
                        }
                        lemma_closed_set_unreachable(expanded, start, goal);
                    }
                    return (None, Ghost(trace));
                },
                Some((state, history)) => {
                    checks = checks.saturating_add(1);
                    let ghost seen_len0 = seen@.len();
                    let ghost after_pop = frontier.entries();
                    let ghost popped_entry = (state, history@);
                    proof {
                        if depth_ordered::<S, SB>() {
                            assert(before.count(popped_entry) > 0);
                            if SB::first_in_first_out() {
                                assert(before_q[0] == popped_entry);
                                lemma_queue_front_shallowest(before_q, before);
                                let q1 = frontier.queue();
                                assert forall|i: int, j: int| 0 <= i < j < q1.len() implies (#[trigger] q1[i]).1.len()
                                    <= (#[trigger] q1[j]).1.len() by {
                                    assert(q1[i] == before_q[i + 1] && q1[j] == before_q[j + 1]);
                                }
                            }
                            if !expanded.contains(start) {
                                assert(popped_entry == (start, Seq::<S>::empty()));
                            }
                            lemma_layers_after_pop(before, after_pop, popped_entry, expanded, seen@, start, level);
                            level = history@.len() as int;
                        }
                        assert(before.count(popped_entry) > 0);
                        lemma_counted_after_pop(trace, before, after_pop, seen@, popped_entry);
                        assert(history@.push(state).no_duplicates());
                        assert(forall|x: S| #[trigger] history@.contains(x) ==> trace.contains(x));
                        if trace.len() == 0 {
                            assert(popped_entry == (start, Seq::<S>::empty()));
                        }
                        let old_trace = trace;
                        trace = trace.push(state);
                        lemma_push_contains(old_trace, state);
                        assert(trace[trace.len() - 1] == state);
                        if old_trace.len() > 0 {
                            assert(trace[0] == old_trace[0]);
                        }
                        assert(reachable(start, state)) by {
                            assert(path_between(history@.push(state), start, state));
                        }
                        assert forall|k: int| 0 <= k < trace.len() - 1 implies expanded.contains(#[trigger] trace[k]) by {
                            assert(trace[k] == old_trace[k]);
                        }
                        assert forall|k: int| 0 <= k < trace.len() implies reachable(start, #[trigger] trace[k])
                            && trace[k] != goal by {
                            if k < old_trace.len() {
                                assert(trace[k] == old_trace[k]);
                            }
                        }
                        assert forall|s: S, h: Seq<S>| #[trigger] after_pop.count((s, h)) > 0 implies h.push(
                            s,
                        ).no_duplicates() && forall|x: S| #[trigger] h.contains(x) ==> trace.contains(x) by {
                            assert(before.count((s, h)) > 0);
                        }
                        assert(before.count(popped_entry) > 0);
                        assert forall|s: S, h: Seq<S>| #[trigger]
                            after_pop.count((s, h)) > 0 implies path_between(h.push(s), start, s)
                            && h.len() <= seen@.len() && s != goal by {
                            assert(before.count((s, h)) > 0);
                        }
                        lemma_seen_after_pop(before, after_pop, popped_entry, seen@, expanded, start);
                    }
                    let next_states = state.next();
                    let mut i: usize = 0;
                    while i < next_states.len()
                        invariant
                            frontier.wf(),
                            start == self.start(),
                            goal == self.goal(),
                            complete_state == goal,
                            start != goal,
                            checks >= 1,
                            history.wf(),
                            next_states@ == state.successors(),
                            0 <= i <= next_states@.len(),
                            path_between(history@.push(state), start, state),
                            history@.len() <= seen_len0,
                            seen_len0 <= seen@.len() <= usize::MAX,
                            seen@.len() == seen_len0 ==> frontier.entries() == after_pop,
                            after_pop.len() < before.len(),
                            entries_lead_from(frontier.entries(), start, seen@.len()),
                            forall|s: S, h: Seq<S>| #[trigger] frontier.entries().count((s, h)) > 0 ==> s != goal,
                            seen_accounted(seen@, frontier.entries(), expanded.insert(state)),
                            forall|t: S| #[trigger] seen@.contains(t) ==> t != goal,
                            expanded.contains(start) || pending(frontier.entries(), start)
                                || state == start,
                            forall|s: S| #[trigger] expanded.contains(s) ==> s != goal,
                            state != goal,
                            expanded_closed(expanded, seen@),
                            forall|j: int| 0 <= j < i ==> seen@.contains(#[trigger] next_states@[j]),
                            expansions_counted(trace, frontier.entries(), seen@),
                            entries_recorded(frontier.entries(), trace),
                            trace.len() > 0,
                            trace[0] == start,
                            trace[trace.len() - 1] == state,
                            forall|k: int| 0 <= k < trace.len() ==> reachable(start, #[trigger] trace[k]) && trace[k]
                                != goal,
                            history@.push(state).no_duplicates(),
                            forall|x: S| #[trigger] history@.contains(x) ==> trace.contains(x),
                            trace.len() == 1 ==> state == start && history@.len() == 0,
                            trace.len() >= 2 ==> !is_step(start, goal),
                            forall|k: int| 0 <= k < trace.len() - 1 ==> expanded.contains(#[trigger] trace[k]),
                            checks as int == min_usize(trace.len() as int),
                            expanded.contains(start) || state == start,
                            level >= 0,
                            SB::first_in_first_out() ==> nondecreasing(frontier.queue()),
                depth_ordered::<S, SB>() ==> layered(frontier.entries(), level),
                            depth_ordered::<S, SB>() ==> shallow_expanded(expanded, start, level),
                            depth_ordered::<S, SB>() ==> pending_shortest(frontier.entries(), start),
                            depth_ordered::<S, SB>() ==> history@.len() == level,
                        decreases next_states@.len() - i,
                    {
                        let next_state = &next_states[i];
                        proof {
                            S::lemma_exact_copies();
                            assert(next_states@[i as int] == *next_state);
                            assert(next_states@.contains(*next_state));
                            assert(is_step(state, *next_state));
                        }
                        if *next_state == complete_state {
                            let path = complete_path(&history, &state, next_state);
                            proof {
                                lemma_path_extend(history@.push(state), start, state, *next_state);
                                assert(path_between(path@, start, goal));
                                if depth_ordered::<S, SB>() {
                                    lemma_fresh_is_far(expanded, seen@, start, level, goal);
                                }
                                lemma_path_recorded(trace, seen@, history@, state, goal);
                                assert forall|k: int| 0 <= k < trace.len() - 1 implies !is_step(
                                    #[trigger] trace[k],
                                    goal,
                                ) by {
                                    assert(expanded.contains(trace[k]));
                                }
                                lemma_counts_no_duplicates(trace);
                                if trace.len() == 1 {
                                    assert(history@ =~= Seq::<S>::empty());
                                    assert(path@ =~= seq![start, goal]);
                                }
                            }
                            return (Some((path, checks)), Ghost(trace));
                        }
                        if !contains_state(&seen, next_state) {
                            let ghost entries0 = frontier.entries();
                            let ghost q_before = frontier.queue();
                            proof {
                                if SB::first_in_first_out() {
                                    frontier.lemma_queue_holds_entries();
                                }
                            }
                            let ghost seen0 = seen@;
                            seen.push(next_state.clone());
                            proof {
                                vstd::std_specs::vec::axiom_spec_len(&seen);
                                lemma_push_contains(seen0, *next_state);
                            }
                            let new_history = history.push(state.clone());
                            let ghost e = (*next_state, new_history@);
                            frontier.insert(next_state.clone(), new_history);
                            proof {
                                lemma_counted_after_insert(trace, entries0, seen0, e);
                                lemma_path_recorded(trace, seen0, history@, state, *next_state);
                                assert forall|s: S, h: Seq<S>| #[trigger] frontier.entries().count((s, h)) > 0 implies h.push(
                                    s,
                                ).no_duplicates() && forall|x: S| #[trigger] h.contains(x) ==> trace.contains(x) by {
                                    if (s, h) != e {
                                        assert(entries0.count((s, h)) > 0);
                                    }
                                }
                                if depth_ordered::<S, SB>() {
                                    if SB::first_in_first_out() {
                                        lemma_queue_push(q_before, entries0, e, level);
                                    }
                                    lemma_layers_after_insert(entries0, e, expanded, seen0, start, level);
                                }
                                lemma_path_extend(history@.push(state), start, state, *next_state);
                                assert forall|s: S, h: Seq<S>| #[trigger]
                                    frontier.entries().count((s, h)) > 0 implies path_between(
                                    h.push(s),
                                    start,
                                    s,
                                ) && h.len() <= seen@.len() && s != goal by {
                                    if (s, h) != e {
                                        assert(entries0.count((s, h)) > 0);
                                    }
                                }
                                lemma_seen_after_insert(entries0, e, seen0, expanded.insert(state), start);
                                assert forall|j: int| 0 <= j < i + 1 implies seen@.contains(
                                    #[trigger] next_states@[j],
                                ) by {
                                    if j < i {
                                        assert(seen0.contains(next_states@[j]));
                                    }
                                }
                            }
                        }
                        i = i + 1;
                    }
                    proof {
                        if trace.len() == 1 && is_step(start, goal) {
                            let j = choose|j: int| 0 <= j < next_states@.len() && next_states@[j] == goal;
                            assert(seen@.contains(next_states@[j]));
                        }
                        let old_expanded = expanded;
                        expanded = expanded.insert(state);
                        assert forall|k: int| 0 <= k < trace.len() implies expanded.contains(#[trigger] trace[k]) by {
                            if k < trace.len() - 1 {
                                assert(old_expanded.contains(trace[k]));
                            }
                        }
                        assert forall|s: S, t: S|
                            expanded.contains(s) && #[trigger] is_step(s, t) implies seen@.contains(t) by {
                            if s == state {
                                let j = choose|j: int| 0 <= j < next_states@.len() && next_states@[j] == t;
                                assert(seen@.contains(next_states@[j]));
                            } else {
                                assert(old_expanded.contains(s));
                            }
                        }
                    }
                },
            }
        }
    }

    /// Like `find_all`, and also hands back the states in the order they were expanded: no
    /// state is expanded twice.
    pub fn find_all_traced<SB: StateBox<S>>(self) -> (r: (Vec<Vec<S>>, Ghost<Seq<S>>))
        ensures
            forall|i: int|
                0 <= i < r.0@.len() ==> path_between(#[trigger] r.0@[i]@, self.start(), self.goal()),
            self.start() == self.goal() ==> (r.0@.len() >= 1 && r.0@[0]@ == seq![self.start()]),
            r.0@.len() == 0 <==> !reachable(self.start(), self.goal()),
            forall|s: S|
                reachable(self.start(), s) && #[trigger] is_step(s, self.goal()) ==> reported(r.0@, s),
            depth_ordered::<S, SB>() ==> (r.0@.len() > 0 ==> shortest(
                r.0@[0]@,
                self.start(),
                self.goal(),
            )),
            depth_ordered::<S, SB>() ==> forall|j: int, k: int|
                0 <= j < k < r.0@.len() ==> (#[trigger] r.0@[j])@.len() <= (#[trigger] r.0@[k])@.len(),
            forall|t: S| #[trigger] r.1@.to_multiset().count(t) <= 1,
            (forall|u: S| #[trigger] u.successors().no_duplicates()) ==> forall|j: int, k: int|
                0 <= j < k < r.0@.len() ==> (#[trigger] r.0@[j])@ != (#[trigger] r.0@[k])@,
    {
        proof {
            S::lemma_exact_copies();
        }
        let Machine { init_state, complete_state } = self;
        let ghost start = init_state;
        let ghost goal = complete_state;
        let mut results: Vec<Vec<S>> = Vec::new();
        if init_state == complete_state {
            results.push(vec![init_state.clone()]);
            proof {
                assert(path_between(seq![start], start, start));
                assert(results@[0]@ == seq![start]);
            }
        }
        let mut seen: Vec<S> = Vec::new();
        seen.push(init_state.clone());
        let mut frontier = SB::init(init_state);
        let ghost mut expanded: Set<S> = Set::empty();
        let ghost mut level: int = 0;
        let ghost mut trace: Seq<S> = Seq::empty();
        proof {
            broadcast use group_to_multiset_ensures;

            let e = (start, Seq::<S>::empty());
            if depth_ordered::<S, SB>() {
                assert forall|t: S, p: Seq<S>| #[trigger] path_between(p, start, t) && p.len() <= level implies expanded.contains(
                    t,
                ) by {}
                assert forall|s: S, h: Seq<S>| #[trigger] frontier.entries().count((s, h)) > 0 implies level
                    <= h.len() <= level + 1 by {
                    assert((s, h) == e);
                }
            }
            assert(Seq::<S>::empty().push(start) =~= seq![start]);
            assert(path_between(seq![start], start, start));
            assert(frontier.entries().count(e) > 0);
            assert forall|s: S, h: Seq<S>| #[trigger]
                frontier.entries().count((s, h)) > 0 implies path_between(h.push(s), start, s)
                && h.len() <= seen@.len() && s == start by {
                assert((s, h) == e);
            }
        }
        loop
            invariant
                frontier.wf(),
                start == self.start(),
                goal == self.goal(),
                complete_state == goal,
                seen@.len() <= usize::MAX,
                entries_lead_from(frontier.entries(), start, seen@.len()),
                forall|s: S, h: Seq<S>| #[trigger] frontier.entries().count((s, h)) > 0 ==> s == start
                    || seen@.contains(s),
                seen_accounted(seen@, frontier.entries(), expanded),
                expanded.contains(start) || pending(frontier.entries(), start),
                forall|s: S| #[trigger] expanded.contains(s) ==> s == start || seen@.contains(s),
                expanded_closed(expanded, seen@),
                forall|k: int|
                    0 <= k < results@.len() ==> path_between(#[trigger] results@[k]@, start, goal),
                start == goal ==> results@.len() >= 1 && results@[0]@ == seq![start],
                results@.len() == 0 ==> start != goal && forall|t: S| #[trigger] seen@.contains(t) ==> t
                    != goal,
                !expanded.contains(start) ==> frontier.entries() =~= Multiset::singleton(
                    (start, Seq::<S>::empty()),
                ),
                level >= 0,
                forall|s: S| expanded.contains(s) && #[trigger] is_step(s, goal) ==> reported(results@, s),
                expansions_counted(trace, frontier.entries(), seen@),
                trace.len() == 0 ==> frontier.entries() =~= Multiset::singleton((start, Seq::<S>::empty())),
                SB::first_in_first_out() ==> nondecreasing(frontier.queue()),
                depth_ordered::<S, SB>() ==> layered(frontier.entries(), level),
                depth_ordered::<S, SB>() ==> shallow_expanded(expanded, start, level),
                depth_ordered::<S, SB>() ==> pending_shortest(frontier.entries(), start),
                depth_ordered::<S, SB>() ==> results_by_length(results@, level),
                (forall|u: S| #[trigger] u.successors().no_duplicates()) ==> distinct_ends(results@, trace),
                depth_ordered::<S, SB>() ==> (results@.len() > 0 ==> shortest(results@[0]@, start, goal)),
            decreases usize::MAX - seen@.len(), frontier.entries().len(),
        {
            let ghost before = frontier.entries();
            let ghost before_q = frontier.queue();
            proof {
                if SB::first_in_first_out() {
                    frontier.lemma_queue_holds_entries();
                }
            }
            let popped = frontier.pop();
            match popped {
                None => {
                    proof {
                        assert forall|t: S| !pending(frontier.entries(), t) by {
                            if pending(frontier.entries(), t) {
                                let h = choose|h: Seq<S>| #[trigger] frontier.entries().count((t, h)) > 0;
                                assert(frontier.entries().len() > 0);
                            }
                        }
                        assert forall|s: S, t: S|
                            expanded.contains(s) && #[trigger] is_step(s, t) implies expanded.contains(t) by {
                            assert(seen@.contains(t));
                            assert(!pending(frontier.entries(), t));
                        }
                        assert(expanded.contains(start));
                        assert forall|s: S|
                            reachable(start, s) && #[trigger] is_step(s, goal) implies reported(results@, s) by {
                            lemma_reachable_in_closed(expanded, start, s);
                        }
                        if results@.len() == 0 {
                            assert(!expanded.contains(goal));
                            lemma_closed_set_unreachable(expanded, start, goal);
                        } else {
                            assert(path_between(results@[0]@, start, goal));
                        }
                    }
                    proof {
                        if forall|u: S| #[trigger] u.successors().no_duplicates() {
                            assert forall|j: int, k: int| 0 <= j < k < results@.len() implies (
                            #[trigger] results@[j])@ != (#[trigger] results@[k])@ by {
                                if results@[j]@.len() >= 2 && results@[k]@.len() >= 2 {
                                    assert(penult(results@[j]) != penult(results@[k]));
                                }
                            }
                        }
                    }
                    return (results, Ghost(trace));
                },
                Some((state, history)) => {
                    let ghost seen_len0 = seen@.len();
                    let ghost after_pop = frontier.entries();
                    let ghost popped_entry = (state, history@);
                    proof {
                        assert(before.count(popped_entry) > 0);
                        if !expanded.contains(start) {
                            assert(popped_entry == (start, Seq::<S>::empty()));
                        }
                        lemma_counted_after_pop(trace, before, after_pop, seen@, popped_entry);
                        let old_trace = trace;
                        trace = trace.push(state);
                        lemma_push_contains(old_trace, state);
                        assert(trace[trace.len() - 1] == state);
                        if depth_ordered::<S, SB>() {
                            assert(before.count(popped_entry) > 0);
                            if SB::first_in_first_out() {
                                assert(before_q[0] == popped_entry);
                                lemma_queue_front_shallowest(before_q, before);
                                let q1 = frontier.queue();
                                assert forall|i: int, j: int| 0 <= i < j < q1.len() implies (#[trigger] q1[i]).1.len()
                                    <= (#[trigger] q1[j]).1.len() by {
                                    assert(q1[i] == before_q[i + 1] && q1[j] == before_q[j + 1]);
                                }
                            }
                            if !expanded.contains(start) {
                                assert(popped_entry == (start, Seq::<S>::empty()));
                            }
                            lemma_layers_after_pop(before, after_pop, popped_entry, expanded, seen@, start, level);
                            level = history@.len() as int;
                        }
                        assert forall|s: S, h: Seq<S>| #[trigger]
                            after_pop.count((s, h)) > 0 implies path_between(h.push(s), start, s)
                            && h.len() <= seen@.len() && (s == start || seen@.contains(s)) by {
                            assert(before.count((s, h)) > 0);
                        }
                        lemma_seen_after_pop(before, after_pop, popped_entry, seen@, expanded, start);
                    }
                    let next_states = state.next();
                    let mut i: usize = 0;
                    while i < next_states.len()
                        invariant
                            frontier.wf(),
                            start == self.start(),
                            goal == self.goal(),
                            complete_state == goal,
                            history.wf(),
                            next_states@ == state.successors(),
                            0 <= i <= next_states@.len(),
                            path_between(history@.push(state), start, state),
                            state == start || seen@.contains(state),
                            history@.len() <= seen_len0,
                            seen_len0 <= seen@.len() <= usize::MAX,
                            seen@.len() == seen_len0 ==> frontier.entries() == after_pop,
                            after_pop.len() < before.len(),
                            entries_lead_from(frontier.entries(), start, seen@.len()),
                            forall|s: S, h: Seq<S>| #[trigger] frontier.entries().count((s, h)) > 0 ==> s
                                == start || seen@.contains(s),
                            seen_accounted(seen@, frontier.entries(), expanded.insert(state)),
                            expanded.contains(start) || pending(frontier.entries(), start)
                                || state == start,
                            forall|s: S| #[trigger] expanded.contains(s) ==> s == start || seen@.contains(s),
                            expanded_closed(expanded, seen@),
                            forall|j: int| 0 <= j < i ==> seen@.contains(#[trigger] next_states@[j]),
                            forall|k: int|
                                0 <= k < results@.len() ==> path_between(#[trigger] results@[k]@, start, goal),
                            start == goal ==> results@.len() >= 1 && results@[0]@ == seq![start],
                            results@.len() == 0 ==> start != goal && forall|t: S| #[trigger] seen@.contains(t)
                                ==> t != goal,
                            expanded.contains(start) || state == start,
                            level >= 0,
                            forall|s: S| expanded.contains(s) && #[trigger] is_step(s, goal) ==> reported(
                                results@,
                                s,
                            ),
                            (exists|j: int| 0 <= j < i && next_states@[j] == goal) ==> reported(results@, state),
                            expansions_counted(trace, frontier.entries(), seen@),
                            SB::first_in_first_out() ==> nondecreasing(frontier.queue()),
                depth_ordered::<S, SB>() ==> layered(frontier.entries(), level),
                            depth_ordered::<S, SB>() ==> shallow_expanded(expanded, start, level),
                            depth_ordered::<S, SB>() ==> pending_shortest(frontier.entries(), start),
                            depth_ordered::<S, SB>() ==> history@.len() == level,
                            depth_ordered::<S, SB>() ==> results_by_length(results@, level),
                            (forall|u: S| #[trigger] u.successors().no_duplicates()) ==> distinct_ends(
                                results@,
                                trace,
                            ),
                            (forall|u: S| #[trigger] u.successors().no_duplicates()) ==> ((forall|j: int|
                                0 <= j < i ==> next_states@[j] != goal) ==> forall|k: int|
                                0 <= k < results@.len() && (#[trigger] results@[k])@.len() >= 2 ==> penult(
                                results@[k],
                            ) != state),
                            trace.len() > 0 && trace[trace.len() - 1] == state,
                            depth_ordered::<S, SB>() ==> (results@.len() > 0 ==> shortest(
                                results@[0]@,
                                start,
                                goal,
                            )),
                        decreases next_states@.len() - i,
                    {
                        let next_state = &next_states[i];
                        proof {
                            S::lemma_exact_copies();
                            assert(next_states@[i as int] == *next_state);
                            assert(next_states@.contains(*next_state));
                            assert(is_step(state, *next_state));
                            lemma_path_extend(history@.push(state), start, state, *next_state);
                        }
                        if *next_state == complete_state {
                            let path = complete_path(&history, &state, next_state);
                            let ghost results0 = results@;
                            proof {
                                if depth_ordered::<S, SB>() && results0.len() == 0 {
                                    lemma_fresh_is_far(expanded, seen@, start, level, goal);
                                }
                            }
                            results.push(path);
                            proof {
                                if forall|u: S| #[trigger] u.successors().no_duplicates() {
                                    let k0 = results0.len() as int;
                                    assert(penult(results@[k0]) == state);
                                    assert(trace.contains(state)) by {
                                        assert(trace[trace.len() - 1] == state);
                                    }
                                    assert forall|j: int| 0 <= j < i implies next_states@[j] != goal by {
                                        assert(state.successors().no_duplicates());
                                    }
                                    assert forall|k: int| 0 <= k < results@.len() && (#[trigger] results@[k])@.len()
                                        >= 2 implies trace.contains(penult(results@[k])) by {
                                        if k < k0 {
                                            assert(results@[k] == results0[k]);
                                        }
                                    }
                                    assert forall|j: int, k: int|
                                        0 <= j < k < results@.len() && (#[trigger] results@[j])@.len() >= 2 && (
                                        #[trigger] results@[k])@.len() >= 2 implies penult(results@[j]) != penult(
                                        results@[k],
                                    ) by {
                                        assert(results@[j] == results0[j]);
                                        if k < k0 {
                                            assert(results@[k] == results0[k]);
                                        }
                                    }
                                    assert forall|k: int| 1 <= k < results@.len() implies (#[trigger] results@[k])@.len()
                                        >= 2 by {
                                        if k < k0 {
                                            assert(results@[k] == results0[k]);
                                        }
                                    }
                                }
                                if depth_ordered::<S, SB>() {
                                    lemma_results_push(results0, path, level);
                                }
                                lemma_reported_push(results0, path);
                                let k = results0.len() as int;
                                assert(results@[k]@[results@[k]@.len() - 2] == state);
                                if results0.len() > 0 {
                                    assert(results@[0] == results0[0]);
                                }
                                assert forall|k: int| 0 <= k < results@.len() implies path_between(
                                    #[trigger] results@[k]@,
                                    start,
                                    goal,
                                ) by {
                                    if k < results0.len() {
                                        assert(results@[k] == results0[k]);
                                    }
                                }
                            }
                        }
                        if !contains_state(&seen, next_state) {
                            let ghost entries0 = frontier.entries();
                            let ghost q_before = frontier.queue();
                            proof {
                                if SB::first_in_first_out() {
                                    frontier.lemma_queue_holds_entries();
                                }
                            }
                            let ghost seen0 = seen@;
                            seen.push(next_state.clone());
                            proof {
                                vstd::std_specs::vec::axiom_spec_len(&seen);
                                lemma_push_contains(seen0, *next_state);
                            }
                            let new_history = history.push(state.clone());
                            let ghost e = (*next_state, new_history@);
                            frontier.insert(next_state.clone(), new_history);
                            proof {
                                lemma_counted_after_insert(trace, entries0, seen0, e);
                                if depth_ordered::<S, SB>() {
                                    if SB::first_in_first_out() {
                                        lemma_queue_push(q_before, entries0, e, level);
                                    }
                                    lemma_layers_after_insert(entries0, e, expanded, seen0, start, level);
                                }
                                assert forall|s: S, h: Seq<S>| #[trigger]
                                    frontier.entries().count((s, h)) > 0 implies path_between(
                                    h.push(s),
                                    start,
                                    s,
                                ) && h.len() <= seen@.len() && (s == start || seen@.contains(s)) by {
                                    if (s, h) != e {
                                        assert(entries0.count((s, h)) > 0);
                                    }
                                }
                                lemma_seen_after_insert(entries0, e, seen0, expanded.insert(state), start);
                                assert forall|j: int| 0 <= j < i + 1 implies seen@.contains(
                                    #[trigger] next_states@[j],
                                ) by {
                                    if j < i {
                                        assert(seen0.contains(next_states@[j]));
                                    }
                                }
                            }
                        }
                        i = i + 1;
                    }
                    proof {
                        let old_expanded = expanded;
                        expanded = expanded.insert(state);
                        assert forall|s: S| expanded.contains(s) && #[trigger] is_step(s, goal) implies reported(
                            results@,
                            s,
                        ) by {
                            if s == state {
                                let j = choose|j: int| 0 <= j < next_states@.len() && next_states@[j] == goal;
                                assert(next_states@[j] == goal);
                            }
                        }
                        assert forall|s: S, t: S|
                            expanded.contains(s) && #[trigger] is_step(s, t) implies seen@.contains(t) by {
                            if s == state {
                                let j = choose|j: int| 0 <= j < next_states@.len() && next_states@[j] == t;
                                assert(seen@.contains(next_states@[j]));
                            } else {
                                assert(old_expanded.contains(s));
                            }
                        }
                    }
                },
            }
        }
    }
}

impl<S: State> Solver<S> for Machine<S> {
    closed spec fn start(&self) -> S {
        self.init_state
    }

    closed spec fn goal(&self) -> S {
        self.complete_state
    }

    fn find_one_with_checks<SB: StateBox<S>>(self) -> (r: Option<(Vec<S>, usize)>) {
        let (found, trace) = self.find_one_traced::<SB>();
        found
    }

    fn find_one<SB: StateBox<S>>(self) -> (r: Option<Vec<S>>) {
        match self.find_one_with_checks::<SB>() {
            Some((path, _)) => Some(path),
            None => None,
        }
    }

    fn find_all<SB: StateBox<S>>(self) -> (r: Vec<Vec<S>>) {
        let (results, _) = self.find_all_traced::<SB>();
        results
    }
}

} // verus!
