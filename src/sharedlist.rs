use std::rc::Rc;
use vstd::prelude::*;

verus! {

/// An immutable, structurally shared history: each `push` yields a new list whose
/// tail is the unmodified list it was pushed onto.
#[derive(PartialEq, Eq, Clone)]
pub enum SharedList<T> {
    Empty,
    Valued { length: usize, node: Rc<Node<T>> },
}

/// One link of a `SharedList`: a value and the link pushed before it.
#[derive(PartialEq, Eq)]
pub struct Node<T> {
    value: T,
    previous: Option<Rc<Node<T>>>,
}

impl<T> Node<T> {
    /// The values of this chain, oldest first.
    pub closed spec fn items(&self) -> Seq<T>
        decreases self,
    {
        match self.previous {
            Some(prev) => prev.items().push(self.value),
            None => seq![self.value],
        }
    }

    fn new(value: T, previous: Option<Rc<Node<T>>>) -> (r: Node<T>)
        ensures
            r.items() == match previous {
                Some(prev) => prev.items().push(value),
                None => seq![value],
            },
    {
        Node { value, previous }
    }

    proof fn lemma_items_nonempty(&self)
        ensures
            self.items().len() >= 1,
            self.items().last() == self.value,
        decreases self,
    {
        match self.previous {
            Some(prev) => prev.lemma_items_nonempty(),
            None => {},
        }
    }
}

impl<T> View for SharedList<T> {
    type V = Seq<T>;

    /// The recorded values, oldest first.
    open spec fn view(&self) -> Seq<T> {
        match self {
            SharedList::Empty => Seq::empty(),
            SharedList::Valued { node, .. } => node.items(),
        }
    }
}

impl<T> SharedList<T> {
    /// The stored length agrees with the chain it heads.
    pub closed spec fn wf(&self) -> bool {
        match self {
            SharedList::Empty => true,
            SharedList::Valued { length, node } => *length as int == node.items().len(),
        }
    }

    pub fn new() -> (r: SharedList<T>)
        ensures
            r.wf(),
            r@ == Seq::<T>::empty(),
    {
        SharedList::Empty
    }

    /// A new list holding this one's values followed by `value`; `self` is left as it is.
    pub fn push(&self, value: T) -> (r: SharedList<T>)
        requires
            self.wf(),
            self@.len() < usize::MAX,
        ensures
            r.wf(),
            r@ == self@.push(value),
    {
        match self {
            SharedList::Empty => {
                let node = Node::new(value, None);
                SharedList::Valued { length: 1, node: Rc::new(node) }
            },
            SharedList::Valued { length, node } => {
                let tail = Rc::clone(node);
                let head = Node::new(value, Some(tail));
                SharedList::Valued { length: *length + 1, node: Rc::new(head) }
            },
        }
    }

    pub fn len(&self) -> (r: usize)
        requires
            self.wf(),
        ensures
            r == self@.len(),
    {
        match self {
            SharedList::Empty => 0,
            SharedList::Valued { length, .. } => *length,
        }
    }

    pub fn is_empty(&self) -> (r: bool)
        requires
            self.wf(),
        ensures
            r == (self@.len() == 0),
    {
        self.len() == 0
    }
}

impl<T: Clone> SharedList<T> {
    /// The values as a plain sequence, oldest first; each entry is a clone of the recorded value.
    pub fn to_vec(&self) -> (r: Vec<T>)
        ensures
            r@.len() == self@.len(),
            forall|i: int| 0 <= i < r@.len() ==> cloned::<T>(#[trigger] self@[i], r@[i]),
    {
        let mut newest_first: Vec<T> = Vec::new();
        if let SharedList::Valued { node, .. } = self {
            let ghost all = node.items();
            let ghost n = all.len();
            let mut cur: &Node<T> = &**node;
            loop
                invariant_except_break
                    newest_first@.len() + cur.items().len() == n,
                invariant
                    all == node.items(),
                    all == self@,
                    n == all.len(),
                    cur.items() == all.subrange(0, cur.items().len() as int),
                    forall|i: int|
                        0 <= i < newest_first@.len() ==> cloned::<T>(
                            all[n - 1 - i],
                            #[trigger] newest_first@[i],
                        ),
                ensures
                    newest_first@.len() == n,
                decreases cur.items().len(),
            {
                proof {
                    cur.lemma_items_nonempty();
                }
                let ghost k: int = cur.items().len() as int;
                newest_first.push(cur.value.clone());
                match &cur.previous {
                    Some(prev) => {
                        proof {
                            assert(all.subrange(0, k - 1) =~= all.subrange(0, k).drop_last());
                        }
                        cur = &**prev;
                    },
                    None => {
                        assert(cur.items().len() == 1);
                        break ;
                    },
                }
            }
        }
        let ghost total = newest_first@.len();
        let mut res: Vec<T> = Vec::new();
        while newest_first.len() > 0
            invariant
                total == self@.len(),
                res@.len() + newest_first@.len() == total,
                forall|i: int|
                    0 <= i < newest_first@.len() ==> cloned::<T>(
                        self@[total - 1 - i],
                        #[trigger] newest_first@[i],
                    ),
                forall|i: int| 0 <= i < res@.len() ==> cloned::<T>(#[trigger] self@[i], res@[i]),
            decreases newest_first@.len(),
        {
            let v = newest_first.pop().unwrap();
            res.push(v);
        }
        res
    }
}

impl<T> Default for SharedList<T> {
    fn default() -> (r: SharedList<T>)
        ensures
            r.wf(),
            r@ == Seq::<T>::empty(),
    {
        SharedList::new()
    }
}

impl<T: Clone> From<SharedList<T>> for Vec<T> {
    /// The values of the list, oldest first; each entry is a clone of the recorded value.
    fn from(s: SharedList<T>) -> (r: Vec<T>)
        ensures
            r@.len() == s@.len(),
            forall|i: int| 0 <= i < r@.len() ==> cloned::<T>(#[trigger] s@[i], r@[i]),
    {
        s.to_vec()
    }
}

impl<T: Clone> vstd::std_specs::convert::FromSpecImpl<SharedList<T>> for Vec<T> {
    /// What `from` returns is stated on `from` itself: a clone need not equal the value it copies.
    open spec fn obeys_from_spec() -> bool {
        false
    }

    open spec fn from_spec(v: SharedList<T>) -> Vec<T> {
        vstd::pervasive::arbitrary()
    }
}

/// Pushing `vals` in order onto `base`, seen through the views that `new` and `push` give.
pub open spec fn pushed_onto<T>(base: Seq<T>, vals: Seq<T>) -> Seq<T>
    decreases vals.len(),
{
    if vals.len() == 0 {
        base
    } else {
        pushed_onto(base, vals.drop_last()).push(vals.last())
    }
}

/// Pushing `v1, ..., vn` one after another onto a new, empty history gives a history that
/// reads back as exactly `[v1, ..., vn]`, so its length is `n`.
pub proof fn lemma_push_round_trip<T>(vals: Seq<T>)
    ensures
        pushed_onto(Seq::empty(), vals) == vals,
        pushed_onto(Seq::empty(), vals).len() == vals.len(),
    decreases vals.len(),
{
    if vals.len() > 0 {
        lemma_push_round_trip(vals.drop_last());
        assert(vals.drop_last().push(vals.last()) =~= vals);
    }
}

/// Two histories pushed with different last values onto one base both begin with all of the
/// base's entries, in order, and differ only in their last entry.
pub proof fn lemma_push_shares_prefix<T>(base: Seq<T>, x: T, y: T)
    ensures
        base.push(x).subrange(0, base.len() as int) == base,
        base.push(y).subrange(0, base.len() as int) == base,
        base.push(x).len() == base.push(y).len(),
        base.push(x).last() == x,
        base.push(y).last() == y,
{
    assert(base.push(x).subrange(0, base.len() as int) =~= base);
    assert(base.push(y).subrange(0, base.len() as int) =~= base);
}

} // verus!
