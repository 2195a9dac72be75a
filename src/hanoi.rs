use crate::traits::State;
use crate::Coord;
use vstd::prelude::*;

verus! {

broadcast use vstd::array::group_array_axioms;

/// A stack of at most `N` rings, bottom first; slots above the top hold 0.
#[derive(Clone, Copy, Eq, Hash, Debug)]
struct Peg<const N: usize> {
    items: [usize; N],
    len: usize,
}

impl<const N: usize> Peg<N> {
    #[verifier::type_invariant]
    spec fn inv(&self) -> bool {
        &&& self.len <= N
        &&& forall|i: int| self.len <= i < N ==> #[trigger] self.items[i] == 0
    }

    /// The rings, bottom first.
    pub closed spec fn rings(&self) -> Seq<usize> {
        self.items@.take(self.len as int)
    }

    /// The peg with `v` put on top.
    pub closed spec fn spec_pushed(&self, v: usize) -> Self {
        Peg { items: crate::tileboard::array_set(self.items, self.len as int, v), len: (self.len + 1) as usize }
    }

    /// The peg with its top ring taken off.
    pub closed spec fn spec_popped(&self) -> Self {
        Peg { items: crate::tileboard::array_set(self.items, self.len - 1, 0), len: (self.len - 1) as usize }
    }

    fn empty() -> (r: Self)
        ensures
            r.rings() == Seq::<usize>::empty(),
    {
        let items: [usize; N] = vstd::array::array_fill_for_copy_types(0usize);
        Peg { items, len: 0 }
    }

    /// The rings `n, n - 1, ..., 1`, bottom first.
    fn full(n: usize) -> (r: Self)
        requires
            n == N,
        ensures
            r.rings().len() == N,
            forall|i: int| 0 <= i < N ==> #[trigger] r.rings()[i] == N - i,
    {
        let mut items: [usize; N] = vstd::array::array_fill_for_copy_types(0usize);
        let mut i: usize = 0;
        while i < n
            invariant
                n == N,
                i <= N,
                forall|j: int| 0 <= j < i ==> #[trigger] items[j] == N - j,
            decreases n - i,
        {
            items[i] = n - i;
            i = i + 1;
        }
        assert(items@.take(N as int) =~= items@);
        Peg { items, len: n }
    }

    fn len(&self) -> (r: usize)
        ensures
            r == self.rings().len(),
    {
        proof {
            use_type_invariant(self);
        }
        self.len
    }

    fn top(&self) -> (r: Option<usize>)
        ensures
            r == (if self.rings().len() == 0 {
                None
            } else {
                Some(self.rings().last())
            }),
    {
        proof {
            use_type_invariant(self);
        }
        if self.len == 0 {
            None
        } else {
            Some(self.items[self.len - 1])
        }
    }

    fn get(&self, i: usize) -> (r: usize)
        requires
            i < self.rings().len(),
        ensures
            r == self.rings()[i as int],
    {
        proof {
            use_type_invariant(self);
        }
        self.items[i]
    }

    fn pushed(&self, v: usize) -> (r: Self)
        requires
            self.rings().len() < N,
        ensures
            r == self.spec_pushed(v),
            r.rings() == self.rings().push(v),
    {
        proof {
            use_type_invariant(self);
        }
        let mut items = self.items;
        items[self.len] = v;
        let r = Peg { items, len: self.len + 1 };
        assert(r.rings() =~= self.rings().push(v));
        r
    }

    fn popped(&self) -> (r: Self)
        requires
            self.rings().len() > 0,
        ensures
            r == self.spec_popped(),
            r.rings() == self.rings().drop_last(),
    {
        proof {
            use_type_invariant(self);
        }
        let mut items = self.items;
        items[self.len - 1] = 0;
        let r = Peg { items, len: self.len - 1 };
        assert(r.rings() =~= self.rings().drop_last());
        r
    }
}

impl<const N: usize> PartialEq for Peg<N> {
    fn eq(&self, other: &Self) -> (r: bool) {
        if self.len != other.len {
            return false;
        }
        let mut i: usize = 0;
        while i < N
            invariant
                i <= N,
                forall|j: int| 0 <= j < i ==> self.items[j] == other.items[j],
            decreases N - i,
        {
            if self.items[i] != other.items[i] {
                return false;
            }
            i = i + 1;
        }
        assert(self.items =~= other.items);
        true
    }
}

impl<const N: usize> vstd::std_specs::cmp::PartialEqSpecImpl for Peg<N> {
    open spec fn obeys_eq_spec() -> bool {
        true
    }

    open spec fn eq_spec(&self, other: &Self) -> bool {
        *self == *other
    }
}

/// The Tower of Hanoi with `RINGS` rings on three pegs; ring `k` is wider than ring `k - 1`.
#[derive(Clone, Copy, Eq, Hash, Debug)]
pub struct Hanoi<const RINGS: usize> {
    left: Peg<RINGS>,
    middle: Peg<RINGS>,
    right: Peg<RINGS>,
}

impl<const RINGS: usize> Hanoi<RINGS> {
    /// All `RINGS` rings are on the pegs, each numbered from 1 to `RINGS`.
    #[verifier::type_invariant]
    spec fn inv(&self) -> bool {
        &&& self.left.rings().len() + self.middle.rings().len() + self.right.rings().len() == RINGS
        &&& forall|p: int, i: int|
            0 <= p < 3 && 0 <= i < self.peg(p).len() ==> 1 <= #[trigger] self.peg(p)[i] <= RINGS
    }

    /// The rings of peg `p` (0 left, 1 middle, 2 right), bottom first.
    pub closed spec fn peg(&self, p: int) -> Seq<usize> {
        if p == 0 {
            self.left.rings()
        } else if p == 1 {
            self.middle.rings()
        } else {
            self.right.rings()
        }
    }

    spec fn peg_value(&self, p: int) -> Peg<RINGS> {
        if p == 0 {
            self.left
        } else if p == 1 {
            self.middle
        } else {
            self.right
        }
    }

    spec fn with_peg(&self, p: int, v: Peg<RINGS>) -> Self {
        if p == 0 {
            Hanoi { left: v, ..*self }
        } else if p == 1 {
            Hanoi { middle: v, ..*self }
        } else {
            Hanoi { right: v, ..*self }
        }
    }

    /// The top ring of peg `from` may go onto peg `to`: it is there, and it is narrower than
    /// the top ring of `to`, if any.
    pub closed spec fn can_move(&self, from: int, to: int) -> bool {
        &&& self.peg(from).len() > 0
        &&& (self.peg(to).len() == 0 || self.peg(from).last() < self.peg(to).last())
    }

    /// The board after the top ring of peg `from` goes onto peg `to`.
    pub closed spec fn moved(&self, from: int, to: int) -> Self {
        let top = self.peg(from).last();
        let lifted = self.with_peg(from, self.peg_value(from).spec_popped());
        lifted.with_peg(to, lifted.peg_value(to).spec_pushed(top))
    }

    /// Scanning the pegs from left to right, each from the bottom, up to the first `j` rings
    /// of peg `p`: where ring `k + 1` was met last, as (peg, height); (0, 0) if it was not.
    pub closed spec fn placed(&self, k: int, p: int, j: int) -> (int, int)
        decreases p, j,
    {
        if j > 0 {
            if self.peg(p)[j - 1] == k + 1 {
                (p, j - 1)
            } else {
                self.placed(k, p, j - 1)
            }
        } else if p > 0 {
            self.placed(k, p - 1, self.peg(p - 1).len() as int)
        } else {
            (0, 0)
        }
    }

    fn peg_at(&self, p: usize) -> (r: Peg<RINGS>)
        requires
            p < 3,
        ensures
            r == self.peg_value(p as int),
            r.rings() == self.peg(p as int),
    {
        if p == 0 {
            self.left
        } else if p == 1 {
            self.middle
        } else {
            self.right
        }
    }

    fn pick(
        &self,
        q: usize,
        from: usize,
        to: usize,
        new_from: Peg<RINGS>,
        new_to: Peg<RINGS>,
    ) -> (r: Peg<RINGS>)
        requires
            q < 3,
        ensures
            r == (if q == from {
                new_from
            } else if q == to {
                new_to
            } else {
                self.peg_value(q as int)
            }),
    {
        if q == from {
            new_from
        } else if q == to {
            new_to
        } else {
            self.peg_at(q)
        }
    }

    fn can_move_exec(&self, from: usize, to: usize) -> (r: bool)
        requires
            from < 3,
            to < 3,
        ensures
            r == self.can_move(from as int, to as int),
    {
        match self.peg_at(from).top() {
            None => false,
            Some(a) => match self.peg_at(to).top() {
                None => true,
                Some(b) => a < b,
            },
        }
    }

    fn move_ring(&self, from: usize, to: usize) -> (r: Self)
        requires
            from < 3,
            to < 3,
            from != to,
            self.can_move(from as int, to as int),
        ensures
            r == self.moved(from as int, to as int),
    {
        proof {
            use_type_invariant(self);
        }
        let src = self.peg_at(from);
        let top = src.top().unwrap();
        let new_from = src.popped();
        let dst = self.peg_at(to);
        let new_to = dst.pushed(top);
        let left = self.pick(0, from, to, new_from, new_to);
        let middle = self.pick(1, from, to, new_from, new_to);
        let right = self.pick(2, from, to, new_from, new_to);
        proof {
            let r = Hanoi { left, middle, right };
            assert forall|p: int, i: int| 0 <= p < 3 && 0 <= i < r.peg(p).len() implies 1 <= #[trigger] r.peg(
                p,
            )[i] <= RINGS by {
                if p == from {
                    assert(r.peg(p)[i] == self.peg(p)[i]);
                } else if p == to {
                    if i < self.peg(p).len() {
                        assert(r.peg(p)[i] == self.peg(p)[i]);
                    } else {
                        assert(self.peg(from as int)[self.peg(from as int).len() - 1] == top);
                    }
                } else {
                    assert(r.peg(p) == self.peg(p));
                }
            }
        }
        Hanoi { left, middle, right }
    }

    /// All rings on the left peg, widest at the bottom.
    pub fn new() -> (r: Self)
        ensures
            r.peg(0) == tower(RINGS),
            r.peg(1) == Seq::<usize>::empty(),
            r.peg(2) == Seq::<usize>::empty(),
    {
        let left = Peg::full(RINGS);
        let middle = Peg::empty();
        let right = Peg::empty();
        assert(left.rings() =~= tower(RINGS));
        Hanoi { left, middle, right }
    }

    /// All rings on the right peg, widest at the bottom.
    pub fn solved() -> (r: Self)
        ensures
            r.peg(0) == Seq::<usize>::empty(),
            r.peg(1) == Seq::<usize>::empty(),
            r.peg(2) == tower(RINGS),
    {
        let left = Peg::empty();
        let middle = Peg::empty();
        let right = Peg::full(RINGS);
        assert(right.rings() =~= tower(RINGS));
        Hanoi { left, middle, right }
    }
}

/// The rings `n, n - 1, ..., 1`, bottom first.
pub open spec fn tower(n: usize) -> Seq<usize> {
    Seq::new(n as nat, |i: int| (n - i) as usize)
}

impl<const RINGS: usize> Default for Hanoi<RINGS> {
    fn default() -> (r: Self)
        ensures
            r.peg(0) == tower(RINGS),
            r.peg(1) == Seq::<usize>::empty(),
            r.peg(2) == Seq::<usize>::empty(),
    {
        Self::new()
    }
}

impl<const RINGS: usize> PartialEq for Hanoi<RINGS> {
    fn eq(&self, other: &Self) -> (r: bool) {
        self.left == other.left && self.middle == other.middle && self.right == other.right
    }
}

impl<const RINGS: usize> vstd::std_specs::cmp::PartialEqSpecImpl for Hanoi<RINGS> {
    open spec fn obeys_eq_spec() -> bool {
        true
    }

    open spec fn eq_spec(&self, other: &Self) -> bool {
        *self == *other
    }
}

impl<const RINGS: usize> State for Hanoi<RINGS> {
    type Point = Coord;

    /// Every legal move, in the order left to middle, left to right, middle to left, middle
    /// to right, right to left, right to middle.
    open spec fn successors(&self) -> Seq<Self> {
        let s0 = Seq::<Self>::empty();
        let s1 = if self.can_move(0, 1) { s0.push(self.moved(0, 1)) } else { s0 };
        let s2 = if self.can_move(0, 2) { s1.push(self.moved(0, 2)) } else { s1 };
        let s3 = if self.can_move(1, 0) { s2.push(self.moved(1, 0)) } else { s2 };
        let s4 = if self.can_move(1, 2) { s3.push(self.moved(1, 2)) } else { s3 };
        let s5 = if self.can_move(2, 0) { s4.push(self.moved(2, 0)) } else { s4 };
        if self.can_move(2, 1) { s5.push(self.moved(2, 1)) } else { s5 }
    }

    /// For the rings from widest to narrowest: where the ring belongs (column 3, in that
    /// order), and where it lies (peg, height).
    open spec fn spec_differences(&self) -> Seq<(Coord, Coord)> {
        Seq::new(
            RINGS as nat,
            |i: int|
                {
                    let at = self.placed(RINGS - 1 - i, 3, 0);
                    (Coord::spec_new(3, i as usize), Coord::spec_new(at.0 as usize, at.1 as usize))
                },
        )
    }

    fn next(&self) -> (r: Vec<Self>) {
        let mut res: Vec<Self> = Vec::new();
        if self.can_move_exec(0, 1) {
            res.push(self.move_ring(0, 1));
        }
        if self.can_move_exec(0, 2) {
            res.push(self.move_ring(0, 2));
        }
        if self.can_move_exec(1, 0) {
            res.push(self.move_ring(1, 0));
        }
        if self.can_move_exec(1, 2) {
            res.push(self.move_ring(1, 2));
        }
        if self.can_move_exec(2, 0) {
            res.push(self.move_ring(2, 0));
        }
        if self.can_move_exec(2, 1) {
            res.push(self.move_ring(2, 1));
        }
        assert(res@ =~= self.successors());
        res
    }

    fn differences(&self) -> (r: Vec<(Coord, Coord)>) {
        proof {
            use_type_invariant(self);
        }
        let mut placements: Vec<Coord> = Vec::new();
        let mut k: usize = 0;
        while k < RINGS
            invariant
                k <= RINGS,
                placements@.len() == k,
                forall|j: int| 0 <= j < k ==> #[trigger] placements@[j] == Coord::spec_new(0, 0),
            decreases RINGS - k,
        {
            placements.push(Coord::new(0, 0));
            k = k + 1;
        }
        let mut p: usize = 0;
        while p < 3
            invariant
                p <= 3,
                placements@.len() == RINGS,
                forall|q: int, i: int|
                    0 <= q < 3 && 0 <= i < self.peg(q).len() ==> 1 <= #[trigger] self.peg(q)[i] <= RINGS,
                forall|j: int|
                    0 <= j < RINGS ==> #[trigger] placements@[j] == Coord::spec_new(
                        self.placed(j, p as int, 0).0 as usize,
                        self.placed(j, p as int, 0).1 as usize,
                    ),
            decreases 3 - p,
        {
            let peg = self.peg_at(p);
            let h = peg.len();
            let mut ind: usize = 0;
            while ind < h
                invariant
                    p < 3,
                    h == self.peg(p as int).len(),
                    peg.rings() == self.peg(p as int),
                    ind <= h,
                    placements@.len() == RINGS,
                    forall|q: int, i: int|
                        0 <= q < 3 && 0 <= i < self.peg(q).len() ==> 1 <= #[trigger] self.peg(q)[i]
                            <= RINGS,
                    forall|j: int|
                        0 <= j < RINGS ==> #[trigger] placements@[j] == Coord::spec_new(
                            self.placed(j, p as int, ind as int).0 as usize,
                            self.placed(j, p as int, ind as int).1 as usize,
                        ),
                decreases h - ind,
            {
                let ring = peg.get(ind);
                assert(1 <= self.peg(p as int)[ind as int] <= RINGS);
                placements.set(ring - 1, Coord::new(p, ind));
                ind = ind + 1;
            }
            p = p + 1;
        }
        let mut res: Vec<(Coord, Coord)> = Vec::new();
        let mut i: usize = 0;
        while i < RINGS
            invariant
                i <= RINGS,
                placements@.len() == RINGS,
                forall|j: int|
                    0 <= j < RINGS ==> #[trigger] placements@[j] == Coord::spec_new(
                        self.placed(j, 3, 0).0 as usize,
                        self.placed(j, 3, 0).1 as usize,
                    ),
                res@.len() == i,
                forall|j: int| 0 <= j < i ==> #[trigger] res@[j] == self.spec_differences()[j],
            decreases RINGS - i,
        {
            res.push((Coord::new(3, i), placements[RINGS - 1 - i]));
            i = i + 1;
        }
        assert(res@ =~= self.spec_differences());
        res
    }

    proof fn lemma_exact_copies() {
    }
}

} // verus!
