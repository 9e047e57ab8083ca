use vstd::prelude::*;

verus! {

/// The taxicab distance between two cells: the sum of the absolute
/// differences of their coordinates.
pub open spec fn taxicab_distance(a: (int, int), b: (int, int)) -> int {
    (if a.0 >= b.0 {
        a.0 - b.0
    } else {
        b.0 - a.0
    }) + (if a.1 >= b.1 {
        a.1 - b.1
    } else {
        b.1 - a.1
    })
}

/// The taxicab distance between two cells.
pub fn manhattan_distance(a: (isize, isize), b: (isize, isize)) -> (r: u128)
    ensures
        r == taxicab_distance(as_pair(a), as_pair(b)),
{
    let dx: i128 = a.0 as i128 - b.0 as i128;
    let dy: i128 = a.1 as i128 - b.1 as i128;
    let ax: u128 = if dx >= 0 {
        dx as u128
    } else {
        (-dx) as u128
    };
    let ay: u128 = if dy >= 0 {
        dy as u128
    } else {
        (-dy) as u128
    };
    ax + ay
}

/// How many cells the ring of radius `n` has: one for radius zero, four
/// times the radius above it, none for a negative radius.
pub open spec fn ring_len(n: int) -> nat {
    if n == 0 {
        1
    } else if n > 0 {
        (4 * n) as nat
    } else {
        0
    }
}

/// The `k`-th cell of the ring of radius `n` around `(x, y)`.
///
/// The ring starts at `(x + n, y)` and turns through `(x, y + n)`,
/// `(x - n, y)` and `(x, y - n)`, one side of the diamond after another.
pub open spec fn ring_point(x: int, y: int, n: int, k: int) -> (int, int) {
    if k < n {
        (x + n - k, y + k)
    } else if k < 2 * n {
        (x - (k - n), y + n - (k - n))
    } else if k < 3 * n {
        (x - n + (k - 2 * n), y - (k - 2 * n))
    } else {
        (x + (k - 3 * n), y - n + (k - 3 * n))
    }
}

/// The ring of radius `n` around `(x, y)`, in its order of traversal.
pub open spec fn ring(x: int, y: int, n: int) -> Seq<(int, int)> {
    Seq::new(ring_len(n), |k: int| ring_point(x, y, n, k))
}

/// Whether every cell of the ring of radius `n` around `(x, y)` has
/// coordinates that fit the machine integers.
pub open spec fn ring_fits(x: int, y: int, n: int) -> bool {
    n > 0 ==> isize::MIN <= x - n && x + n <= isize::MAX && isize::MIN <= y - n && y + n
        <= isize::MAX
}

/// A machine coordinate, read as a pair of unbounded integers.
pub open spec fn as_pair(p: (isize, isize)) -> (int, int) {
    (p.0 as int, p.1 as int)
}

/// A sequence of machine coordinates, read as unbounded integers.
pub open spec fn as_ints(points: Seq<(isize, isize)>) -> Seq<(int, int)> {
    points.map_values(|p: (isize, isize)| (p.0 as int, p.1 as int))
}

/// The ring of radius zero is the centre alone.
pub proof fn lemma_ring_zero(x: int, y: int)
    ensures
        ring(x, y, 0) == seq![(x, y)],
{
    assert(ring(x, y, 0) =~= seq![(x, y)]);
}

/// The ring of a positive radius has four cells for each unit of the
/// radius, every one of them at taxicab distance `n` from the centre, and
/// within the square of that radius.
pub proof fn lemma_ring_distance(x: int, y: int, n: int)
    requires
        n >= 1,
    ensures
        ring(x, y, n).len() == 4 * n,
        forall|k: int|
            0 <= k < 4 * n ==> taxicab_distance(#[trigger] ring(x, y, n)[k], (x, y)) == n,
        forall|k: int|
            0 <= k < 4 * n ==> x - n <= (#[trigger] ring(x, y, n)[k]).0 <= x + n && y - n <= ring(
                x,
                y,
                n,
            )[k].1 <= y + n,
{
}

/// No cell occurs twice in a ring.
pub proof fn lemma_ring_no_duplicates(x: int, y: int, n: int)
    ensures
        ring(x, y, n).no_duplicates(),
{
    assert forall|i: int, j: int|
        0 <= i < ring(x, y, n).len() && 0 <= j < ring(x, y, n).len() && i != j implies ring(
        x,
        y,
        n,
    )[i] != ring(x, y, n)[j] by {
    }
}

/// Every cell at taxicab distance `n` from the centre occurs in the ring
/// of radius `n`.
pub proof fn lemma_ring_complete(x: int, y: int, n: int, p: (int, int))
    requires
        n >= 0,
        taxicab_distance(p, (x, y)) == n,
    ensures
        ring(x, y, n).contains(p),
{
    let dx = p.0 - x;
    let dy = p.1 - y;
    let k: int = if n == 0 {
        0
    } else if dx > 0 && dy >= 0 {
        dy
    } else if dx <= 0 && dy > 0 {
        n - dx
    } else if dx < 0 && dy <= 0 {
        2 * n - dy
    } else {
        3 * n + dx
    };
    assert(0 <= k < ring_len(n));
    assert(ring(x, y, n)[k] == p);
}

/// The cells of one ring, produced one after another.
pub struct DiamondPoints {
    x: isize,
    y: isize,
    n: isize,
    index: u128,
}

impl DiamondPoints {
    /// The ring fits the machine integers and the cursor is inside it.
    #[verifier::type_invariant]
    pub closed spec fn well_formed(&self) -> bool {
        &&& ring_fits(self.x as int, self.y as int, self.n as int)
        &&& 0 <= self.index <= ring_len(self.n as int)
    }

    /// The centre of the ring.
    pub closed spec fn center_spec(&self) -> (isize, isize) {
        (self.x, self.y)
    }

    /// The radius of the ring.
    pub closed spec fn radius_spec(&self) -> isize {
        self.n
    }

    /// How many cells have been produced.
    pub closed spec fn index_spec(&self) -> int {
        self.index as int
    }

    /// The whole ring that this value walks, whatever has been produced.
    pub open spec fn ring_spec(&self) -> Seq<(int, int)> {
        ring(self.center_spec().0 as int, self.center_spec().1 as int, self.radius_spec() as int)
    }

    /// The cells still to come, in order.
    pub open spec fn remaining_spec(&self) -> Seq<(int, int)> {
        self.ring_spec().subrange(self.index_spec(), self.ring_spec().len() as int)
    }

    /// The ring of radius `n` around `(x, y)`, with nothing produced yet.
    /// A negative radius gives an empty ring.
    pub fn new(x: isize, y: isize, n: isize) -> (r: Self)
        requires
            ring_fits(x as int, y as int, n as int),
        ensures
            r.center_spec() == (x, y),
            r.radius_spec() == n,
            r.index_spec() == 0,
            r.remaining_spec() == ring(x as int, y as int, n as int),
    {
        let r = Self { x, y, n, index: 0 };
        assert(r.remaining_spec() =~= ring(x as int, y as int, n as int));
        r
    }

    /// The next cell of the ring, or `None` when the ring is exhausted.
    pub fn next(&mut self) -> (r: Option<(isize, isize)>)
        ensures
            final(self).center_spec() == old(self).center_spec(),
            final(self).radius_spec() == old(self).radius_spec(),
            old(self).remaining_spec().len() == 0 ==> r is None && final(self).index_spec() == old(
                self
            ).index_spec(),
            old(self).remaining_spec().len() > 0 ==> ({
                &&& final(self).index_spec() == old(self).index_spec() + 1
                &&& final(self).remaining_spec() == old(self).remaining_spec().drop_first()
                &&& r matches Some(p)
                &&& (p.0 as int, p.1 as int) == old(self).remaining_spec()[0]
            }),
    {
        proof {
            use_type_invariant(&*self);
        }
        let x = self.x as i128;
        let y = self.y as i128;
        let n = self.n as i128;
        let k = self.index as i128;
        if self.n < 0 || (self.n == 0 && self.index >= 1) || (self.n > 0 && k >= 4 * n) {
            assert(old(self).remaining_spec().len() == 0);
            return None;
        }
        let point: (i128, i128) = if k < n {
            (x + n - k, y + k)
        } else if k < 2 * n {
            (x - (k - n), y + n - (k - n))
        } else if k < 3 * n {
            (x - n + (k - 2 * n), y - (k - 2 * n))
        } else {
            (x + (k - 3 * n), y - n + (k - 3 * n))
        };
        proof {
            assert(old(self).remaining_spec()[0] == old(self).ring_spec()[k as int]);
            if n > 0 {
                lemma_ring_distance(x as int, y as int, n as int);
            }
        }
        self.index = self.index + 1;
        assert(self.remaining_spec() =~= old(self).remaining_spec().drop_first());
        Some((point.0 as isize, point.1 as isize))
    }

    /// All the cells still to come, in order.
    pub fn collect_vec(self) -> (r: Vec<(isize, isize)>)
        ensures
            as_ints(r@) == self.remaining_spec(),
    {
        let mut points = self;
        let mut out: Vec<(isize, isize)> = Vec::new();
        let ghost all = self.remaining_spec();
        loop
            invariant
                out@.len() + points.remaining_spec().len() == all.len(),
                points.remaining_spec() == all.subrange(out@.len() as int, all.len() as int),
                forall|k: int|
                    0 <= k < out@.len() ==> (out@[k].0 as int, out@[k].1 as int) == #[trigger] all[k],
            ensures
                out@.len() == all.len(),
                forall|k: int|
                    0 <= k < out@.len() ==> (out@[k].0 as int, out@[k].1 as int) == #[trigger] all[k],
            decreases points.remaining_spec().len(),
        {
            match points.next() {
                Some(p) => {
                    out.push(p);
                    assert(points.remaining_spec() =~= all.subrange(
                        out@.len() as int,
                        all.len() as int,
                    ));
                },
                None => {
                    break ;
                },
            }
        }
        assert(as_ints(out@) =~= all);
        out
    }
}

} // verus!
