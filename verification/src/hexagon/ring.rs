use crate::hexagon::point::hex_distance_spec;
use vstd::prelude::*;

verus! {

/// How many cells the ring of radius `n` has: one for radius zero, six
/// times the radius above it, none for a negative radius.
pub open spec fn ring_len(n: int) -> nat {
    if n == 0 {
        1
    } else if n > 0 {
        (6 * n) as nat
    } else {
        0
    }
}

/// The `k`-th cell of the ring of radius `n` around `(x, y)`.
///
/// The ring starts at `(x + n, y)` and walks the six sides of the hexagon
/// through the corners `(x, y + n)`, `(x - n, y + n)`, `(x - n, y)`,
/// `(x, y - n)` and `(x + n, y - n)`.
pub open spec fn ring_point(x: int, y: int, n: int, k: int) -> (int, int) {
    if k < n {
        (x + n - k, y + k)
    } else if k < 2 * n {
        (x - (k - n), y + n)
    } else if k < 3 * n {
        (x - n, y + n - (k - 2 * n))
    } else if k < 4 * n {
        (x - n + (k - 3 * n), y - (k - 3 * n))
    } else if k < 5 * n {
        (x + (k - 4 * n), y - n)
    } else {
        (x + n, y - n + (k - 5 * n))
    }
}

/// The ring of radius `n` around `(x, y)`, in its order of traversal.
pub open spec fn ring(x: int, y: int, n: int) -> Seq<(int, int)> {
    Seq::new(ring_len(n), |k: int| ring_point(x, y, n, k))
}

/// Whether every cell of the ring of radius `n` around `(x, y)` has
/// coordinates that fit the machine integers.
pub open spec fn ring_fits(x: int, y: int, n: int) -> bool {
    n > 0 ==> isize::MIN <= x - n && x + n <= isize::MAX && isize::MIN <= y - n && y + n
        <= isize::MAX
}

/// The ring of radius zero is the centre alone.
pub proof fn lemma_ring_zero(x: int, y: int)
    ensures
        ring(x, y, 0) == seq![(x, y)],
{
    assert(ring(x, y, 0) =~= seq![(x, y)]);
}

/// The ring of a positive radius has six cells for each unit of the
/// radius, every one of them `n` steps from the centre.
pub proof fn lemma_ring_distance(x: int, y: int, n: int)
    requires
        n >= 1,
    ensures
        ring(x, y, n).len() == 6 * n,
        forall|k: int|
            0 <= k < 6 * n ==> hex_distance_spec(#[trigger] ring(x, y, n)[k], (x, y)) == n,
        forall|k: int|
            0 <= k < 6 * n ==> x - n <= (#[trigger] ring(x, y, n)[k]).0 <= x + n && y - n <= ring(
                x,
                y,
                n,
            )[k].1 <= y + n,
{
}

/// No cell occurs twice in a ring.
pub proof fn lemma_ring_no_duplicates(x: int, y: int, n: int)
    ensures
        ring(x, y, n).no_duplicates(),
{
    assert forall|i: int, j: int|
        0 <= i < ring(x, y, n).len() && 0 <= j < ring(x, y, n).len() && i != j implies ring(
        x,
        y,
        n,
    )[i] != ring(x, y, n)[j] by {
    }
}

/// Every cell `n` steps from the centre occurs in the ring of radius `n`.
pub proof fn lemma_ring_complete(x: int, y: int, n: int, p: (int, int))
    requires
        n >= 0,
        hex_distance_spec(p, (x, y)) == n,
    ensures
        ring(x, y, n).contains(p),
{
    let dx = p.0 - x;
    let dy = p.1 - y;
    let k: int = if n == 0 {
        0
    } else if dx > 0 && dy >= 0 {
        dy
    } else if dy == n {
        n - dx
    } else if dx == -n && dy > 0 {
        3 * n - dy
    } else if dx < 0 && dy <= 0 {
        3 * n - dy
    } else if dy == -n {
        4 * n + dx
    } else {
        6 * n + dy
    };
    assert(0 <= k < ring_len(n));
    assert(ring(x, y, n)[k] == p);
}

} // verus!
