//! The walls of Flappy Dragon: a column of blocks with a gap to fly through.
use vstd::prelude::*;

verus! {

/// The lowest row of a wall.
pub const WALL_BOTTOM: i32 = -12;

/// The highest row of a wall.
pub const WALL_TOP: i32 = 12;

/// The rows, from `WALL_BOTTOM + k` for `k` below `n`, that hold a block of a
/// wall whose gap is centred on `gap_y`: those more than four rows away.
pub open spec fn wall_rows_upto(gap_y: int, n: nat) -> Seq<i32>
    decreases n,
{
    if n == 0 {
        Seq::empty()
    } else {
        let prev = wall_rows_upto(gap_y, (n - 1) as nat);
        let y = WALL_BOTTOM + n - 1;
        if y < gap_y - 4 || y > gap_y + 4 {
            prev.push(y as i32)
        } else {
            prev
        }
    }
}

/// The rows of a wall, from bottom to top, that hold a block: every row from
/// `WALL_BOTTOM` to `WALL_TOP` except the nine centred on `gap_y`.
pub fn wall_rows(gap_y: i32) -> (r: Vec<i32>)
    requires
        i32::MIN + 4 <= gap_y <= i32::MAX - 4,
    ensures
        r@ == wall_rows_upto(gap_y as int, 25),
{
    let mut rows: Vec<i32> = Vec::new();
    let mut y: i32 = WALL_BOTTOM;
    while y <= WALL_TOP
        invariant
            WALL_BOTTOM <= y <= WALL_TOP + 1,
            i32::MIN + 4 <= gap_y <= i32::MAX - 4,
            rows@ == wall_rows_upto(gap_y as int, (y - WALL_BOTTOM) as nat),
        decreases WALL_TOP + 1 - y,
    {
        if y < gap_y - 4 || y > gap_y + 4 {
            rows.push(y);
        }
        y = y + 1;
    }
    rows
}

/// A row holds a block exactly when it is more than four rows from the gap's
/// centre; the rows come from bottom to top, each once.
pub proof fn wall_rows_surround_the_gap(gap_y: int, n: nat)
    requires
        n <= 25,
    ensures
        forall|y: i32|
            WALL_BOTTOM <= y < WALL_BOTTOM + n ==> (#[trigger] wall_rows_upto(gap_y, n).contains(y) <==> (
            y < gap_y - 4 || y > gap_y + 4)),
        forall|a: int, b: int|
            0 <= a < b < wall_rows_upto(gap_y, n).len() ==> wall_rows_upto(gap_y, n)[a]
                < wall_rows_upto(gap_y, n)[b],
        forall|k: int|
            0 <= k < wall_rows_upto(gap_y, n).len() ==> WALL_BOTTOM <= #[trigger] wall_rows_upto(
                gap_y,
                n,
            )[k] < WALL_BOTTOM + n,
    decreases n,
{
    if n > 0 {
        let m = (n - 1) as nat;
        wall_rows_surround_the_gap(gap_y, m);
        let prev = wall_rows_upto(gap_y, m);
        let cur = wall_rows_upto(gap_y, n);
        assert forall|k: int| 0 <= k < cur.len() implies WALL_BOTTOM <= #[trigger] cur[k]
            < WALL_BOTTOM + n by {
            if k < prev.len() {
                assert(cur[k] == prev[k]);
            }
        }
        assert forall|y: i32| WALL_BOTTOM <= y < WALL_BOTTOM + n implies (#[trigger] cur.contains(y) <==> (
        y < gap_y - 4 || y > gap_y + 4)) by {
            if y < WALL_BOTTOM + m {
                if cur.contains(y) {
                    let k = choose|k: int| 0 <= k < cur.len() && cur[k] == y;
                    if k < prev.len() {
                        assert(prev[k] == cur[k]);
                    } else {
                        assert(cur[k] == WALL_BOTTOM + m);
                    }
                }
                if prev.contains(y) {
                    let k = choose|k: int| 0 <= k < prev.len() && prev[k] == y;
                    assert(cur[k] == prev[k]);
                }
            } else {
                if y < gap_y - 4 || y > gap_y + 4 {
                    assert(cur[cur.len() - 1] == y);
                } else if cur.contains(y) {
                    let k = choose|k: int| 0 <= k < cur.len() && cur[k] == y;
                    assert(cur[k] == prev[k]);
                }
            }
        }
        assert forall|a: int, b: int| 0 <= a < b < cur.len() implies cur[a] < cur[b] by {
            if b < prev.len() {
                assert(cur[a] == prev[a] && cur[b] == prev[b]);
            } else {
                assert(cur[a] == prev[a]);
            }
        }
    }
}

} // verus!
