//! Boards of cells in rows, and runs of equal stones along a line.
use vstd::prelude::*;

verus! {

/// A position on a board of cells, `size` to a row: `0` is empty, `1` and `-1` are the stones
/// of the two sides; `moves` moves were played, the last on square `last`.
pub struct Position {
    pub size: int,
    pub cells: Seq<i8>,
    pub moves: int,
    pub last: int,
}

/// The side to move after `moves` moves: the first player is `1`.
pub open spec fn side_after(moves: int) -> i8 {
    if moves % 2 == 0 {
        1i8
    } else {
        -1i8
    }
}

/// The side that made the last of `moves` moves.
pub open spec fn last_side(moves: int) -> i8 {
    if moves % 2 == 0 {
        -1i8
    } else {
        1i8
    }
}

/// Every cell is empty or holds a stone of one side.
pub open spec fn stones_ok(cells: Seq<i8>) -> bool {
    forall|i: int| 0 <= i < cells.len() ==> -1 <= #[trigger] cells[i] <= 1
}

/// The row and column steps of the four line directions: along a row, down a
/// column, down-right and down-left.
pub open spec fn step(k: int) -> (int, int) {
    if k == 0 {
        (0, 1)
    } else if k == 1 {
        (1, 0)
    } else if k == 2 {
        (1, 1)
    } else {
        (1, -1)
    }
}

/// The cells hold `p` along `len` squares from row `r`, column `c`, in
/// direction `k`, all on a board of `h` rows of `w` cells.
pub open spec fn run(cells: Seq<i8>, w: int, h: int, r: int, c: int, k: int, len: int, p: i8) -> bool {
    forall|i: int| 0 <= i < len ==> #[trigger] on_line(cells, w, h, r, c, k, i, p)
}

/// The `i`-th square from row `r`, column `c` in direction `k` is on the
/// board and holds `p`.
pub open spec fn on_line(cells: Seq<i8>, w: int, h: int, r: int, c: int, k: int, i: int, p: i8) -> bool {
    let rr = r + i * step(k).0;
    let cc = c + i * step(k).1;
    &&& 0 <= rr < h
    &&& 0 <= cc < w
    &&& cells[rr * w + cc] == p
}

/// Somewhere on the board, `len` cells in a line hold `p`.
pub open spec fn has_run(cells: Seq<i8>, w: int, h: int, len: int, p: i8) -> bool {
    exists|r: int, c: int, k: int|
        0 <= r < h && 0 <= c < w && 0 <= k < 4 && #[trigger] run(cells, w, h, r, c, k, len, p)
}

/// Somewhere on the board, `len` cells in a line of direction `k` hold `p`.
pub open spec fn has_run_dir(cells: Seq<i8>, w: int, h: int, len: int, p: i8, k: int) -> bool {
    exists|r: int, c: int| 0 <= r < h && 0 <= c < w && #[trigger] run(cells, w, h, r, c, k, len, p)
}

/// A run exists exactly when one exists in some direction.
pub proof fn lemma_has_run_dirs(cells: Seq<i8>, w: int, h: int, len: int, p: i8)
    ensures
        has_run(cells, w, h, len, p) == (has_run_dir(cells, w, h, len, p, 0) || has_run_dir(
            cells,
            w,
            h,
            len,
            p,
            1,
        ) || has_run_dir(cells, w, h, len, p, 2) || has_run_dir(cells, w, h, len, p, 3)),
{
    if has_run(cells, w, h, len, p) {
        let (r, c, k) = choose|r: int, c: int, k: int|
            0 <= r < h && 0 <= c < w && 0 <= k < 4 && #[trigger] run(cells, w, h, r, c, k, len, p);
        assert(has_run_dir(cells, w, h, len, p, k));
    }
    if has_run_dir(cells, w, h, len, p, 0) || has_run_dir(cells, w, h, len, p, 1) || has_run_dir(
        cells,
        w,
        h,
        len,
        p,
        2,
    ) || has_run_dir(cells, w, h, len, p, 3) {
        let k = if has_run_dir(cells, w, h, len, p, 0) {
            0
        } else if has_run_dir(cells, w, h, len, p, 1) {
            1
        } else if has_run_dir(cells, w, h, len, p, 2) {
            2
        } else {
            3
        };
        let (r, c) = choose|r: int, c: int|
            0 <= r < h && 0 <= c < w && #[trigger] run(cells, w, h, r, c, k, len, p);
        assert(run(cells, w, h, r, c, k, len, p));
    }
}

/// Whether `has_run_dir(cells, w, h, len, p, k)` holds.
pub fn find_run_dir(cells: &Vec<i8>, w: usize, h: usize, len: usize, p: i8, k: usize) -> (b: bool)
    requires
        cells@.len() == w * h,
        1 <= w <= 64,
        1 <= h <= 64,
        len <= 64,
        k < 4,
    ensures
        b == has_run_dir(cells@, w as int, h as int, len as int, p, k as int),
{
    let mut r: usize = 0;
    while r < h
        invariant
            cells@.len() == w * h,
            1 <= w <= 64,
            1 <= h <= 64,
            len <= 64,
            k < 4,
            r <= h,
            forall|r2: int, c2: int|
                0 <= r2 < r && 0 <= c2 < w ==> !#[trigger] run(
                    cells@,
                    w as int,
                    h as int,
                    r2,
                    c2,
                    k as int,
                    len as int,
                    p,
                ),
        decreases h - r,
    {
        let mut c: usize = 0;
        while c < w
            invariant
                cells@.len() == w * h,
                1 <= w <= 64,
                1 <= h <= 64,
                len <= 64,
                k < 4,
                r < h,
                c <= w,
                forall|r2: int, c2: int|
                    (0 <= r2 < r && 0 <= c2 < w || r2 == r && 0 <= c2 < c) ==> !#[trigger] run(
                        cells@,
                        w as int,
                        h as int,
                        r2,
                        c2,
                        k as int,
                        len as int,
                        p,
                    ),
            decreases w - c,
        {
            if run_at(cells, w, h, r as i64, c as i64, k, len, p) {
                return true;
            }
            c = c + 1;
        }
        r = r + 1;
    }
    false
}

/// A line of `len` cells holding `p` passes through row `r0`, column `c0`.
pub open spec fn has_run_through(
    cells: Seq<i8>,
    w: int,
    h: int,
    len: int,
    p: i8,
    r0: int,
    c0: int,
) -> bool {
    exists|o: int, k: int|
        0 <= o < len && 0 <= k < 4 && #[trigger] run(
            cells,
            w,
            h,
            r0 - o * step(k).0,
            c0 - o * step(k).1,
            k,
            len,
            p,
        )
}

/// Whether `run(cells, w, h, r, c, k, len, p)` holds.
pub fn run_at(cells: &Vec<i8>, w: usize, h: usize, r: i64, c: i64, k: usize, len: usize, p: i8) -> (b: bool)
    requires
        cells@.len() == w * h,
        1 <= w <= 64,
        1 <= h <= 64,
        -128 <= r <= 128,
        -128 <= c <= 128,
        k < 4,
        len <= 64,
    ensures
        b == run(cells@, w as int, h as int, r as int, c as int, k as int, len as int, p),
{
    let (dr, dc): (i64, i64) = if k == 0 {
        (0, 1)
    } else if k == 1 {
        (1, 0)
    } else if k == 2 {
        (1, 1)
    } else {
        (1, -1)
    };
    let mut i: usize = 0;
    while i < len
        invariant
            cells@.len() == w * h,
            1 <= w <= 64,
            1 <= h <= 64,
            -128 <= r <= 128,
            -128 <= c <= 128,
            len <= 64,
            i <= len,
            (dr as int, dc as int) == step(k as int),
            -1 <= dr <= 1,
            -1 <= dc <= 1,
            forall|j: int|
                0 <= j < i ==> #[trigger] on_line(cells@, w as int, h as int, r as int, c as int, k as int, j, p),
        decreases len - i,
    {
        assert(-64 <= i * dr <= 64 && -64 <= i * dc <= 64) by (nonlinear_arith)
            requires i <= 64, -1 <= dr <= 1, -1 <= dc <= 1;
        let rr = r + i as i64 * dr;
        let cc = c + i as i64 * dc;
        if rr < 0 || rr >= h as i64 || cc < 0 || cc >= w as i64 {
            assert(!on_line(cells@, w as int, h as int, r as int, c as int, k as int, i as int, p));
            return false;
        }
        assert(rr * w + cc < w * h) by (nonlinear_arith)
            requires 0 <= rr < h, 0 <= cc < w;
        assert(rr * w <= 64 * 64) by (nonlinear_arith)
            requires 0 <= rr < h, h <= 64, w <= 64;
        let idx = rr as usize * w + cc as usize;
        if cells[idx] != p {
            assert(!on_line(cells@, w as int, h as int, r as int, c as int, k as int, i as int, p));
            return false;
        }
        i = i + 1;
    }
    true
}

/// Whether `has_run(cells, w, h, len, p)` holds.
pub fn find_run(cells: &Vec<i8>, w: usize, h: usize, len: usize, p: i8) -> (b: bool)
    requires
        cells@.len() == w * h,
        1 <= w <= 64,
        1 <= h <= 64,
        len <= 64,
    ensures
        b == has_run(cells@, w as int, h as int, len as int, p),
{
    let mut r: usize = 0;
    while r < h
        invariant
            cells@.len() == w * h,
            1 <= w <= 64,
            1 <= h <= 64,
            len <= 64,
            r <= h,
            forall|r2: int, c2: int, k2: int|
                0 <= r2 < r && 0 <= c2 < w && 0 <= k2 < 4 ==> !#[trigger] run(
                    cells@,
                    w as int,
                    h as int,
                    r2,
                    c2,
                    k2,
                    len as int,
                    p,
                ),
        decreases h - r,
    {
        let mut c: usize = 0;
        while c < w
            invariant
                cells@.len() == w * h,
                1 <= w <= 64,
                1 <= h <= 64,
                len <= 64,
                r < h,
                c <= w,
                forall|r2: int, c2: int, k2: int|
                    (0 <= r2 < r && 0 <= c2 < w || r2 == r && 0 <= c2 < c) && 0 <= k2 < 4 ==> !#[trigger] run(
                        cells@,
                        w as int,
                        h as int,
                        r2,
                        c2,
                        k2,
                        len as int,
                        p,
                    ),
            decreases w - c,
        {
            let mut k: usize = 0;
            while k < 4
                invariant
                    cells@.len() == w * h,
                    1 <= w <= 64,
                    1 <= h <= 64,
                    len <= 64,
                    r < h,
                    c < w,
                    k <= 4,
                    forall|r2: int, c2: int, k2: int|
                        (0 <= r2 < r && 0 <= c2 < w || r2 == r && 0 <= c2 < c || r2 == r && c2 == c
                            && k2 < k) && 0 <= k2 < 4 ==> !#[trigger] run(
                            cells@,
                            w as int,
                            h as int,
                            r2,
                            c2,
                            k2,
                            len as int,
                            p,
                        ),
                decreases 4 - k,
            {
                if run_at(cells, w, h, r as i64, c as i64, k, len, p) {
                    assert(run(cells@, w as int, h as int, r as int, c as int, k as int, len as int, p));
                    return true;
                }
                k = k + 1;
            }
            c = c + 1;
        }
        r = r + 1;
    }
    false
}

/// Whether `has_run_through(cells, w, h, len, p, r0, c0)` holds.
pub fn find_run_through(cells: &Vec<i8>, w: usize, h: usize, len: usize, p: i8, r0: usize, c0: usize) -> (b:
    bool)
    requires
        cells@.len() == w * h,
        1 <= w <= 64,
        1 <= h <= 64,
        len <= 64,
        r0 < h,
        c0 < w,
    ensures
        b == has_run_through(cells@, w as int, h as int, len as int, p, r0 as int, c0 as int),
{
    let mut o: usize = 0;
    while o < len
        invariant
            cells@.len() == w * h,
            1 <= w <= 64,
            1 <= h <= 64,
            len <= 64,
            r0 < h,
            c0 < w,
            o <= len,
            forall|o2: int, k2: int|
                0 <= o2 < o && 0 <= k2 < 4 ==> !#[trigger] run(
                    cells@,
                    w as int,
                    h as int,
                    r0 - o2 * step(k2).0,
                    c0 - o2 * step(k2).1,
                    k2,
                    len as int,
                    p,
                ),
        decreases len - o,
    {
        let mut k: usize = 0;
        while k < 4
            invariant
                cells@.len() == w * h,
                1 <= w <= 64,
                1 <= h <= 64,
                len <= 64,
                r0 < h,
                c0 < w,
                o < len,
                k <= 4,
                forall|o2: int, k2: int|
                    (0 <= o2 < o || o2 == o && k2 < k) && 0 <= k2 < 4 ==> !#[trigger] run(
                        cells@,
                        w as int,
                        h as int,
                        r0 - o2 * step(k2).0,
                        c0 - o2 * step(k2).1,
                        k2,
                        len as int,
                        p,
                    ),
            decreases 4 - k,
        {
            let (dr, dc): (i64, i64) = if k == 0 {
                (0, 1)
            } else if k == 1 {
                (1, 0)
            } else if k == 2 {
                (1, 1)
            } else {
                (1, -1)
            };
            assert(-64 <= o * dr <= 64 && -64 <= o * dc <= 64) by (nonlinear_arith)
                requires o <= 64, -1 <= dr <= 1, -1 <= dc <= 1;
            let r = r0 as i64 - o as i64 * dr;
            let c = c0 as i64 - o as i64 * dc;
            assert(r as int == r0 - o * step(k as int).0);
            assert(c as int == c0 - o * step(k as int).1);
            if run_at(cells, w, h, r, c, k, len, p) {
                assert(run(cells@, w as int, h as int, r as int, c as int, k as int, len as int, p));
                return true;
            }
            k = k + 1;
        }
        o = o + 1;
    }
    false
}

/// A position as a vector of bits, two per cell: the first for a stone of
/// side `-1`, the second for a stone of side `1`.
pub struct StateVector {
    pub data: Vec<u8>,
}

/// Whether `data` encodes `cells`, two bits per cell.
pub open spec fn encodes(data: Seq<u8>, cells: Seq<i8>) -> bool {
    &&& data.len() == 2 * cells.len()
    &&& forall|i: int|
        0 <= i < cells.len() ==> data[2 * i] == (if #[trigger] cells[i] == -1 { 1u8 } else { 0u8 })
            && data[2 * i + 1] == (if cells[i] == 1 { 1u8 } else { 0u8 })
}

/// The state vector of the cells.
pub fn vectorise_cells(cells: &Vec<i8>) -> (r: StateVector)
    requires
        cells@.len() <= 1024,
    ensures
        encodes(r.data@, cells@),
{
    let mut data: Vec<u8> = Vec::new();
    let mut i: usize = 0;
    while i < cells.len()
        invariant
            i <= cells@.len(),
            cells@.len() <= 1024,
            encodes(data@, cells@.subrange(0, i as int)),
        decreases cells@.len() - i,
    {
        let c = cells[i];
        data.push(if c == -1 { 1 } else { 0 });
        data.push(if c == 1 { 1 } else { 0 });
        i = i + 1;
        proof {
            let sub = cells@.subrange(0, i as int);
            assert forall|j: int| 0 <= j < sub.len() implies data@[2 * j] == (if #[trigger] sub[j] == -1 {
                1u8
            } else {
                0u8
            }) && data@[2 * j + 1] == (if sub[j] == 1 { 1u8 } else { 0u8 }) by {
                assert(sub[j] == cells@[j]);
                if j < i - 1 {
                    assert(cells@.subrange(0, i - 1)[j] == cells@[j]);
                }
            }
        }
    }
    assert(cells@.subrange(0, i as int) =~= cells@);
    StateVector { data }
}

/// A copy of the cells.
pub fn copy_cells(cells: &Vec<i8>) -> (r: Vec<i8>)
    ensures
        r@ == cells@,
{
    let mut r: Vec<i8> = Vec::new();
    let mut i: usize = 0;
    while i < cells.len()
        invariant
            i <= cells@.len(),
            r@ == cells@.subrange(0, i as int),
        decreases cells@.len() - i,
    {
        r.push(cells[i]);
        i = i + 1;
        assert(r@ =~= cells@.subrange(0, i as int));
    }
    assert(cells@.subrange(0, i as int) =~= cells@);
    r
}

/// The empty squares among the first `n` cells, as indices in increasing order.
pub open spec fn empties_below(cells: Seq<i8>, n: int) -> Seq<usize>
    decreases n,
{
    if n <= 0 {
        Seq::empty()
    } else if cells[n - 1] == 0 {
        empties_below(cells, n - 1).push((n - 1) as usize)
    } else {
        empties_below(cells, n - 1)
    }
}

/// Every listed square is below `n` and empty.
pub proof fn lemma_empties_below(cells: Seq<i8>, n: int)
    requires
        0 <= n <= cells.len(),
        cells.len() <= usize::MAX,
    ensures
        forall|j: int|
            0 <= j < empties_below(cells, n).len() ==> #[trigger] empties_below(cells, n)[j] < n
                && cells[empties_below(cells, n)[j] as int] == 0,
    decreases n,
{
    if n > 0 {
        lemma_empties_below(cells, n - 1);
        let prev = empties_below(cells, n - 1);
        let cur = empties_below(cells, n);
        assert forall|j: int| 0 <= j < cur.len() implies #[trigger] cur[j] < n && cells[cur[j] as int] == 0 by {
            if j < prev.len() {
                assert(cur[j] == prev[j]);
            } else {
                assert(cur[j] == (n - 1) as usize);
            }
        }
    }
}

/// At most `n` squares are listed.
pub proof fn lemma_empties_len(cells: Seq<i8>, n: int)
    requires
        0 <= n,
    ensures
        empties_below(cells, n).len() <= n,
    decreases n,
{
    if n > 0 {
        lemma_empties_len(cells, n - 1);
    }
}

/// Filling an empty square removes one square from the list.
pub proof fn lemma_empties_fill(cells: Seq<i8>, k: int, x: i8, n: int)
    requires
        0 <= k < cells.len(),
        0 <= n <= cells.len(),
        cells[k] == 0,
        x != 0,
    ensures
        empties_below(cells.update(k, x), n).len() == empties_below(cells, n).len() - (if k < n {
            1int
        } else {
            0int
        }),
    decreases n,
{
    if n > 0 {
        lemma_empties_fill(cells, k, x, n - 1);
    }
}

} // verus!
