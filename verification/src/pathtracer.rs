use vstd::prelude::*;

verus! {

/// The `k`-th chunk of a buffer of `len` pixels cut into chunks of
/// `chunk_size`: from `k * chunk_size` up to the next multiple or the end.
pub open spec fn chunk(k: int, chunk_size: int, len: int) -> (int, int) {
    let start = k * chunk_size;
    (start, if start + chunk_size <= len { start + chunk_size } else { len })
}

/// The pixel ranges that the image buffer is cut into, one per worker: the
/// chunks that `chunks_mut(chunk_size)` yields, as `(start, end)` pairs.
pub fn chunk_ranges(len: usize, chunk_size: usize) -> (r: Vec<(usize, usize)>)
    requires
        chunk_size > 0,
    ensures
        r.len() == (len + chunk_size - 1) / chunk_size as int,
        forall|k: int|
            0 <= k < r.len() ==> (#[trigger] r@[k]).0 == chunk(k, chunk_size as int, len as int).0
                && r@[k].1 == chunk(k, chunk_size as int, len as int).1,
        r.len() == 0 <==> len == 0,
        r.len() > 0 ==> r@[0].0 == 0 && r@[r.len() - 1].1 == len,
        forall|k: int|
            0 <= k < r.len() ==> (#[trigger] r@[k]).0 < r@[k].1 <= len && r@[k].1 - r@[k].0
                <= chunk_size,
        forall|j: int, k: int|
            0 <= j && k == j + 1 && k < r.len() ==> (#[trigger] r@[j]).1 == (#[trigger] r@[k]).0 && r@[j].1
                - r@[j].0 == chunk_size,
{
    let mut r: Vec<(usize, usize)> = Vec::new();
    let mut start: usize = 0;
    proof {
        assert(r.len() * chunk_size == 0) by (nonlinear_arith)
            requires
                r.len() == 0,
        ;
    }
    while start < len
        invariant
            chunk_size > 0,
            start <= len,
            start < len ==> start == r.len() * chunk_size,
            start == len ==> r.len() * chunk_size >= len,
            r.len() > 0 ==> (r.len() - 1) * chunk_size < len,
            r.len() == 0 ==> start == 0,
            forall|k: int|
                0 <= k < r.len() ==> (#[trigger] r@[k]).0 == chunk(k, chunk_size as int, len as int).0
                    && r@[k].1 == chunk(k, chunk_size as int, len as int).1,
        decreases len - start,
    {
        let end = if len - start > chunk_size {
            start + chunk_size
        } else {
            len
        };
        let ghost k = r.len() as int;
        proof {
            assert((k + 1) * chunk_size == k * chunk_size + chunk_size) by (nonlinear_arith);
        }
        r.push((start, end));
        start = end;
    }
    proof {
        let n = r.len() as int;
        let c = chunk_size as int;
        let l = len as int;
        if n == 0 {
            assert(l == 0);
            assert((l + c - 1) / c == 0) by (nonlinear_arith)
                requires
                    l == 0,
                    c > 0,
            ;
        } else {
            assert((n - 1) * c < l && n * c >= l);
            assert((l + c - 1) / c == n) by (nonlinear_arith)
                requires
                    (n - 1) * c < l,
                    n * c >= l,
                    c > 0,
            {
                let q = (l + c - 1) / c;
                assert(c * q <= l + c - 1 < c * q + c);
                if q < n {
                    assert(q <= n - 1);
                    assert(c * q <= c * (n - 1));
                } else if q > n {
                    assert(q >= n + 1);
                    assert(c * q >= c * (n + 1));
                }
            }
        }
    }
    proof {
        let n = r.len() as int;
        let c = chunk_size as int;
        let l = len as int;
        if n > 0 {
            lemma_chunks_tile(l, c, 0);
            lemma_chunks_tile(l, c, n - 1);
        }
        if l > 0 {
            assert((l + c - 1) / c >= 1) by (nonlinear_arith)
                requires
                    l > 0,
                    c > 0,
            ;
        }
        assert forall|k: int| 0 <= k < r.len() implies (#[trigger] r@[k]).0 < r@[k].1 <= len && r@[k].1
            - r@[k].0 <= chunk_size by {
            lemma_chunks_tile(l, c, k);
        }
        assert forall|j: int, k: int|
            0 <= j && k == j + 1 && k < r.len() implies (#[trigger] r@[j]).1 == (#[trigger] r@[k]).0
                && r@[j].1 - r@[j].0 == chunk_size by {
            lemma_chunks_tile(l, c, j);
        }
    }
    r
}

/// The chunks tile the buffer: the `k`-th of the `(len + chunk_size - 1) /
/// chunk_size` chunks starts at `k * chunk_size`, is not empty, ends no later
/// than the buffer and holds at most `chunk_size` pixels; every chunk but the
/// last holds exactly `chunk_size` pixels and ends where the next one starts,
/// and the last one ends at the end of the buffer.
pub proof fn lemma_chunks_tile(len: int, chunk_size: int, k: int)
    requires
        chunk_size > 0,
        len >= 0,
        0 <= k < (len + chunk_size - 1) / chunk_size,
    ensures
        chunk(k, chunk_size, len).0 == k * chunk_size,
        chunk(k, chunk_size, len).0 < chunk(k, chunk_size, len).1 <= len,
        chunk(k, chunk_size, len).1 - chunk(k, chunk_size, len).0 <= chunk_size,
        k + 1 < (len + chunk_size - 1) / chunk_size ==> chunk(k, chunk_size, len).1 == chunk(
            k + 1,
            chunk_size,
            len,
        ).0 && chunk(k, chunk_size, len).1 - chunk(k, chunk_size, len).0 == chunk_size,
        k + 1 == (len + chunk_size - 1) / chunk_size ==> chunk(k, chunk_size, len).1 == len,
{
    let n = (len + chunk_size - 1) / chunk_size;
    let c = chunk_size;
    assert(c * n <= len + c - 1 < c * n + c) by (nonlinear_arith)
        requires
            c > 0,
            len >= 0,
            n == (len + c - 1) / c,
    ;
    assert(k * c < len) by (nonlinear_arith)
        requires
            0 <= k < n,
            c * n <= len + c - 1,
            c > 0,
    {
        assert(k <= n - 1);
        assert(k * c <= (n - 1) * c);
        assert((n - 1) * c == c * n - c);
    }
    assert((k + 1) * c == k * c + c) by (nonlinear_arith);
    if k + 1 < n {
        assert((k + 1) * c < len) by (nonlinear_arith)
            requires
                0 <= k + 1 < n,
                c * n <= len + c - 1,
                c > 0,
        {
            assert(k + 1 <= n - 1);
            assert((k + 1) * c <= (n - 1) * c);
            assert((n - 1) * c == c * n - c);
        }
    }
    if k + 1 == n {
        assert(k * c + c >= len) by (nonlinear_arith)
            requires
                k + 1 == n,
                len + c - 1 < c * n + c,
                c > 0,
        {
            assert(c * n == k * c + c);
        }
    }
}

/// Every pixel of the buffer lies in exactly one chunk: the one numbered by
/// its index divided by the chunk size.
pub proof fn lemma_chunks_cover(len: int, chunk_size: int, idx: int, k: int)
    requires
        chunk_size > 0,
        0 <= idx < len,
        0 <= k,
    ensures
        chunk(k, chunk_size, len).0 <= idx < chunk(k, chunk_size, len).1 <==> k == idx / chunk_size,
        idx / chunk_size < (len + chunk_size - 1) / chunk_size,
{
    let q = idx / chunk_size;
    assert(q * chunk_size <= idx < q * chunk_size + chunk_size) by (nonlinear_arith)
        requires
            chunk_size > 0,
            q == idx / chunk_size,
            idx >= 0,
    ;
    if k < q {
        assert(k * chunk_size + chunk_size <= q * chunk_size) by (nonlinear_arith)
            requires
                k < q,
                chunk_size > 0,
        ;
    }
    if k > q {
        assert(k * chunk_size >= q * chunk_size + chunk_size) by (nonlinear_arith)
            requires
                k > q,
                chunk_size > 0,
        ;
    }
    assert(q < (len + chunk_size - 1) / chunk_size) by (nonlinear_arith)
        requires
            q * chunk_size <= idx,
            idx < len,
            chunk_size > 0,
            q >= 0,
    {
        let m = (len + chunk_size - 1) / chunk_size;
        assert(chunk_size * m + chunk_size > len + chunk_size - 1);
        if m <= q {
            assert(chunk_size * m <= chunk_size * q);
        }
    }
}

/// The column and row of the pixel at position `idx` of a row-major buffer
/// whose rows are `xres` pixels wide.
pub fn pixel_of_index(idx: usize, xres: usize) -> (r: (usize, usize))
    requires
        xres > 0,
    ensures
        r == (idx % xres, idx / xres),
        r.0 < xres,
        r.1 * xres + r.0 == idx,
{
    let y = idx / xres;
    let x = idx % xres;
    proof {
        vstd::arithmetic::div_mod::lemma_fundamental_div_mod(idx as int, xres as int);
        assert(y * xres == xres * y) by (nonlinear_arith);
    }
    (x, y)
}

/// The number of pixels of an `xres` by `yres` image. The product must be a
/// size: not negative, and not past `i32::MAX`, the largest product of two
/// `i32`s that does not overflow.
pub fn pixel_count(xres: i32, yres: i32) -> (r: usize)
    requires
        0 <= xres * yres <= i32::MAX,
    ensures
        r == xres * yres,
{
    let p = xres * yres;
    p as usize
}

/// `v / 2` rounded toward zero, as Rust's `/` on integers rounds.
pub open spec fn half(v: i32) -> int {
    if v >= 0 {
        v / 2
    } else {
        -((-v) / 2)
    }
}

/// The position of the pixel that is painted red to mark the middle of the
/// image: `(xres / 2) * yres + yres / 2`, with Rust's division. It must lie
/// inside the buffer of `xres * yres` pixels (for sizes of at least one
/// pixel each way it always does, see `lemma_marker_inside`).
pub fn marker_index(xres: i32, yres: i32) -> (r: usize)
    requires
        0 <= xres * yres <= i32::MAX,
        0 <= half(xres) * yres + half(yres) < xres * yres,
    ensures
        r == half(xres) * yres + half(yres),
        r < xres * yres,
{
    let h = xres / 2;
    proof {
        assert(h == half(xres));
        if xres >= 0 {
            assert(0 <= h <= xres);
            if xres > 0 {
                assert(yres >= 0) by (nonlinear_arith)
                    requires
                        xres > 0,
                        xres * yres >= 0,
                ;
            }
            assert(0 <= h * yres <= xres * yres) by (nonlinear_arith)
                requires
                    0 <= h <= xres,
                    xres == 0 ==> h == 0,
                    xres > 0 ==> yres >= 0,
            ;
        } else {
            assert(xres <= h <= 0);
            assert(yres <= 0) by (nonlinear_arith)
                requires
                    xres < 0,
                    xres * yres >= 0,
            ;
            assert(0 <= h * yres <= xres * yres) by (nonlinear_arith)
                requires
                    xres <= h <= 0,
                    yres <= 0,
            ;
        }
    }
    let m = h * yres;
    let v = m + yres / 2;
    v as usize
}

/// For an image of at least one pixel each way, the marker lies inside the
/// buffer.
pub proof fn lemma_marker_inside(xres: i32, yres: i32)
    requires
        xres >= 1,
        yres >= 1,
    ensures
        0 <= half(xres) * yres + half(yres) < xres * yres,
{
    let h = half(xres);
    assert(h * yres + yres / 2 < xres * yres) by (nonlinear_arith)
        requires
            h == xres / 2,
            xres >= 1,
            yres >= 1,
    {
        assert(h + 1 <= xres);
        assert((h + 1) * yres <= xres * yres);
        assert(h * yres + yres == (h + 1) * yres);
    }
    assert(h * yres >= 0) by (nonlinear_arith)
        requires
            h >= 0,
            yres >= 1,
    ;
}

} // verus!
