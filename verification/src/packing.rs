//! Operand panel packing: the packed-panel size function of a packing
//! format, the panel layout itself, and its round trip through the output
//! write-back path.
//!
//! A matrix of `rows x k` one-byte elements is packed into
//! `ceil(rows / r)` panels of `r` rows each; within a panel the elements are
//! column-major (`r` consecutive rows per reduction step), with zero padding
//! for the rows past the end of the matrix.

use vstd::prelude::*;
use vstd::arithmetic::div_mod::lemma_fundamental_div_mod;
use crate::storage::in_isize;
use vstd::arithmetic::div_mod::lemma_fundamental_div_mod_converse;

verus! {

/// The layout of one packed operand side of a kernel: panels of
/// `panel_rows` rows (`mr` for the A side, `nr` for the B side), and the
/// byte alignment the kernel wants the panel buffer allocated with.
#[derive(Clone, Copy, PartialEq, Eq, Structural, Debug)]
pub struct PackingFormat {
    pub panel_rows: usize,
    pub alignment: usize,
}

/// Number of panels needed for `rows` rows in panels of `r`.
pub open spec fn panels_of(rows: int, r: int) -> int {
    (rows + r - 1) / r
}

/// Element count of a packed panel buffer: full panels of `r` rows, each
/// panel holding `r * k` elements.
pub open spec fn spec_pack_len(r: int, k: int, rows: int) -> int {
    panels_of(rows, r) * r * k
}

impl PackingFormat {
    /// Size of a packed panel buffer, in elements, for `k` reduction steps
    /// and `rows` rows. Callers must allocate at least this many elements
    /// (times the element size), aligned to `self.alignment`.
    pub fn len(&self, k: usize, rows: usize) -> (r: usize)
        requires
            self.panel_rows >= 1,
            rows + self.panel_rows <= usize::MAX,
            spec_pack_len(self.panel_rows as int, k as int, rows as int) <= usize::MAX,
        ensures
            r == spec_pack_len(self.panel_rows as int, k as int, rows as int),
    {
        let pr = self.panel_rows;
        let panels = (rows + pr - 1) / pr;
        proof {
            lemma_fundamental_div_mod(rows + pr - 1, pr as int);
            assert(panels * pr <= rows + pr - 1) by (nonlinear_arith)
                requires
                    pr >= 1,
                    rows + pr - 1 == pr * ((rows + pr - 1) as int / pr as int) + (rows + pr
                        - 1) as int % pr as int,
                    0 <= (rows + pr - 1) as int % pr as int,
                    panels == (rows + pr - 1) as int / pr as int,
            ;
            if k > 0 {
                assert(panels * pr <= panels * pr * k) by (nonlinear_arith)
                    requires
                        k >= 1,
                        panels * pr >= 0,
                ;
            }
        }
        if k == 0 {
            proof {
                assert(spec_pack_len(pr as int, 0, rows as int) == 0) by (nonlinear_arith);
            }
            0
        } else {
            panels * pr * k
        }
    }
}

/// The element a packed panel buffer holds at panel `p`, reduction step
/// `j`, panel row `i`: the matrix element at row `p*r + i`, column `j`, or
/// zero padding past the last row.
pub open spec fn packed_at(m: Seq<u8>, rows: int, k: int, r: int, p: int, j: int, i: int) -> u8 {
    if p * r + i < rows {
        m[(p * r + i) * k + j]
    } else {
        0
    }
}

/// The packed panel buffer of a row-major `rows x k` matrix of one-byte
/// elements, in panels of `r` rows.
pub open spec fn spec_pack(m: Seq<u8>, rows: int, k: int, r: int) -> Seq<u8> {
    Seq::new(
        (spec_pack_len(r, k, rows)) as nat,
        |idx: int|
            packed_at(m, rows, k, r, idx / (r * k), (idx % (r * k)) / r, (idx % (r * k)) % r),
    )
}

/// The row-major matrix read back from a packed panel buffer: element
/// `(y, x)` comes from panel `y / r`, reduction step `x`, panel row `y % r`.
pub open spec fn spec_unpack(packed: Seq<u8>, rows: int, k: int, r: int) -> Seq<u8> {
    Seq::new(
        (rows * k) as nat,
        |idx: int|
            packed[(idx / k / r) * (r * k) + (idx % k) * r + (idx / k) % r],
    )
}

/// Positions inside one panel: offset `p*(r*k) + j*r + i` decomposes back
/// into `(p, j, i)`.
pub(crate) proof fn lemma_panel_coords(p: int, j: int, i: int, r: int, k: int)
    requires
        r >= 1,
        k >= 1,
        0 <= i < r,
        0 <= j < k,
        0 <= p,
    ensures
        (p * (r * k) + j * r + i) / (r * k) == p,
        ((p * (r * k) + j * r + i) % (r * k)) / r == j,
        ((p * (r * k) + j * r + i) % (r * k)) % r == i,
{
    let rem = j * r + i;
    let idx = p * (r * k) + rem;
    assert(0 <= j * r + i < r * k) by (nonlinear_arith)
        requires
            0 <= i < r,
            0 <= j < k,
            r >= 1,
            k >= 1,
    ;
    lemma_fundamental_div_mod_converse(idx, r * k, p, rem);
    lemma_fundamental_div_mod_converse(rem, r, j, i);
}

/// Pack a row-major `rows x k` matrix of one-byte elements into panels of
/// `r` rows, zero-padding the rows past the end.
pub fn pack_panels(m: &Vec<u8>, rows: usize, k: usize, r: usize) -> (out: Vec<u8>)
    requires
        r >= 1,
        k >= 1,
        rows + r <= usize::MAX,
        m@.len() == rows * k,
        spec_pack_len(r as int, k as int, rows as int) <= usize::MAX,
    ensures
        out@ == spec_pack(m@, rows as int, k as int, r as int),
{
    let ghost target = spec_pack(m@, rows as int, k as int, r as int);
    let panels = (rows + r - 1) / r;
    proof {
        lemma_fundamental_div_mod(rows + r - 1, r as int);
        assert(panels * r <= rows + r - 1 && panels * r >= rows) by (nonlinear_arith)
            requires
                r >= 1,
                rows + r - 1 == r * panels + ((rows + r - 1) as int % (r as int)),
                0 <= ((rows + r - 1) as int % (r as int)) < r,
        ;
    }
    let mut out: Vec<u8> = Vec::new();
    let mut p: usize = 0;
    while p < panels
        invariant
            r >= 1,
            k >= 1,
            rows + r <= usize::MAX,
            m@.len() == rows * k,
            panels == panels_of(rows as int, r as int),
            panels * r <= rows + r - 1,
            panels * r >= rows,
            target == spec_pack(m@, rows as int, k as int, r as int),
            target.len() == panels * r * k,
            p <= panels,
            out@.len() == p * (r * k),
            out@ == target.subrange(0, (p * (r * k)) as int),
        decreases panels - p,
    {
        proof {
            assert(p * (r * k) + (k - 1) * r + (r - 1) < panels * (r * k) && p * r <= panels * r
                && panels * (r * k) == panels * r * k) by (nonlinear_arith)
                requires
                    0 <= p < panels,
                    r >= 1,
                    k >= 1,
            ;
        }
        let mut j: usize = 0;
        while j < k
            invariant
                r >= 1,
                k >= 1,
                rows + r <= usize::MAX,
                m@.len() == rows * k,
                panels * r <= rows + r - 1,
                panels * r >= rows,
                target == spec_pack(m@, rows as int, k as int, r as int),
                target.len() == panels * r * k,
                p < panels,
                p * (r * k) + (k - 1) * r + (r - 1) < panels * (r * k),
                panels * (r * k) == panels * r * k,
                p * r <= panels * r,
                j <= k,
                out@.len() == p * (r * k) + j * r,
                out@ == target.subrange(0, (p * (r * k) + j * r) as int),
            decreases k - j,
        {
            let mut i: usize = 0;
            while i < r
                invariant
                    r >= 1,
                    k >= 1,
                    rows + r <= usize::MAX,
                    m@.len() == rows * k,
                    panels * r <= rows + r - 1,
                    panels * r >= rows,
                    target == spec_pack(m@, rows as int, k as int, r as int),
                    target.len() == panels * r * k,
                    p < panels,
                    p * (r * k) + (k - 1) * r + (r - 1) < panels * (r * k),
                    panels * (r * k) == panels * r * k,
                    p * r <= panels * r,
                    j < k,
                    i <= r,
                    out@.len() == p * (r * k) + j * r + i,
                    out@ == target.subrange(0, (p * (r * k) + j * r + i) as int),
                decreases r - i,
            {
                let ghost idx = p * (r * k) + j * r + i;
                proof {
                    assert(idx < panels * r * k) by (nonlinear_arith)
                        requires
                            idx == p * (r * k) + j * r + i,
                            p * (r * k) + (k - 1) * r + (r - 1) < panels * (r * k),
                            panels * (r * k) == panels * r * k,
                            i < r,
                            j < k,
                            r >= 1,
                    ;
                    lemma_panel_coords(p as int, j as int, i as int, r as int, k as int);
                }
                proof {
                    assert(p * r + i < panels * r) by (nonlinear_arith)
                        requires
                            0 <= p < panels,
                            0 <= i < r,
                            r >= 1,
                    ;
                }
                let row = p * r + i;
                let mlen = m.len();
                let val: u8 = if row < rows {
                    proof {
                        assert(row * k + j < rows * k && row * k + j >= 0) by (nonlinear_arith)
                            requires
                                0 <= row < rows,
                                0 <= j < k,
                                k >= 1,
                        ;
                        assert(rows * k == mlen);
                    }
                    m[row * k + j]
                } else {
                    0
                };
                proof {
                    assert(val == packed_at(m@, rows as int, k as int, r as int, p as int, j as int,
                        i as int));
                    assert(val == target[idx as int]);
                }
                out.push(val);
                proof {
                    assert(out@ =~= target.subrange(0, idx + 1));
                }
                i = i + 1;
            }
            j = j + 1;
            proof {
                assert(p * (r * k) + (j - 1) * r + r == p * (r * k) + j * r) by (nonlinear_arith);
            }
        }
        p = p + 1;
        proof {
            assert((p - 1) * (r * k) + k * r == p * (r * k)) by (nonlinear_arith);
        }
    }
    proof {
        assert(p * (r * k) == panels * r * k) by (nonlinear_arith)
            requires
                p == panels,
        ;
        assert(out@ =~= target);
    }
    out
}

/// Cell `(yy, x)` of the destination holds the packed element of panel
/// `yy / r`, reduction step `x`, panel row `yy % r`.
pub open spec fn unpacked_cell(dstv: Seq<u8>, packedv: Seq<u8>, k: int, r: int, yy: int, x: int,
) -> bool {
    dstv[yy * k + x] == packedv[(yy / r) * (r * k) + x * r + (yy % r)]
}

fn subvec(v: &Vec<u8>, from: usize, to: usize) -> (r: Vec<u8>)
    requires
        from <= to <= v.len(),
    ensures
        r@ == v@.subrange(from as int, to as int),
{
    let mut r: Vec<u8> = Vec::new();
    let mut i: usize = from;
    while i < to
        invariant
            from <= i <= to <= v.len(),
            r@ == v@.subrange(from as int, i as int),
        decreases to - i,
    {
        r.push(v[i]);
        proof {
            assert(v@.subrange(from as int, i + 1) =~= v@.subrange(from as int, i as int).push(
                v@[i as int],
            ));
        }
        i = i + 1;
    }
    r
}

/// Read a packed panel buffer back into a row-major `rows x k` destination
/// by running the store path of an identity kernel: panel by panel, each
/// packed panel is handed to the output write-back as the kernel's result
/// tile, through an addressing bound to the destination.
pub fn unpack_panels(packed: &Vec<u8>, rows: usize, k: usize, r: usize) -> (dst: Vec<u8>)
    requires
        r >= 1,
        k >= 1,
        rows + r <= usize::MAX,
        rows <= 0xFFFF_FFFF,
        k <= 0xFFFF_FFFF,
        r <= 0xFFFF_FFFF,
        k * r <= isize::MAX,
        rows * k <= usize::MAX,
        packed@.len() == spec_pack_len(r as int, k as int, rows as int),
    ensures
        dst@ == spec_unpack(packed@, rows as int, k as int, r as int),
{
    let n = rows * k;
    let mut dst: Vec<u8> = Vec::new();
    while dst.len() < n
        invariant
            dst@.len() <= n,
            forall|q: int| 0 <= q < dst@.len() ==> dst@[q] == 0u8,
        decreases n - dst@.len(),
    {
        dst.push(0u8);
    }
    let view = crate::storage::TensorView {
        shape: vec![rows, k],
        strides: vec![k as isize, 1isize],
        item_size: 1,
        len: n,
    };
    let ospec = crate::storage::OutputStoreSpec::Strides {
        row_byte_stride: k as isize,
        row_item_stride: k as isize,
        col_byte_stride: 1isize,
        col_item_stride: 1isize,
        mr: r,
        nr: k,
    };
    proof {
        assert(k as int * r as int >= 0 && k as int * r as int == (k * r) as int) by (
        nonlinear_arith)
            requires
                k >= 1,
                r >= 1,
                k * r <= isize::MAX,
        ;
        assert(k <= k * r && r <= k * r) by (nonlinear_arith)
            requires
                k >= 1,
                r >= 1,
        ;
        assert(k <= isize::MAX);
        assert((k as isize) as int == k as int);
        assert(ospec.spec_row_byte_stride(view) == k as int);
        assert(ospec.spec_col_byte_stride(view) == 1);
        assert(ospec.spec_mr() == r as int);
        assert(ospec.spec_nr() == k as int);
        assert(in_isize(ospec.spec_row_byte_stride(view) * ospec.spec_mr()));
        assert(in_isize(ospec.spec_col_byte_stride(view) * ospec.spec_nr()));
        assert(ospec.strides_fit(view));
    }
    let store = ospec.wrap(&view);
    let plen = packed.len();
    let panels = (rows + r - 1) / r;
    proof {
        lemma_fundamental_div_mod(rows + r - 1, r as int);
        assert(panels * r <= rows + r - 1 && panels * r >= rows) by (nonlinear_arith)
            requires
                r >= 1,
                rows + r - 1 == r * panels + ((rows + r - 1) as int % (r as int)),
                0 <= ((rows + r - 1) as int % (r as int)) < r,
        ;
        assert(packed@.len() == panels * r * k);
    }
    let mut p: usize = 0;
    while p < panels
        invariant
            r >= 1,
            k >= 1,
            rows + r <= usize::MAX,
            rows <= 0xFFFF_FFFF,
            k <= 0xFFFF_FFFF,
            r <= 0xFFFF_FFFF,
            n == rows * k,
            panels * r <= rows + r - 1,
            panels * r >= rows,
            packed@.len() == panels * r * k,
            plen == packed@.len(),
            p <= panels,
            store.row_byte_stride == k as int,
            store.col_byte_stride == 1,
            store.panel_row_byte_stride == k as int * r as int,
            store.panel_col_byte_stride == k as int,
            store.item_size == 1,
            store.mr == r,
            dst@.len() == n,
            forall|yy: int, x: int|
                0 <= yy < p * r && yy < rows && 0 <= x < k ==> #[trigger] unpacked_cell(
                    dst@,
                    packed@,
                    k as int,
                    r as int,
                    yy,
                    x,
                ),
        decreases panels - p,
    {
        proof {
            assert(p * r + r <= panels * r) by (nonlinear_arith)
                requires
                    0 <= p < panels,
                    r >= 1,
            ;
        }
        let h = if p * r + r <= rows {
            r
        } else {
            rows - p * r
        };
        proof {
            assert(p * r < rows);
            assert(1 <= h <= r);
            assert(p * r + h <= rows);
            assert(p * (r * k) + r * k <= panels * r * k && p * (r * k) >= 0 && panels * r * k
                == panels * (r * k) && p <= p * r) by (nonlinear_arith)
                requires
                    0 <= p < panels,
                    r >= 1,
                    k >= 1,
            ;
            assert(r * k <= plen);
            assert(p * (r * k) + r * k <= plen);
        }
        let start = p * (r * k);
        let tile = subvec(packed, start, start + r * k);
        let ghost dn = p as int;
        let ghost hh = h as int;
        let ghost s = store;
        proof {
            assert forall|y: int, x: int| 0 <= y < hh && 0 <= x < k implies #[trigger]
                crate::storage::tile_src_off(r as int, y, x, 1, 0) + 1 <= r * k by {
                assert((y + x * (r as int)) * 1 + 0 + 1 <= r * k) by (nonlinear_arith)
                    requires
                        0 <= y < r,
                        0 <= x < k,
                        r >= 1,
                        k >= 1,
                ;
            }
            assert forall|y: int, x: int| 0 <= y < hh && 0 <= x < k implies 0 <= #[trigger]
                crate::storage::cell_off(s, dn, 0, y, x) && crate::storage::cell_off(s, dn, 0, y, x)
                + 1 <= n by {
                assert(crate::storage::cell_off(s, dn, 0, y, x) == (k as int * r as int) * dn + y
                    * (k as int) + x);
                assert(0 <= (k as int * r as int) * dn + y * (k as int) + x && (k as int
                    * r as int) * dn + y * (k as int) + x + 1 <= rows * k) by (nonlinear_arith)
                    requires
                        0 <= y,
                        0 <= x < k,
                        0 <= dn,
                        r >= 1,
                        k >= 1,
                        dn * r + y < rows,
                ;
                assert(dn * r + y < rows) by (nonlinear_arith)
                    requires
                        dn == p as int,
                        0 <= y < hh,
                        p as int * r as int + hh <= rows,
                ;
            }
            assert forall|y1: int, x1: int, y2: int, x2: int|
                0 <= y1 < hh && 0 <= x1 < k && 0 <= y2 < hh && 0 <= x2 < k && !(y1 == y2 && x1
                    == x2) implies #[trigger] crate::storage::cell_off(s, dn, 0, y1, x1) + 1
                <= #[trigger] crate::storage::cell_off(s, dn, 0, y2, x2)
                || crate::storage::cell_off(s, dn, 0, y2, x2) + 1 <= crate::storage::cell_off(
                s,
                dn,
                0,
                y1,
                x1,
            ) by {
                assert(y1 * (k as int) + x1 != y2 * (k as int) + x2) by (nonlinear_arith)
                    requires
                        0 <= x1 < k,
                        0 <= x2 < k,
                        0 <= y1,
                        0 <= y2,
                        !(y1 == y2 && x1 == x2),
                        k >= 1,
                ;
            }
            assert(crate::storage::tile_write_pre(s, n as int, dn, 0, hh, k as int,
                tile@.len() as int, 1));
        }
        let ghost pre_dst = dst@;
        store.set_from_tile(&mut dst, p, 0, h, k, &tile);
        proof {
            assert forall|yy: int, x: int|
                0 <= yy < (p + 1) * r && yy < rows && 0 <= x < k implies #[trigger] unpacked_cell(
                dst@,
                packed@,
                k as int,
                r as int,
                yy,
                x,
            ) by {
                if yy < p * r {
                    let i = yy * k + x;
                    assert(0 <= i < n) by (nonlinear_arith)
                        requires
                            0 <= yy,
                            yy < rows,
                            0 <= x < k,
                            n == rows * k,
                            i == yy * k + x,
                    ;
                    assert(!crate::storage::written(s, dn, 0, hh, k as int, 1, i)) by {
                        if crate::storage::written(s, dn, 0, hh, k as int, 1, i) {
                            let (wy, wx) = choose|wy: int, wx: int|
                                0 <= wy < hh && 0 <= wx < k && crate::storage::covers(
                                    s,
                                    dn,
                                    0,
                                    wy,
                                    wx,
                                    1,
                                    i,
                                );
                            assert(i == (k as int * r as int) * dn + wy * (k as int) + wx);
                            assert(yy * k + x < (k as int * r as int) * dn + wy * (k as int) + wx)
                                by (nonlinear_arith)
                                requires
                                    0 <= wy,
                                    0 <= wx,
                                    0 <= yy < dn * r,
                                    0 <= x < k,
                                    k >= 1,
                                    r >= 1,
                                    0 <= dn,
                            ;
                        }
                    }
                    assert(dst@[i] == pre_dst[i]);
                    assert(unpacked_cell(pre_dst, packed@, k as int, r as int, yy, x));
                    assert(unpacked_cell(dst@, packed@, k as int, r as int, yy, x));
                } else {
                    assert((p as int + 1) * (r as int) == p as int * (r as int) + r as int) by (
                    nonlinear_arith);
                    let y = yy - p * r;
                    assert(0 <= y < hh);
                    assert(dst@[crate::storage::cell_off(s, dn, 0, y, x) + 0] == tile@[
                        crate::storage::tile_src_off(r as int, y, x, 1, 0)]);
                    assert(crate::storage::cell_off(s, dn, 0, y, x) == (k as int * r as int) * dn
                        + y * (k as int) + x);
                    assert((k as int * r as int) * dn + y * (k as int) + x == yy * k + x) by (
                    nonlinear_arith)
                        requires
                            yy == p as int * r as int + y,
                            dn == p as int,
                    ;
                    assert(crate::storage::tile_src_off(r as int, y, x, 1, 0) == y + x
                        * (r as int));
                    assert(tile@[y + x * (r as int)] == packed@[p * (r * k) + (x * (r as int)
                        + y)]) by {
                        assert(0 <= y + x * (r as int) < r * k) by (nonlinear_arith)
                            requires
                                0 <= y < r,
                                0 <= x < k,
                                r >= 1,
                                k >= 1,
                        ;
                    }
                    lemma_fundamental_div_mod_converse(yy, r as int, p as int, y);
                    assert(packed@[p * (r * k) + (x * (r as int) + y)] == packed@[(yy / (
                    r as int)) * (r * k) + x * r + (yy % (r as int))]);
                    assert(unpacked_cell(dst@, packed@, k as int, r as int, yy, x));
                }
            }
        }
        p = p + 1;
    }
    proof {
        assert forall|idx: int| 0 <= idx < rows * k implies dst@[idx] == spec_unpack(
            packed@,
            rows as int,
            k as int,
            r as int,
        )[idx] by {
            let y = idx / (k as int);
            let x = idx % (k as int);
            lemma_fundamental_div_mod(idx, k as int);
            assert(0 <= x < k);
            assert(0 <= y && y < rows) by (nonlinear_arith)
                requires
                    0 <= idx < rows * k,
                    k >= 1,
                    idx == k * y + x,
                    0 <= x < k,
            ;
            assert(y < panels * r);
            assert(y * k + x == idx) by (nonlinear_arith)
                requires
                    idx == k * y + x,
            ;
            assert(unpacked_cell(dst@, packed@, k as int, r as int, y, x));
            assert(dst@[y * k + x] == packed@[(y / (r as int)) * (r * k) + x * r + (y % (
            r as int))]);
        }
        assert(dst@ =~= spec_unpack(packed@, rows as int, k as int, r as int));
    }
    dst
}

/// Round trip of the panel layout: packing a `rows x k` matrix and reading
/// the panels back through the tile addressing reproduces the matrix.
pub proof fn lemma_pack_round_trip(m: Seq<u8>, rows: int, k: int, r: int)
    requires
        r >= 1,
        k >= 1,
        rows >= 0,
        m.len() == rows * k,
    ensures
        spec_unpack(spec_pack(m, rows, k, r), rows, k, r) =~= m,
{
    let packed = spec_pack(m, rows, k, r);
    let panels = panels_of(rows, r);
    lemma_fundamental_div_mod(rows + r - 1, r);
    assert(panels * r >= rows) by (nonlinear_arith)
        requires
            r >= 1,
            rows + r - 1 == r * panels + (rows + r - 1) % r,
            (rows + r - 1) % r < r,
    ;
    assert forall|idx: int| 0 <= idx < rows * k implies spec_unpack(packed, rows, k, r)[idx]
        == m[idx] by {
        let y = idx / k;
        let x = idx % k;
        lemma_fundamental_div_mod(idx, k);
        assert(0 <= x < k);
        assert(y >= 0) by (nonlinear_arith)
            requires
                idx >= 0,
                k >= 1,
                idx == k * y + x,
                x < k,
        ;
        assert(y < rows) by (nonlinear_arith)
            requires
                idx < rows * k,
                k >= 1,
                idx == k * y + x,
                0 <= x,
                0 <= y,
        ;
        let p = y / r;
        let i = y % r;
        lemma_fundamental_div_mod(y, r);
        assert(0 <= i < r);
        assert(p >= 0) by (nonlinear_arith)
            requires
                y >= 0,
                r >= 1,
                y == r * p + i,
                i < r,
        ;
        assert(p < panels) by (nonlinear_arith)
            requires
                y < rows,
                rows <= panels * r,
                y == r * p + i,
                0 <= i,
                r >= 1,
        ;
        let pidx = p * (r * k) + x * r + i;
        assert(0 <= pidx < panels * r * k) by (nonlinear_arith)
            requires
                0 <= p < panels,
                0 <= x < k,
                0 <= i < r,
                r >= 1,
                k >= 1,
                pidx == p * (r * k) + x * r + i,
        ;
        lemma_panel_coords(p, x, i, r, k);
        assert(packed[pidx] == packed_at(m, rows, k, r, p, x, i));
        assert(p * r + i == y) by (nonlinear_arith)
            requires
                y == r * p + i,
        ;
        assert(packed_at(m, rows, k, r, p, x, i) == m[y * k + x]);
        assert(y * k + x == idx) by (nonlinear_arith)
            requires
                idx == k * y + x,
        ;
        assert(spec_unpack(packed, rows, k, r)[idx] == packed[pidx]);
    }
}

} // verus!
