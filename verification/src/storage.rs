//! Panel storage addressing: binding an output addressing to a destination
//! buffer, tile offset arithmetic, and the strided write-back of a kernel's
//! result tile.
//!
//! The destination is an owned byte buffer plus a stride descriptor; every
//! "caller guarantees in-bounds" rule of raw stride arithmetic is an
//! explicit precondition here.

use vstd::prelude::*;

verus! {

/// A bounds-aware description of a destination tensor: per-axis element
/// strides over a flat buffer of `len` elements, each `item_size` bytes.
pub struct TensorView {
    pub shape: Vec<usize>,
    pub strides: Vec<isize>,
    pub item_size: usize,
    pub len: usize,
}

/// How a kernel's output tiles are addressed into a destination: either
/// derived from a destination tensor's own strides (`View`), or given
/// directly (`Strides`). Both carry the tile shape `(mr, nr)`.
#[derive(Clone, Copy, Debug)]
pub enum OutputStoreSpec {
    View { axes: Option<(usize, usize)>, mr: usize, nr: usize },
    Strides {
        row_byte_stride: isize,
        row_item_stride: isize,
        col_byte_stride: isize,
        col_item_stride: isize,
        mr: usize,
        nr: usize,
    },
}

/// An addressing bound to a concrete destination: concrete row/column and
/// panel strides, element size and count.
#[derive(Clone, Copy, Debug)]
pub struct OutputStore {
    pub row_byte_stride: isize,
    pub col_byte_stride: isize,
    pub row_item_stride: isize,
    pub col_item_stride: isize,
    pub panel_row_byte_stride: isize,
    pub panel_col_byte_stride: isize,
    pub item_size: usize,
    pub item_count: usize,
    pub mr: usize,
}

/// One `mr x nr` block of the destination, as a kernel sees it: a byte
/// offset into the destination buffer plus the two byte strides.
#[derive(PartialEq, Eq, Structural, Copy, Clone, Debug)]
pub struct OutputStoreKer {
    pub offset: isize,
    pub row_byte_stride: isize,
    pub col_byte_stride: isize,
    pub item_size: usize,
}

pub open spec fn in_isize(v: int) -> bool {
    isize::MIN <= v <= isize::MAX
}

pub proof fn lemma_mul_bound(a: int, b: int, abound: int, bbound: int)
    requires
        -abound <= a <= abound,
        0 <= b <= bbound,
        0 <= abound,
    ensures
        -(abound * bbound) <= a * b <= abound * bbound,
        -(abound * bbound) <= b * a <= abound * bbound,
{
    assert(-(abound * bbound) <= a * b <= abound * bbound) by (nonlinear_arith)
        requires
            -abound <= a <= abound,
            0 <= b <= bbound,
            0 <= abound,
    ;
    assert(a * b == b * a) by (nonlinear_arith);
}

/// The row/column axes an addressing reads from a destination of rank
/// `rank`: the explicit pair when given, else the last two axes.
pub open spec fn view_axes(axes: Option<(usize, usize)>, rank: int) -> (int, int) {
    match axes {
        Option::Some(a) => (a.0 as int, a.1 as int),
        Option::None => (rank - 2, rank - 1),
    }
}

impl OutputStoreSpec {
    pub open spec fn spec_mr(self) -> int {
        match self {
            OutputStoreSpec::View { mr, .. } => mr as int,
            OutputStoreSpec::Strides { mr, .. } => mr as int,
        }
    }

    pub open spec fn spec_nr(self) -> int {
        match self {
            OutputStoreSpec::View { nr, .. } => nr as int,
            OutputStoreSpec::Strides { nr, .. } => nr as int,
        }
    }

    /// The addressing can be computed against `t`: the chosen axes exist.
    pub open spec fn axes_ok(self, t: TensorView) -> bool {
        match self {
            OutputStoreSpec::View { axes, .. } => {
                let (m_axis, n_axis) = view_axes(axes, t.strides@.len() as int);
                0 <= m_axis < t.strides@.len() && 0 <= n_axis < t.strides@.len()
            },
            OutputStoreSpec::Strides { .. } => true,
        }
    }

    /// Row item stride against destination `t`.
    pub open spec fn spec_row_item_stride(self, t: TensorView) -> int {
        match self {
            OutputStoreSpec::View { axes, .. } => t.strides@[view_axes(
                axes,
                t.strides@.len() as int,
            ).0] as int,
            OutputStoreSpec::Strides { row_item_stride, .. } => row_item_stride as int,
        }
    }

    /// Column item stride against destination `t`.
    pub open spec fn spec_col_item_stride(self, t: TensorView) -> int {
        match self {
            OutputStoreSpec::View { axes, .. } => t.strides@[view_axes(
                axes,
                t.strides@.len() as int,
            ).1] as int,
            OutputStoreSpec::Strides { col_item_stride, .. } => col_item_stride as int,
        }
    }

    /// Row byte stride: for a `View` the item stride scaled by the element
    /// size; for explicit `Strides` the given byte stride.
    pub open spec fn spec_row_byte_stride(self, t: TensorView) -> int {
        match self {
            OutputStoreSpec::View { .. } => self.spec_row_item_stride(t) * t.item_size,
            OutputStoreSpec::Strides { row_byte_stride, .. } => row_byte_stride as int,
        }
    }

    /// Column byte stride, as for the rows.
    pub open spec fn spec_col_byte_stride(self, t: TensorView) -> int {
        match self {
            OutputStoreSpec::View { .. } => self.spec_col_item_stride(t) * t.item_size,
            OutputStoreSpec::Strides { col_byte_stride, .. } => col_byte_stride as int,
        }
    }

    /// All derived strides fit the machine's signed size type.
    pub open spec fn strides_fit(self, t: TensorView) -> bool {
        in_isize(self.spec_row_byte_stride(t)) && in_isize(self.spec_col_byte_stride(t))
            && in_isize(self.spec_row_byte_stride(t) * self.spec_mr()) && in_isize(
            self.spec_col_byte_stride(t) * self.spec_nr(),
        )
    }

    /// Bind this addressing to a concrete destination: collapse the logical
    /// strides into row/column item and byte strides and derive the panel
    /// strides `row_byte_stride * mr` and `col_byte_stride * nr`.
    pub fn wrap(&self, tensor: &TensorView) -> (store: OutputStore)
        requires
            self.axes_ok(*tensor),
            self.strides_fit(*tensor),
        ensures
            store.row_item_stride == self.spec_row_item_stride(*tensor),
            store.col_item_stride == self.spec_col_item_stride(*tensor),
            store.row_byte_stride == self.spec_row_byte_stride(*tensor),
            store.col_byte_stride == self.spec_col_byte_stride(*tensor),
            store.panel_row_byte_stride == self.spec_row_byte_stride(*tensor) * self.spec_mr(),
            store.panel_col_byte_stride == self.spec_col_byte_stride(*tensor) * self.spec_nr(),
            store.item_size == tensor.item_size,
            store.item_count == tensor.len,
            store.mr == self.spec_mr(),
    {
        let (mr, nr, row_item_stride, col_item_stride, row_byte_stride, col_byte_stride) =
            self.compute_strides(tensor);
        let prbs = (row_byte_stride as i128) * (mr as i128);
        let pcbs = (col_byte_stride as i128) * (nr as i128);
        OutputStore {
            row_byte_stride,
            col_byte_stride,
            row_item_stride,
            col_item_stride,
            panel_row_byte_stride: prbs as isize,
            panel_col_byte_stride: pcbs as isize,
            item_size: tensor.item_size,
            mr,
            item_count: tensor.len,
        }
    }

    /// The six concrete parameters of the binding:
    /// `(mr, nr, row_item_stride, col_item_stride, row_byte_stride, col_byte_stride)`.
    fn compute_strides(&self, tensor: &TensorView) -> (r: (
        usize,
        usize,
        isize,
        isize,
        isize,
        isize,
    ))
        requires
            self.axes_ok(*tensor),
            self.strides_fit(*tensor),
        ensures
            r.0 == self.spec_mr(),
            r.1 == self.spec_nr(),
            r.2 == self.spec_row_item_stride(*tensor),
            r.3 == self.spec_col_item_stride(*tensor),
            r.4 == self.spec_row_byte_stride(*tensor),
            r.5 == self.spec_col_byte_stride(*tensor),
    {
        match self {
            OutputStoreSpec::View { axes, mr, nr } => {
                let rank = tensor.strides.len();
                let (m_axis, n_axis) = match axes {
                    Option::Some(a) => (a.0, a.1),
                    Option::None => (rank - 2, rank - 1),
                };
                let row_item_stride = tensor.strides[m_axis];
                let col_item_stride = tensor.strides[n_axis];
                let row_byte_stride = ((row_item_stride as i128) * (tensor.item_size as i128))
                    as isize;
                let col_byte_stride = ((col_item_stride as i128) * (tensor.item_size as i128))
                    as isize;
                (*mr, *nr, row_item_stride, col_item_stride, row_byte_stride, col_byte_stride)
            },
            OutputStoreSpec::Strides {
                row_byte_stride,
                col_byte_stride,
                col_item_stride,
                row_item_stride,
                mr,
                nr,
            } => (*mr, *nr, *row_item_stride, *col_item_stride, *row_byte_stride, *col_byte_stride),
        }
    }
}

/// Byte offset of cell `(y, x)` of tile `(down, right)` in the destination
/// buffer.
pub open spec fn cell_off(s: OutputStore, down: int, right: int, y: int, x: int) -> int {
    s.panel_row_byte_stride * down + s.panel_col_byte_stride * right + y * s.row_byte_stride + x
        * s.col_byte_stride
}

/// Index of byte `jj` of cell `(y, x)` in the kernel's packed tile buffer,
/// which is column-major with `mr` rows of `w`-byte elements.
pub open spec fn tile_src_off(mr: int, y: int, x: int, w: int, jj: int) -> int {
    (y + x * mr) * w + jj
}

/// Byte `i` of the destination lies in cell `(y, x)` of tile `(down, right)`.
pub open spec fn covers(s: OutputStore, down: int, right: int, y: int, x: int, w: int, i: int,
) -> bool {
    cell_off(s, down, right, y, x) <= i < cell_off(s, down, right, y, x) + w
}

/// Byte `i` of the destination belongs to the `height x width` sub-region of
/// tile `(down, right)`.
pub open spec fn written(
    s: OutputStore,
    down: int,
    right: int,
    height: int,
    width: int,
    w: int,
    i: int,
) -> bool {
    exists|y: int, x: int|
        0 <= y < height && 0 <= x < width && covers(s, down, right, y, x, w, i)
}

/// The caller-guaranteed conditions of a tile write-back: a supported
/// element width, a tile no taller than `mr`, moderate tile coordinates, a
/// source buffer holding the whole `height x width` tile, every destination
/// cell in bounds, and all destination cells mutually disjoint.
pub open spec fn tile_write_pre(
    s: OutputStore,
    data_len: int,
    down: int,
    right: int,
    height: int,
    width: int,
    tile_len: int,
    w: int,
) -> bool {
    &&& (w == 1 || w == 4)
    &&& height <= s.mr
    &&& 0 <= down < 0x1_0000_0000
    &&& 0 <= right < 0x1_0000_0000
    &&& width <= 0x1_0000_0000
    &&& s.mr <= 0x1_0000_0000
    &&& (forall|y: int, x: int|
        0 <= y < height && 0 <= x < width ==> #[trigger] tile_src_off(s.mr as int, y, x, w, 0) + w
            <= tile_len)
    &&& (forall|y: int, x: int|
        0 <= y < height && 0 <= x < width ==> 0 <= #[trigger] cell_off(s, down, right, y, x)
            && cell_off(s, down, right, y, x) + w <= data_len)
    &&& (forall|y1: int, x1: int, y2: int, x2: int|
        0 <= y1 < height && 0 <= x1 < width && 0 <= y2 < height && 0 <= x2 < width && !(y1 == y2
            && x1 == x2) ==> #[trigger] cell_off(s, down, right, y1, x1) + w <= #[trigger] cell_off(
            s,
            down,
            right,
            y2,
            x2,
        ) || cell_off(s, down, right, y2, x2) + w <= cell_off(s, down, right, y1, x1))
}

impl OutputStore {
    /// Size in bytes of one destination element.
    pub fn item_size(&self) -> (r: usize)
        ensures
            r == self.item_size,
    {
        self.item_size
    }

    /// Pure offset arithmetic locating tile `(down, right)`: the kernel-visible
    /// write target for that `mr x nr` block of the destination.
    pub fn tile_c(&self, down: usize, right: usize) -> (t: OutputStoreKer)
        requires
            in_isize(self.panel_row_byte_stride * down),
            in_isize(self.panel_col_byte_stride * right),
            in_isize(
                self.panel_row_byte_stride * down + self.panel_col_byte_stride * right,
            ),
        ensures
            t.offset == self.panel_row_byte_stride * down + self.panel_col_byte_stride * right,
            t.row_byte_stride == self.row_byte_stride,
            t.col_byte_stride == self.col_byte_stride,
            t.item_size == self.item_size,
    {
        let off = (self.panel_row_byte_stride as i128) * (down as i128)
            + (self.panel_col_byte_stride as i128) * (right as i128);
        OutputStoreKer {
            offset: off as isize,
            row_byte_stride: self.row_byte_stride,
            col_byte_stride: self.col_byte_stride,
            item_size: self.item_size,
        }
    }

    /// Write back the `height x width` sub-region of tile `(down, right)`
    /// from a packed tile buffer of `w`-byte elements, column-major with
    /// `mr` rows. Bytes outside the sub-region are left untouched.
    pub fn set_from_tile_t(
        &self,
        data: &mut Vec<u8>,
        down: usize,
        right: usize,
        height: usize,
        width: usize,
        tile: &Vec<u8>,
        w: usize,
    )
        requires
            tile_write_pre(
                *self,
                old(data)@.len() as int,
                down as int,
                right as int,
                height as int,
                width as int,
                tile@.len() as int,
                w as int,
            ),
        ensures
            final(data)@.len() == old(data)@.len(),
            forall|y: int, x: int, jj: int|
                0 <= y < height && 0 <= x < width && 0 <= jj < w ==> final(data)@[cell_off(
                    *self,
                    down as int,
                    right as int,
                    y,
                    x,
                ) + jj] == tile@[#[trigger] tile_src_off(self.mr as int, y, x, w as int, jj)],
            forall|i: int|
                0 <= i < old(data)@.len() && !written(
                    *self,
                    down as int,
                    right as int,
                    height as int,
                    width as int,
                    w as int,
                    i,
                ) ==> final(data)@[i] == old(data)@[i],
    {
        let ghost s = *self;
        let ghost dn = down as int;
        let ghost rt = right as int;
        let ghost wd = width as int;
        let ghost ww = w as int;
        let ghost mri = self.mr as int;
        let mut y: usize = 0;
        while y < height
            invariant
                tile_write_pre(
                    s,
                    old(data)@.len() as int,
                    dn,
                    rt,
                    height as int,
                    wd,
                    tile@.len() as int,
                    ww,
                ),
                s == *self,
                dn == down as int,
                rt == right as int,
                wd == width as int,
                ww == w as int,
                mri == self.mr as int,
                y <= height,
                data@.len() == old(data)@.len(),
                forall|y_: int, x_: int, jj: int|
                    0 <= y_ < y && 0 <= x_ < wd && 0 <= jj < ww ==> data@[cell_off(
                        s,
                        dn,
                        rt,
                        y_,
                        x_,
                    ) + jj] == tile@[#[trigger] tile_src_off(mri, y_, x_, ww, jj)],
                forall|i: int|
                    0 <= i < data@.len() && !written(s, dn, rt, y as int, wd, ww, i)
                        ==> data@[i] == old(data)@[i],
            decreases height - y,
        {
            let mut x: usize = 0;
            while x < width
                invariant
                    tile_write_pre(
                        s,
                        old(data)@.len() as int,
                        dn,
                        rt,
                        height as int,
                        wd,
                        tile@.len() as int,
                        ww,
                    ),
                    s == *self,
                    dn == down as int,
                    rt == right as int,
                    wd == width as int,
                    ww == w as int,
                    mri == self.mr as int,
                    y < height,
                    x <= width,
                    data@.len() == old(data)@.len(),
                    forall|y_: int, x_: int, jj: int|
                        0 <= y_ < y && 0 <= x_ < wd && 0 <= jj < ww ==> data@[cell_off(
                            s,
                            dn,
                            rt,
                            y_,
                            x_,
                        ) + jj] == tile@[#[trigger] tile_src_off(mri, y_, x_, ww, jj)],
                    forall|x_: int, jj: int|
                        0 <= x_ < x && 0 <= jj < ww ==> data@[cell_off(s, dn, rt, y as int, x_)
                            + jj] == tile@[#[trigger] tile_src_off(mri, y as int, x_, ww, jj)],
                    forall|i: int|
                        0 <= i < data@.len() && !written(s, dn, rt, y as int, wd, ww, i)
                            && !row_written(s, dn, rt, y as int, x as int, ww, i) ==> data@[i]
                            == old(data)@[i],
                decreases width - x,
            {
                let dlen: usize = data.len();
                let tlen: usize = tile.len();
                proof {
                    assert(0 <= cell_off(s, dn, rt, y as int, x as int) && cell_off(
                        s,
                        dn,
                        rt,
                        y as int,
                        x as int,
                    ) + ww <= dlen as int);
                    assert(tile_src_off(mri, y as int, x as int, ww, 0) + ww <= tlen as int);
                    assert((y as int + x as int * mri) * ww == tile_src_off(
                        mri,
                        y as int,
                        x as int,
                        ww,
                        0,
                    ));
                    assert(y as int + x as int * mri <= (y as int + x as int * mri) * ww) by (
                    nonlinear_arith)
                        requires
                            ww >= 1,
                            y as int >= 0,
                            x as int >= 0,
                            mri >= 0,
                    ;
                    lemma_mul_bound(
                        s.panel_row_byte_stride as int,
                        dn,
                        0x8000_0000_0000_0000,
                        0x1_0000_0000,
                    );
                    lemma_mul_bound(
                        s.panel_col_byte_stride as int,
                        rt,
                        0x8000_0000_0000_0000,
                        0x1_0000_0000,
                    );
                    lemma_mul_bound(
                        s.row_byte_stride as int,
                        y as int,
                        0x8000_0000_0000_0000,
                        0x1_0000_0000,
                    );
                    lemma_mul_bound(
                        s.col_byte_stride as int,
                        x as int,
                        0x8000_0000_0000_0000,
                        0x1_0000_0000,
                    );
                }
                let off_i: i128 = (self.panel_row_byte_stride as i128) * (down as i128) + (
                self.panel_col_byte_stride as i128) * (right as i128) + (y as i128)
                    * (self.row_byte_stride as i128) + (x as i128)
                    * (self.col_byte_stride as i128);
                proof {
                    assert(off_i == cell_off(s, dn, rt, y as int, x as int));
                }
                let o: usize = off_i as usize;
                let eidx: usize = y + x * self.mr;
                let mut jj: usize = 0;
                while jj < w
                    invariant
                        tile_write_pre(
                            s,
                            old(data)@.len() as int,
                            dn,
                            rt,
                            height as int,
                            wd,
                            tile@.len() as int,
                            ww,
                        ),
                        s == *self,
                        dn == down as int,
                        rt == right as int,
                        wd == width as int,
                        ww == w as int,
                        mri == self.mr as int,
                        y < height,
                        x < width,
                        jj <= w,
                        data@.len() == old(data)@.len(),
                        o == cell_off(s, dn, rt, y as int, x as int),
                        eidx == y + x as int * mri,
                        tlen == tile@.len(),
                        dlen == data@.len(),
                        eidx * ww + ww <= tlen,
                        o + ww <= dlen,
                        forall|y_: int, x_: int, jj_: int|
                            0 <= y_ < y && 0 <= x_ < wd && 0 <= jj_ < ww ==> data@[cell_off(
                                s,
                                dn,
                                rt,
                                y_,
                                x_,
                            ) + jj_] == tile@[#[trigger] tile_src_off(mri, y_, x_, ww, jj_)],
                        forall|x_: int, jj_: int|
                            0 <= x_ < x && 0 <= jj_ < ww ==> data@[cell_off(s, dn, rt, y as int, x_)
                                + jj_] == tile@[#[trigger] tile_src_off(mri, y as int, x_, ww, jj_)],
                        forall|jj_: int|
                            0 <= jj_ < jj ==> data@[cell_off(s, dn, rt, y as int, x as int) + jj_]
                                == tile@[#[trigger] tile_src_off(mri, y as int, x as int, ww, jj_)],
                        forall|i: int|
                            0 <= i < data@.len() && !written(s, dn, rt, y as int, wd, ww, i)
                                && !row_written(s, dn, rt, y as int, x as int, ww, i) && !(cell_off(
                                s,
                                dn,
                                rt,
                                y as int,
                                x as int,
                            ) <= i < cell_off(s, dn, rt, y as int, x as int) + jj) ==> data@[i]
                                == old(data)@[i],
                    decreases w - jj,
                {
                    let src: usize = eidx * w + jj;
                    proof {
                        assert(src == tile_src_off(mri, y as int, x as int, ww, jj as int));
                    }
                    data.set(o + jj, tile[src]);
                    jj = jj + 1;
                }
                proof {
                    assert(forall|i: int|
                        row_written(s, dn, rt, y as int, x + 1, ww, i) <==> row_written(
                            s,
                            dn,
                            rt,
                            y as int,
                            x as int,
                            ww,
                            i,
                        ) || covers(s, dn, rt, y as int, x as int, ww, i));
                }
                x = x + 1;
            }
            proof {
                assert forall|i: int|
                    written(s, dn, rt, y + 1, wd, ww, i) implies written(
                    s,
                    dn,
                    rt,
                    y as int,
                    wd,
                    ww,
                    i,
                ) || row_written(s, dn, rt, y as int, wd, ww, i) by {
                    let (yy, xx) = choose|yy: int, xx: int|
                        0 <= yy < y + 1 && 0 <= xx < wd && covers(s, dn, rt, yy, xx, ww, i);
                    if yy < y {
                        assert(written(s, dn, rt, y as int, wd, ww, i));
                    } else {
                        assert(row_written(s, dn, rt, y as int, wd, ww, i));
                    }
                }
            }
            y = y + 1;
        }
        proof {
            assert(forall|i: int|
                written(s, dn, rt, y as int, wd, ww, i) ==> written(
                    s,
                    dn,
                    rt,
                    height as int,
                    wd,
                    ww,
                    i,
                ));
        }
    }

    /// Write back a tile, reinterpreting source and destination as 1-byte
    /// elements when the element size is 1, and as 4-byte elements
    /// otherwise: the two element widths supported end to end.
    pub fn set_from_tile(
        &self,
        data: &mut Vec<u8>,
        down: usize,
        right: usize,
        height: usize,
        width: usize,
        tile: &Vec<u8>,
    )
        requires
            self.item_size == 1 || self.item_size == 4,
            tile_write_pre(
                *self,
                old(data)@.len() as int,
                down as int,
                right as int,
                height as int,
                width as int,
                tile@.len() as int,
                self.item_size as int,
            ),
        ensures
            final(data)@.len() == old(data)@.len(),
            forall|y: int, x: int, jj: int|
                0 <= y < height && 0 <= x < width && 0 <= jj < self.item_size
                    ==> final(data)@[cell_off(*self, down as int, right as int, y, x) + jj]
                    == tile@[#[trigger] tile_src_off(self.mr as int, y, x, self.item_size as int, jj)],
            forall|i: int|
                0 <= i < old(data)@.len() && !written(
                    *self,
                    down as int,
                    right as int,
                    height as int,
                    width as int,
                    self.item_size as int,
                    i,
                ) ==> final(data)@[i] == old(data)@[i],
    {
        if self.item_size() == 1 {
            self.set_from_tile_t(data, down, right, height, width, tile, 1)
        } else {
            self.set_from_tile_t(data, down, right, height, width, tile, 4)
        }
    }
}

/// A full-tile write-back (`height == mr`, `width == nr`) touches only the
/// panel block of tile `(down, right)`: every written byte is byte `j` of
/// the element at global row `yy` in `[mr*down, mr*(down+1))` and global
/// column `xx` in `[nr*right, nr*(right+1))` of the destination. Together
/// with the cell-disjointness precondition and the value clause of
/// `set_from_tile`, the write covers exactly the `mr * nr` elements of that
/// block.
/// Byte `i` is byte `j` of the destination element at global row `yy` and
/// global column `xx`.
pub open spec fn panel_byte_decomp(s: OutputStore, yy: int, xx: int, j: int, i: int) -> bool {
    i == s.row_byte_stride * yy + s.col_byte_stride * xx + j
}

pub proof fn lemma_full_tile_stays_in_panel(
    s: OutputStore,
    nr: int,
    down: int,
    right: int,
    w: int,
    i: int,
)
    requires
        s.panel_row_byte_stride == s.row_byte_stride * s.mr,
        s.panel_col_byte_stride == s.col_byte_stride * nr,
        written(s, down, right, s.mr as int, nr, w, i),
    ensures
        exists|yy: int, xx: int, j: int|
            s.mr * down <= yy < s.mr * (down + 1) && nr * right <= xx < nr * (right + 1) && 0 <= j
                < w && #[trigger] panel_byte_decomp(s, yy, xx, j, i),
{
    let (y, x) = choose|y: int, x: int|
        0 <= y < s.mr as int && 0 <= x < nr && covers(s, down, right, y, x, w, i);
    let j = i - cell_off(s, down, right, y, x);
    let yy = s.mr * down + y;
    let xx = nr * right + x;
    assert(s.row_byte_stride * s.mr * down + y * s.row_byte_stride == s.row_byte_stride * (s.mr
        * down + y)) by (nonlinear_arith);
    assert(s.col_byte_stride * nr * right + x * s.col_byte_stride == s.col_byte_stride * (nr
        * right + x)) by (nonlinear_arith);
    assert(s.mr * down <= yy < s.mr * (down + 1)) by (nonlinear_arith)
        requires
            0 <= y < s.mr as int,
            yy == s.mr * down + y,
    ;
    assert(nr * right <= xx < nr * (right + 1)) by (nonlinear_arith)
        requires
            0 <= x < nr,
            xx == nr * right + x,
    ;
    assert(panel_byte_decomp(s, yy, xx, j, i));
}

/// Bytes of the destination that lie in some written cell of the current
/// row `y`, over the columns before `x`.
pub open spec fn row_written(
    s: OutputStore,
    down: int,
    right: int,
    y: int,
    x: int,
    w: int,
    i: int,
) -> bool {
    exists|x_: int| 0 <= x_ < x && covers(s, down, right, y, x_, w, i)
}

} // verus!
