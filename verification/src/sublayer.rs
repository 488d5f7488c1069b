//! Sublayers: a plane of fixed-width byte cells that lies beside a layer's
//! tiles.

use vstd::prelude::*;
use vstd::slice::slice_subrange;
use crate::grid::{lemma_cell_in_grid, lemma_resized_cell, rebuild, resize_rows, resized};

verus! {

/// What a sublayer holds.
pub struct SubLayerView {
    /// The cells, row by row, `cell_size` bytes each.
    pub data: Seq<u8>,
    /// The four bytes of the default value.
    pub default_value: Seq<u8>,
    /// The width of a cell in bytes.
    pub cell_size: u8,
    /// The number of columns.
    pub width: u32,
    /// The number of rows.
    pub height: u32,
}

/// The first four bytes of `bytes`, with zeros where it has fewer.
pub open spec fn padded(bytes: Seq<u8>) -> Seq<u8> {
    Seq::new(
        4,
        |k: int|
            if k < bytes.len() {
                bytes[k]
            } else {
                0u8
            },
    )
}

/// The cell width that a default value of `len` bytes asks for.
pub open spec fn clamped(len: nat) -> u8 {
    if len < 4 {
        len as u8
    } else {
        4u8
    }
}

impl SubLayerView {
    /// What every sublayer satisfies: the cell width is at most four, the
    /// default value is zero beyond the cell width, the two dimensions are
    /// zero together, and the buffer holds exactly the cells.
    pub open spec fn wf(self) -> bool {
        &&& self.cell_size <= 4
        &&& self.default_value.len() == 4
        &&& forall|k: int| self.cell_size <= k < 4 ==> self.default_value[k] == 0
        &&& (self.width == 0 <==> self.height == 0)
        &&& self.data.len() == self.width * self.height * self.cell_size
    }

    /// A sublayer without cells and with cells of no width.
    pub open spec fn empty() -> SubLayerView {
        SubLayerView { data: Seq::empty(), default_value: padded(Seq::empty()), cell_size: 0, width: 0, height: 0 }
    }

    /// Whether the sublayer has no cells.
    pub open spec fn is_empty(self) -> bool {
        self.width == 0 || self.height == 0
    }

    /// The bytes that a new cell receives.
    pub open spec fn fill(self) -> Seq<u8> {
        self.default_value.take(self.cell_size as int)
    }

    /// Where the cell in column `x` of row `y` begins in the buffer.
    pub open spec fn cell_start(self, x: int, y: int) -> int {
        (y * self.width + x) * self.cell_size
    }

    /// The bytes of the cell in column `x` of row `y`.
    pub open spec fn cell(self, x: int, y: int) -> Seq<u8> {
        self.data.subrange(self.cell_start(x, y), self.cell_start(x, y) + self.cell_size)
    }

    /// Whether the buffer of a sublayer of the given dimensions, with cells
    /// of this sublayer's width, can be held in memory.
    pub open spec fn fits(self, width: u32, height: u32) -> bool {
        width * height * self.cell_size <= usize::MAX
    }

    /// The sublayer after a resize to `width` columns and `height` rows.
    ///
    /// Nothing changes where the dimensions stay, or where the sublayer is
    /// empty and stays so. A dimension of zero empties the sublayer. In every
    /// other case each cell inside both the old and the new dimensions keeps
    /// its bytes, and each other cell holds the default value.
    pub open spec fn resized(self, width: u32, height: u32) -> SubLayerView {
        if (self.width == width && self.height == height) || (self.is_empty() && (width == 0
            || height == 0)) {
            self
        } else if width == 0 || height == 0 {
            SubLayerView { data: Seq::empty(), width: 0, height: 0, ..self }
        } else {
            SubLayerView {
                data: resized(
                    self.data,
                    self.width * self.cell_size,
                    self.height as int,
                    width * self.cell_size,
                    height as int,
                    self.fill(),
                ),
                width,
                height,
                ..self
            }
        }
    }

    /// The sublayer after `default` became its default value.
    ///
    /// The cell width becomes the length of `default`, at most four. Where
    /// that changes the width of the cells of a sublayer that is not empty,
    /// every cell keeps the bytes that both widths hold, and holds zero in
    /// the bytes that are new.
    pub open spec fn with_default(self, default: Seq<u8>) -> SubLayerView {
        let size = clamped(default.len());
        let cells = self.width * self.height;
        SubLayerView {
            data: if size == self.cell_size || self.is_empty() {
                self.data
            } else {
                resized(self.data, self.cell_size as int, cells, size as int, cells, seq![0u8])
            },
            default_value: padded(default),
            cell_size: size,
            ..self
        }
    }
}


/// The byte `k` of the cell in column `x`, as a column of a row of bytes.
proof fn lemma_byte_column(x: int, k: int, c: int, w: int)
    requires
        0 <= x,
        0 <= k < c,
        0 <= w,
    ensures
        0 <= x * c + k,
        (x * c + k) % c == k,
        x < w <==> x * c + k < w * c,
{
    assert(0 <= x * c) by (nonlinear_arith)
        requires
            0 <= x,
            0 < c,
    ;
    vstd::arithmetic::div_mod::lemma_fundamental_div_mod_converse(x * c + k, c, x, k);
    assert(x < w ==> x * c + k < w * c) by (nonlinear_arith)
        requires
            0 <= k < c,
            0 <= x,
    ;
    assert(x >= w ==> x * c + k >= w * c) by (nonlinear_arith)
        requires
            0 <= k < c,
            0 <= w,
    ;
}

impl SubLayerView {
    /// A resize to the dimensions that a sublayer has leaves it as it is.
    pub proof fn lemma_resized_same_size(self)
        ensures
            self.resized(self.width, self.height) == self,
    {
    }

    /// The byte `k` of the cell in column `x` of row `y` after a resize
    /// to dimensions that are not zero: the old byte where the old
    /// dimensions hold the cell, the byte of the default value elsewhere.
    pub proof fn lemma_resized_byte(self, width: u32, height: u32, x: int, y: int, k: int)
        requires
            self.wf(),
            0 <= x < width,
            0 <= y < height,
            0 <= k < self.cell_size,
        ensures
            self.resized(width, height).wf(),
            self.resized(width, height).width == width,
            self.resized(width, height).height == height,
            self.resized(width, height).cell(x, y)[k] == (if x < self.width && y < self.height {
                self.cell(x, y)[k]
            } else {
                self.default_value[k]
            }),
    {
        let c = self.cell_size as int;
        let w0 = self.width as int;
        let h0 = self.height as int;
        let w = width as int;
        let after = self.resized(width, height);
        lemma_row_bytes(w, height as int, c);
        lemma_byte_column(x, k, c, w);
        lemma_byte_column(x, k, c, w0);
        assert((y * w + x) * c + k == y * (w * c) + (x * c + k)) by (nonlinear_arith);
        assert(0 <= (y * w + x) * c) by (nonlinear_arith)
            requires
                0 <= x,
                0 <= y,
                0 <= w,
                0 <= c,
        ;
        lemma_cell_in_grid(w, height as int, x, y);
        assert((y * w + x) * c + c <= w * height * c) by (nonlinear_arith)
            requires
                0 <= y * w + x < w * height,
                0 <= c,
        ;
        if self.width == width && self.height == height {
        } else {
            lemma_resized_cell(self.data, w0 * c, h0, w * c, height as int, self.fill(), x * c + k, y);
            if x < w0 && y < h0 {
                assert((y * w0 + x) * c + k == y * (w0 * c) + (x * c + k)) by (nonlinear_arith);
                lemma_cell_in_grid(w0, h0, x, y);
                assert(0 <= (y * w0 + x) * c && (y * w0 + x) * c + c <= w0 * h0 * c)
                    by (nonlinear_arith)
                    requires
                        0 <= y * w0 + x < w0 * h0,
                        0 <= c,
                ;
            }
        }
    }

    /// Shrinking a sublayer and growing it back to the size that it had does
    /// not bring back what was cut off: a cell that the smaller size did not
    /// hold comes back with the default value.
    pub proof fn lemma_shrink_then_grow(self, width: u32, height: u32, x: int, y: int, k: int)
        requires
            self.wf(),
            0 < width <= self.width,
            0 < height <= self.height,
            0 <= x < self.width,
            0 <= y < self.height,
            0 <= k < self.cell_size,
        ensures
            self.resized(width, height).resized(self.width, self.height).cell(x, y)[k] == (if x
                < width && y < height {
                self.cell(x, y)[k]
            } else {
                self.default_value[k]
            }),
    {
        let small = self.resized(width, height);
        if x < width && y < height {
            self.lemma_resized_byte(width, height, x, y, k);
        } else {
            self.lemma_resized_byte(width, height, 0, 0, k);
        }
        small.lemma_resized_byte(self.width, self.height, x, y, k);
    }

    /// A change of the default value keeps, in every cell, the bytes that
    /// the old and the new cell width both hold, and sets the bytes that are
    /// new to zero.
    pub proof fn lemma_with_default_byte(self, default: Seq<u8>, x: int, y: int, k: int)
        requires
            self.wf(),
            0 <= x < self.width,
            0 <= y < self.height,
            0 <= k < clamped(default.len()),
        ensures
            self.with_default(default).wf(),
            self.with_default(default).cell(x, y)[k] == (if k < self.cell_size {
                self.cell(x, y)[k]
            } else {
                0u8
            }),
    {
        let c0 = self.cell_size as int;
        let c = clamped(default.len()) as int;
        let w = self.width as int;
        let h = self.height as int;
        let cells = w * h;
        let cell = y * w + x;
        lemma_cell_in_grid(w, h, x, y);
        lemma_row_bytes(w, h, c);
        lemma_row_bytes(w, h, c0);
        assert(0 <= cell * c && cell * c + c <= cells * c) by (nonlinear_arith)
            requires
                0 <= cell < cells,
                0 <= c,
        ;
        assert(0 <= cell * c0 && cell * c0 + c0 <= cells * c0) by (nonlinear_arith)
            requires
                0 <= cell < cells,
                0 <= c0,
        ;
        if c != c0 {
            lemma_resized_cell(self.data, c0, cells, c, cells, seq![0u8], k, cell);
        }
    }
}

/// A plane of byte cells: `width` columns and `height` rows of cells that
/// are `cell_size` bytes wide, with a default value for new cells.
#[derive(PartialEq, Eq, Debug)]
pub struct SubLayer {
    data: Vec<u8>,
    default_value: [u8; 4],
    cell_size: u8,
    width: u32,
    height: u32,
}

impl View for SubLayer {
    type V = SubLayerView;

    closed spec fn view(&self) -> SubLayerView {
        SubLayerView {
            data: self.data@,
            default_value: self.default_value@,
            cell_size: self.cell_size,
            width: self.width,
            height: self.height,
        }
    }
}

/// The part of a byte buffer from `start` to `end`, for writing. This is
/// the range index of `Vec`: the part holds the bytes that the buffer holds
/// there, it keeps its length, and the buffer changes where the part
/// changes and nowhere else.
#[verifier::external_body]
fn range_mut(data: &mut Vec<u8>, start: usize, end: usize) -> (part: &mut [u8])
    requires
        start <= end <= old(data)@.len(),
    ensures
        part@ == old(data)@.subrange(start as int, end as int),
        final(part)@.len() == part@.len(),
        final(data)@ == old(data)@.subrange(0, start as int) + final(part)@ + old(data)@.subrange(
            end as int,
            old(data)@.len() as int,
        ),
    no_unwind
{
    &mut data[start..end]
}

proof fn lemma_row_bytes(w: int, h: int, c: int)
    requires
        0 <= w,
        0 <= h,
        0 <= c,
    ensures
        w * h * c == (w * c) * h,
        w * h * c == c * (w * h),
        0 <= w * h,
        0 <= w * h * c,
        0 < h ==> w * c <= w * h * c,
        0 < c ==> w * h <= w * h * c,
{
    assert(w * h * c == (w * c) * h) by (nonlinear_arith);
    assert(w * h * c == c * (w * h)) by (nonlinear_arith);
    assert(0 <= w * h && 0 <= w * h * c) by (nonlinear_arith)
        requires
            0 <= w,
            0 <= h,
            0 <= c,
    ;
    assert(0 < h ==> w * c <= w * h * c) by (nonlinear_arith)
        requires
            0 <= w,
            0 <= h,
            0 <= c,
    ;
    assert(0 < c ==> w * h <= w * h * c) by (nonlinear_arith)
        requires
            0 <= w,
            0 <= h,
            0 <= c,
    ;
}

impl SubLayer {
    #[verifier::type_invariant]
    spec fn well_formed(self) -> bool {
        self@.wf()
    }

    /// A sublayer without cells and with cells of no width.
    pub fn new() -> (sublayer: SubLayer)
        ensures
            sublayer@ == SubLayerView::empty(),
            sublayer@.wf(),
    {
        let sublayer = SubLayer { data: Vec::new(), default_value: [0u8; 4], cell_size: 0, width: 0, height: 0 };
        proof {
            assert(sublayer@.default_value =~= padded(Seq::empty()));
        }
        sublayer
    }

    /// A sublayer of the given parts.
    pub(crate) fn from_parts(
        data: Vec<u8>,
        default_value: [u8; 4],
        cell_size: u8,
        width: u32,
        height: u32,
    ) -> (sublayer: SubLayer)
        requires
            (SubLayerView { data: data@, default_value: default_value@, cell_size, width, height }).wf(),
        ensures
            sublayer@ == (SubLayerView {
                data: data@,
                default_value: default_value@,
                cell_size,
                width,
                height,
            }),
    {
        SubLayer { data, default_value, cell_size, width, height }
    }

    /// The width of a cell in bytes.
    pub fn cell_size(&self) -> (size: u8)
        ensures
            size == self@.cell_size,
            self@.wf(),
    {
        proof {
            use_type_invariant(self);
        }
        self.cell_size
    }

    /// The number of columns.
    pub fn width(&self) -> (width: u32)
        ensures
            width == self@.width,
            self@.wf(),
    {
        proof {
            use_type_invariant(self);
        }
        self.width
    }

    /// The number of rows.
    pub fn height(&self) -> (height: u32)
        ensures
            height == self@.height,
            self@.wf(),
    {
        proof {
            use_type_invariant(self);
        }
        self.height
    }

    /// The four bytes of the default value.
    pub fn default_value(&self) -> (value: [u8; 4])
        ensures
            value@ == self@.default_value,
            self@.wf(),
    {
        proof {
            use_type_invariant(self);
        }
        self.default_value
    }

    /// The cells, row by row.
    pub fn data(&self) -> (data: &[u8])
        ensures
            data@ == self@.data,
            self@.wf(),
    {
        proof {
            use_type_invariant(self);
        }
        self.data.as_slice()
    }

    /// Resizes the sublayer to `width` columns and `height` rows and fills
    /// the cells that are new with the default value.
    pub fn resize(&mut self, width: u32, height: u32)
        requires
            old(self)@.fits(width, height),
        ensures
            final(self)@ == old(self)@.resized(width, height),
            final(self)@.wf(),
    {
        proof {
            use_type_invariant(&*self);
        }
        let was_empty = self.width == 0 || self.height == 0;
        let now_empty = width == 0 || height == 0;
        if (self.width == width && self.height == height) || (was_empty && now_empty) {
            return ;
        }
        let mut taken = SubLayer::new();
        core::mem::swap(self, &mut taken);
        let SubLayer { data: mut data, default_value, cell_size, width: old_width, height: old_height } = taken;
        if now_empty {
            data.clear();
            proof {
                assert(0 * 0 * cell_size == 0) by (nonlinear_arith);
            }
            *self = SubLayer { data, default_value, cell_size, width: 0, height: 0 };
        } else {
            if cell_size > 0 {
                let size = cell_size as usize;
                proof {
                    lemma_row_bytes(old_width as int, old_height as int, size as int);
                    lemma_row_bytes(width as int, height as int, size as int);
                    assert(data@.len() == data.len());
                }
                let pattern = slice_subrange(default_value.as_slice(), 0, size);
                resize_rows(
                    &mut data,
                    old_width as usize * size,
                    old_height as usize,
                    width as usize * size,
                    height as usize,
                    pattern,
                );
            } else {
                proof {
                    lemma_row_bytes(width as int, height as int, 0);
                    lemma_row_bytes(old_width as int, old_height as int, 0);
                    assert(width * cell_size == 0 && old_width * cell_size == 0);
                    assert(0 * height == 0);
                    assert(data@ =~= resized(
                        data@,
                        old_width * cell_size,
                        old_height as int,
                        width * cell_size,
                        height as int,
                        old(self)@.fill(),
                    ));
                }
            }
            proof {
                lemma_row_bytes(width as int, height as int, cell_size as int);
            }
            *self = SubLayer { data, default_value, cell_size, width, height };
        }
    }

    /// Makes `default` the default value and its length, at most four, the
    /// width of every cell. Cells that become wider are padded with zeros;
    /// cells that become narrower lose their last bytes.
    pub fn set_default(&mut self, default: &[u8])
        requires
            old(self)@.width * old(self)@.height * clamped(default@.len()) <= usize::MAX,
        ensures
            final(self)@ == old(self)@.with_default(default@),
            final(self)@.wf(),
    {
        proof {
            use_type_invariant(&*self);
        }
        let size: u8 = if default.len() < 4 {
            default.len() as u8
        } else {
            4
        };
        let mut value = [0u8; 4];
        let mut k: usize = 0;
        while k < size as usize
            invariant
                k <= size <= 4,
                size <= default@.len(),
                value@.len() == 4,
                forall|j: int| 0 <= j < k ==> value@[j] == default@[j],
                forall|j: int| k <= j < 4 ==> value@[j] == 0,
            decreases size - k,
        {
            value[k] = default[k];
            k = k + 1;
        }
        proof {
            assert(value@ =~= padded(default@));
        }
        let mut taken = SubLayer::new();
        core::mem::swap(self, &mut taken);
        let SubLayer { data: mut data, default_value: _, cell_size: old_size, width, height } = taken;
        if size != old_size && width != 0 && height != 0 {
            proof {
                lemma_row_bytes(width as int, height as int, old_size as int);
                lemma_row_bytes(width as int, height as int, size as int);
                assert(data@.len() == data.len());
            }
            if size == 0 {
                data.clear();
                proof {
                    let cells = width * height;
                    assert(0 * cells == 0);
                    assert(data@ =~= resized(
                        old(self)@.data,
                        old_size as int,
                        cells,
                        0,
                        cells,
                        seq![0u8],
                    ));
                }
            } else {
                let cells = width as usize * height as usize;
                let zero = [0u8; 1];
                data = rebuild(&data, old_size as usize, cells, size as usize, cells, zero.as_slice());
                proof {
                    assert(zero@ =~= seq![0u8]);
                }
            }
        }
        proof {
            lemma_row_bytes(width as int, height as int, size as int);
        }
        *self = SubLayer { data, default_value: value, cell_size: size, width, height };
    }

    /// The bytes of the cell in column `pos.0` of row `pos.1`, or `None`
    /// where the sublayer has no such cell.
    pub fn get(&self, pos: (u32, u32)) -> (cell: Option<&[u8]>)
        ensures
            match cell {
                Some(bytes) => pos.0 < self@.width && pos.1 < self@.height && bytes@ == self@.cell(
                    pos.0 as int,
                    pos.1 as int,
                ),
                None => !(pos.0 < self@.width && pos.1 < self@.height),
            },
    {
        proof {
            use_type_invariant(self);
        }
        if pos.0 >= self.width || pos.1 >= self.height {
            return None;
        }
        let size = self.cell_size as usize;
        if size == 0 {
            let bytes = slice_subrange(self.data.as_slice(), 0, 0);
            proof {
                self.lemma_cell_range(pos.0 as int, pos.1 as int);
                assert(bytes@ =~= self@.cell(pos.0 as int, pos.1 as int));
            }
            return Some(bytes);
        }
        proof {
            self.lemma_cell_range(pos.0 as int, pos.1 as int);
            assert(self.data@.len() == self.data.len());
        }
        let index = pos.1 as usize * self.width as usize + pos.0 as usize;
        let start = index * size;
        Some(slice_subrange(self.data.as_slice(), start, start + size))
    }

    /// The bytes of the cell in column `pos.0` of row `pos.1`, for
    /// writing, or `None` where the sublayer has no such cell. Only the bytes
    /// of that cell can change through the result.
    pub fn get_mut(&mut self, pos: (u32, u32)) -> (cell: Option<&mut [u8]>)
        ensures
            match cell {
                Some(bytes) => {
                    &&& pos.0 < old(self)@.width && pos.1 < old(self)@.height
                    &&& bytes@ == old(self)@.cell(pos.0 as int, pos.1 as int)
                    &&& final(bytes)@.len() == bytes@.len()
                    &&& final(self)@ == (SubLayerView {
                        data: old(self)@.data.subrange(
                            0,
                            old(self)@.cell_start(pos.0 as int, pos.1 as int),
                        ) + final(bytes)@ + old(self)@.data.subrange(
                            old(self)@.cell_start(pos.0 as int, pos.1 as int) + old(
                                self,
                            )@.cell_size,
                            old(self)@.data.len() as int,
                        ),
                        ..old(self)@
                    })
                },
                None => !(pos.0 < old(self)@.width && pos.1 < old(self)@.height) && *final(self)
                    == *old(self),
            },
    {
        proof {
            use_type_invariant(&*self);
        }
        if pos.0 >= self.width || pos.1 >= self.height {
            return None;
        }
        let size = self.cell_size as usize;
        if size == 0 {
            proof {
                self.lemma_cell_range(pos.0 as int, pos.1 as int);
            }
            return Some(range_mut(&mut self.data, 0, 0));
        }
        proof {
            self.lemma_cell_range(pos.0 as int, pos.1 as int);
            assert(self.data@.len() == self.data.len());
        }
        let index = pos.1 as usize * self.width as usize + pos.0 as usize;
        let start = index * size;
        Some(range_mut(&mut self.data, start, start + size))
    }

    proof fn lemma_cell_range(self, x: int, y: int)
        requires
            self@.wf(),
            0 <= x < self.width,
            0 <= y < self.height,
        ensures
            0 <= y * self.width + x < self.width * self.height,
            0 <= self@.cell_start(x, y),
            self@.cell_start(x, y) + self.cell_size <= self.data@.len(),
            self.cell_size > 0 ==> y * self.width + x <= self.data@.len(),
            self.cell_size == 0 ==> self@.cell_start(x, y) == 0,
    {
        let w = self.width as int;
        let h = self.height as int;
        let c = self.cell_size as int;
        lemma_cell_in_grid(w, h, x, y);
        let i = y * w + x;
        assert(0 <= i * c && i * c + c <= w * h * c) by (nonlinear_arith)
            requires
                0 <= i < w * h,
                0 <= c,
        ;
        assert(c > 0 ==> i <= w * h * c) by (nonlinear_arith)
            requires
                0 <= i < w * h,
                0 <= c,
        ;
        assert(c == 0 ==> i * c == 0) by (nonlinear_arith);
    }
}

impl Clone for SubLayer {
    fn clone(&self) -> (copy: SubLayer)
        ensures
            copy@ == self@,
    {
        proof {
            use_type_invariant(self);
        }
        let data = self.data.clone();
        proof {
            assert(data@ =~= self.data@);
        }
        SubLayer {
            data,
            default_value: self.default_value,
            cell_size: self.cell_size,
            width: self.width,
            height: self.height,
        }
    }
}

impl Default for SubLayer {
    fn default() -> (sublayer: SubLayer)
        ensures
            sublayer@ == SubLayerView::empty(),
    {
        SubLayer::new()
    }
}

} // verus!
