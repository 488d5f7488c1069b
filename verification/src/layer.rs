//! Layers: a grid of tiles with its settings and its sublayers.

use vstd::prelude::*;
use crate::grid::{lemma_resized_cell, resize_rows, resized};
use crate::sublayer::{clamped, SubLayer, SubLayerView};
use crate::tile::Tile;

verus! {

/// A 32-bit IEEE 754 number, held as its bit pattern.
#[derive(Clone, Copy, PartialEq, Eq, Structural, Debug)]
pub struct FloatBits {
    /// The bit pattern.
    pub bits: u32,
}

impl FloatBits {
    /// The number with the given bit pattern.
    pub fn from_bits(bits: u32) -> (number: FloatBits)
        ensures
            number.bits == bits,
    {
        FloatBits { bits }
    }

    /// The bit pattern of the number.
    pub fn to_bits(self) -> (bits: u32)
        ensures
            bits == self.bits,
    {
        self.bits
    }
}

/// The sublayers that a layer's tileset, animation and animation frame are
/// taken from, by index; `0xFF` where none is linked.
#[derive(Clone, Copy, PartialEq, Eq, Structural, Debug)]
pub struct SubLayerLink {
    /// The sublayer that the tileset is linked to.
    pub tileset: u8,
    /// The sublayer that the animation is linked to.
    pub animation: u8,
    /// The sublayer that the animation frames are linked to.
    pub animation_frame: u8,
}

impl SubLayerLink {
    /// The link with nothing linked.
    pub open spec fn unlinked() -> SubLayerLink {
        SubLayerLink { tileset: 0xFF, animation: 0xFF, animation_frame: 0xFF }
    }

    /// A link with nothing linked.
    pub fn new() -> (link: SubLayerLink)
        ensures
            link == SubLayerLink::unlinked(),
    {
        SubLayerLink { tileset: 0xFF, animation: 0xFF, animation_frame: 0xFF }
    }
}

impl Default for SubLayerLink {
    fn default() -> (link: SubLayerLink)
        ensures
            link == SubLayerLink::unlinked(),
    {
        SubLayerLink::new()
    }
}

/// What a layer holds.
pub struct LayerView {
    /// The tiles, row by row.
    pub data: Seq<Tile>,
    /// The number of columns.
    pub width: u32,
    /// The number of rows.
    pub height: u32,
    /// The index of the tileset.
    pub tileset: u8,
    /// The index of the collision.
    pub collision: u8,
    /// The offset of the layer, x then y.
    pub offset: (i32, i32),
    /// The scroll of the layer, x then y.
    pub scroll: (FloatBits, FloatBits),
    /// Whether the layer wraps, x then y.
    pub wrap: (bool, bool),
    /// Whether the layer is visible.
    pub visible: bool,
    /// The opacity of the layer.
    pub opacity: FloatBits,
    /// The size of a tile in pixels.
    pub tile_dimensions: (u16, u16),
    /// The sublayers.
    pub sublayers: Seq<SubLayerView>,
    /// The sublayer link.
    pub sublayer_link: SubLayerLink,
}

/// The tile that a new cell of a layer holds.
pub open spec fn unset_tile() -> Tile {
    Tile { id: 0xFFFF }
}

/// What each of the sublayers holds.
pub open spec fn sublayer_views(sublayers: Seq<SubLayer>) -> Seq<SubLayerView> {
    sublayers.map_values(|s: SubLayer| s@)
}

impl LayerView {
    /// What a new layer holds: no tiles, no sublayers, visible and opaque,
    /// with tiles of 16 by 16 pixels.
    pub open spec fn new() -> LayerView {
        LayerView {
            data: Seq::empty(),
            width: 0,
            height: 0,
            tileset: 0,
            collision: 0,
            offset: (0, 0),
            scroll: (FloatBits { bits: 0 }, FloatBits { bits: 0 }),
            wrap: (false, false),
            visible: true,
            opacity: FloatBits { bits: 0x3F80_0000 },
            tile_dimensions: (16, 16),
            sublayers: Seq::empty(),
            sublayer_link: SubLayerLink::unlinked(),
        }
    }

    /// Whether the layer holds exactly the tiles of its grid.
    pub open spec fn wf(self) -> bool {
        self.data.len() == self.width * self.height
    }

    /// Whether the layer has no grid.
    pub open spec fn is_empty(self) -> bool {
        self.width == 0 || self.height == 0
    }

    /// The index of the tile in column `x` of row `y`.
    pub open spec fn tile_index(self, x: int, y: int) -> int {
        y * self.width + x
    }

    /// Whether a layer of the given dimensions, and each of this layer's
    /// sublayers at these dimensions, can be held in memory.
    pub open spec fn fits(self, width: u32, height: u32) -> bool {
        &&& width * height <= usize::MAX
        &&& forall|i: int|
            0 <= i < self.sublayers.len() ==> (#[trigger] self.sublayers[i]).fits(width, height)
    }

    /// The layer after a resize to `width` columns and `height` rows.
    ///
    /// Nothing changes where the dimensions stay, or where the layer is empty
    /// and stays so. In every other case all sublayers are resized as well. A
    /// dimension of zero then empties the layer; otherwise each tile inside
    /// both the old and the new dimensions stays, and each other cell holds
    /// the unset tile.
    pub open spec fn resized(self, width: u32, height: u32) -> LayerView {
        if (self.width == width && self.height == height) || (self.is_empty() && (width == 0
            || height == 0)) {
            self
        } else if width == 0 || height == 0 {
            LayerView {
                data: Seq::empty(),
                width: 0,
                height: 0,
                sublayers: self.sublayers.map_values(|s: SubLayerView| s.resized(width, height)),
                ..self
            }
        } else {
            LayerView {
                data: resized(
                    self.data,
                    self.width as int,
                    self.height as int,
                    width as int,
                    height as int,
                    seq![unset_tile()],
                ),
                width,
                height,
                sublayers: self.sublayers.map_values(|s: SubLayerView| s.resized(width, height)),
                ..self
            }
        }
    }
}


impl LayerView {
    /// A resize to the dimensions that a layer has leaves it as it is.
    pub proof fn lemma_resized_same_size(self)
        ensures
            self.resized(self.width, self.height) == self,
    {
    }

    /// The tile in column `x` of row `y` after a resize to dimensions that
    /// are not zero: the old tile where the old dimensions hold the cell,
    /// the unset tile elsewhere.
    pub proof fn lemma_resized_tile(self, width: u32, height: u32, x: int, y: int)
        requires
            self.wf(),
            0 <= x < width,
            0 <= y < height,
        ensures
            self.resized(width, height).wf(),
            self.resized(width, height).width == width,
            self.resized(width, height).height == height,
            self.resized(width, height).data[self.resized(width, height).tile_index(x, y)] == (
            if x < self.width && y < self.height {
                self.data[self.tile_index(x, y)]
            } else {
                unset_tile()
            }),
    {
        if self.width == width && self.height == height {
        } else {
            lemma_resized_cell(
                self.data,
                self.width as int,
                self.height as int,
                width as int,
                height as int,
                seq![unset_tile()],
                x,
                y,
            );
        }
    }

    /// Shrinking a layer and growing it back to the size that it had does
    /// not bring back what was cut off: a cell that the smaller size did not
    /// hold comes back with the unset tile.
    pub proof fn lemma_shrink_then_grow(self, width: u32, height: u32, x: int, y: int)
        requires
            self.wf(),
            0 < width <= self.width,
            0 < height <= self.height,
            0 <= x < self.width,
            0 <= y < self.height,
        ensures
            self.resized(width, height).resized(self.width, self.height).data[self.tile_index(
                x,
                y,
            )] == (if x < width && y < height {
                self.data[self.tile_index(x, y)]
            } else {
                unset_tile()
            }),
    {
        let small = self.resized(width, height);
        if x < width && y < height {
            self.lemma_resized_tile(width, height, x, y);
        } else {
            self.lemma_resized_tile(width, height, 0, 0);
        }
        small.lemma_resized_tile(self.width, self.height, x, y);
    }
}

/// A grid of tiles with its settings and its sublayers.
#[derive(PartialEq, Debug)]
pub struct Layer {
    pub(crate) data: Vec<Tile>,
    pub(crate) width: u32,
    pub(crate) height: u32,
    /// The index of the tileset.
    pub tileset: u8,
    /// The index of the collision.
    pub collision: u8,
    /// The offset of the layer, x then y.
    pub offset: (i32, i32),
    /// The scroll of the layer, x then y.
    pub scroll: (FloatBits, FloatBits),
    /// Whether the layer wraps, x then y.
    pub wrap: (bool, bool),
    /// Whether the layer is visible.
    pub visible: bool,
    /// The opacity of the layer.
    pub opacity: FloatBits,
    /// The size of a tile in pixels.
    pub tile_dimensions: (u16, u16),
    /// The sublayers. Only the first 255 are written to a file.
    pub sublayers: Vec<SubLayer>,
    /// The sublayer link.
    pub sublayer_link: SubLayerLink,
}

impl View for Layer {
    type V = LayerView;

    closed spec fn view(&self) -> LayerView {
        LayerView {
            data: self.data@,
            width: self.width,
            height: self.height,
            tileset: self.tileset,
            collision: self.collision,
            offset: self.offset,
            scroll: self.scroll,
            wrap: self.wrap,
            visible: self.visible,
            opacity: self.opacity,
            tile_dimensions: self.tile_dimensions,
            sublayers: sublayer_views(self.sublayers@),
            sublayer_link: self.sublayer_link,
        }
    }
}

impl Layer {
    /// The view, field by field.
    pub(crate) proof fn lemma_view(self)
        ensures
            self@.data == self.data@,
            self@.width == self.width,
            self@.height == self.height,
            self@.tileset == self.tileset,
            self@.collision == self.collision,
            self@.offset == self.offset,
            self@.scroll == self.scroll,
            self@.wrap == self.wrap,
            self@.visible == self.visible,
            self@.opacity == self.opacity,
            self@.tile_dimensions == self.tile_dimensions,
            self@.sublayers == sublayer_views(self.sublayers@),
            self@.sublayer_link == self.sublayer_link,
    {
    }

    /// A layer without tiles and without sublayers, visible and opaque, with
    /// tiles of 16 by 16 pixels.
    pub fn new() -> (layer: Layer)
        ensures
            layer@ == LayerView::new(),
    {
        let layer = Layer {
            data: Vec::new(),
            width: 0,
            height: 0,
            tileset: 0,
            collision: 0,
            offset: (0, 0),
            scroll: (FloatBits { bits: 0 }, FloatBits { bits: 0 }),
            wrap: (false, false),
            visible: true,
            opacity: FloatBits { bits: 0x3F80_0000 },
            tile_dimensions: (16, 16),
            sublayers: Vec::new(),
            sublayer_link: SubLayerLink::new(),
        };
        proof {
            assert(layer@.sublayers =~= Seq::empty());
        }
        layer
    }

    /// The number of columns.
    pub fn width(&self) -> (width: u32)
        ensures
            width == self@.width,
    {
        self.width
    }

    /// The number of rows.
    pub fn height(&self) -> (height: u32)
        ensures
            height == self@.height,
    {
        self.height
    }

    /// The tiles, row by row.
    pub fn tiles(&self) -> (tiles: &[Tile])
        ensures
            tiles@ == self@.data,
    {
        self.data.as_slice()
    }

    /// Whether the layer holds exactly the tiles of its grid.
    pub fn is_well_formed(&self) -> (well_formed: bool)
        ensures
            well_formed == self@.wf(),
    {
        let (width, height) = (self.width, self.height);
        assert(width * height <= 0xFFFF_FFFF * 0xFFFF_FFFF) by (nonlinear_arith)
            requires
                width <= 0xFFFF_FFFF,
                height <= 0xFFFF_FFFF,
        ;
        assert(self.data@.len() == self.data.len());
        self.data.len() as u64 == width as u64 * height as u64
    }

    /// Resizes the layer and all its sublayers to `width` columns and
    /// `height` rows. Cells that are new hold the unset tile.
    pub fn resize(&mut self, width: u32, height: u32)
        requires
            old(self)@.wf(),
            old(self)@.fits(width, height),
        ensures
            final(self)@ == old(self)@.resized(width, height),
            final(self)@.wf(),
    {
        let was_empty = self.width == 0 || self.height == 0;
        let now_empty = width == 0 || height == 0;
        if (self.width == width && self.height == height) || (was_empty && now_empty) {
            return ;
        }
        if now_empty {
            self.data.clear();
            self.width = 0;
            self.height = 0;
        } else {
            let unset = [Tile { id: 0xFFFF }];
            proof {
                assert(unset@ =~= seq![unset_tile()]);
            }
            resize_rows(
                &mut self.data,
                self.width as usize,
                self.height as usize,
                width as usize,
                height as usize,
                unset.as_slice(),
            );
            self.width = width;
            self.height = height;
        }
        let mut i: usize = 0;
        while i < self.sublayers.len()
            invariant
                i <= self.sublayers@.len(),
                self.sublayers@.len() == old(self).sublayers@.len(),
                old(self)@.fits(width, height),
                forall|j: int|
                    0 <= j < i ==> (#[trigger] self.sublayers@[j])@ == old(self).sublayers@[j]@.resized(
                        width,
                        height,
                    ),
                forall|j: int|
                    i <= j < self.sublayers@.len() ==> #[trigger] self.sublayers@[j] == old(
                        self,
                    ).sublayers@[j],
                self.data@ == old(self)@.resized(width, height).data,
                self.width == old(self)@.resized(width, height).width,
                self.height == old(self)@.resized(width, height).height,
                self.tileset == old(self).tileset,
                self.collision == old(self).collision,
                self.offset == old(self).offset,
                self.scroll == old(self).scroll,
                self.wrap == old(self).wrap,
                self.visible == old(self).visible,
                self.opacity == old(self).opacity,
                self.tile_dimensions == old(self).tile_dimensions,
                self.sublayer_link == old(self).sublayer_link,
            decreases self.sublayers@.len() - i,
        {
            proof {
                assert(old(self)@.sublayers[i as int] == old(self).sublayers@[i as int]@);
            }
            self.sublayers[i].resize(width, height);
            i = i + 1;
        }
        proof {
            assert(self@.sublayers =~= old(self)@.resized(width, height).sublayers);
        }
    }

    /// The tile in column `pos.0` of row `pos.1`, or `None` where the index
    /// of that cell, `pos.1 * width + pos.0`, lies behind the last tile.
    pub fn get(&self, pos: (usize, usize)) -> (tile: Option<&Tile>)
        ensures
            match tile {
                Some(tile) => self@.tile_index(pos.0 as int, pos.1 as int) < self@.data.len()
                    && *tile == self@.data[self@.tile_index(pos.0 as int, pos.1 as int)],
                None => self@.tile_index(pos.0 as int, pos.1 as int) >= self@.data.len(),
            },
    {
        match self.index_of(pos) {
            Some(index) => Some(&self.data[index]),
            None => None,
        }
    }

    /// The tile in column `pos.0` of row `pos.1`, for writing, or `None`
    /// where the index of that cell, `pos.1 * width + pos.0`, lies behind the
    /// last tile.
    pub fn get_mut(&mut self, pos: (usize, usize)) -> (tile: Option<&mut Tile>)
        ensures
            match tile {
                Some(tile) => {
                    &&& old(self)@.tile_index(pos.0 as int, pos.1 as int) < old(self)@.data.len()
                    &&& *tile == old(self)@.data[old(self)@.tile_index(pos.0 as int, pos.1 as int)]
                    &&& final(self)@ == (LayerView {
                        data: old(self)@.data.update(
                            old(self)@.tile_index(pos.0 as int, pos.1 as int),
                            *final(tile),
                        ),
                        ..old(self)@
                    })
                },
                None => old(self)@.tile_index(pos.0 as int, pos.1 as int) >= old(self)@.data.len()
                    && *final(self) == *old(self),
            },
    {
        match self.index_of(pos) {
            Some(index) => Some(&mut self.data[index]),
            None => None,
        }
    }

    /// The index of the cell in column `pos.0` of row `pos.1`, where a tile
    /// stands there.
    fn index_of(&self, pos: (usize, usize)) -> (index: Option<usize>)
        ensures
            match index {
                Some(index) => index == self@.tile_index(pos.0 as int, pos.1 as int) && index
                    < self@.data.len(),
                None => self@.tile_index(pos.0 as int, pos.1 as int) >= self@.data.len(),
            },
    {
        assert(self.data@.len() == self.data.len());
        assert(0 <= pos.1 * self.width) by (nonlinear_arith);
        let row = pos.1.checked_mul(self.width as usize);
        match row {
            Some(row) => match row.checked_add(pos.0) {
                Some(index) => if index < self.data.len() {
                    Some(index)
                } else {
                    None
                },
                None => None,
            },
            None => None,
        }
    }

    /// Appends a sublayer with the given default value and with the
    /// dimensions of the layer, every cell holding that value.
    pub fn add_sublayer(&mut self, default_value: &[u8]) -> (sublayer: &mut SubLayer)
        requires
            old(self)@.width * old(self)@.height * clamped(default_value@.len()) <= usize::MAX,
        ensures
            sublayer@ == SubLayerView::empty().with_default(default_value@).resized(
                old(self)@.width,
                old(self)@.height,
            ),
            final(self)@ == (LayerView {
                sublayers: old(self)@.sublayers.push(final(sublayer)@),
                ..old(self)@
            }),
    {
        let mut sublayer = SubLayer::new();
        proof {
            assert(0 * 0 * clamped(default_value@.len()) == 0) by (nonlinear_arith);
        }
        sublayer.set_default(default_value);
        sublayer.resize(self.width, self.height);
        self.sublayers.push(sublayer);
        let last = self.sublayers.len() - 1;
        let added = &mut self.sublayers[last];
        proof {
            assert(sublayer_views(old(self).sublayers@.push(*final(added))) =~= sublayer_views(
                old(self).sublayers@,
            ).push(final(added)@));
            assert(old(self).sublayers@.push(sublayer).update(last as int, *final(added))
                =~= old(self).sublayers@.push(*final(added)));
        }
        added
    }
}

impl Clone for Layer {
    fn clone(&self) -> (copy: Layer)
        ensures
            copy@ == self@,
    {
        let data = self.data.clone();
        let mut sublayers: Vec<SubLayer> = Vec::new();
        let mut i: usize = 0;
        while i < self.sublayers.len()
            invariant
                i <= self.sublayers@.len(),
                sublayers@.len() == i,
                forall|j: int| 0 <= j < i ==> (#[trigger] sublayers@[j])@ == self.sublayers@[j]@,
            decreases self.sublayers@.len() - i,
        {
            sublayers.push(self.sublayers[i].clone());
            i = i + 1;
        }
        proof {
            assert(data@ =~= self.data@);
            assert(sublayer_views(sublayers@) =~= sublayer_views(self.sublayers@));
        }
        Layer {
            data,
            width: self.width,
            height: self.height,
            tileset: self.tileset,
            collision: self.collision,
            offset: self.offset,
            scroll: self.scroll,
            wrap: self.wrap,
            visible: self.visible,
            opacity: self.opacity,
            tile_dimensions: self.tile_dimensions,
            sublayers,
            sublayer_link: self.sublayer_link,
        }
    }
}

impl Default for Layer {
    fn default() -> (layer: Layer)
        ensures
            layer@ == LayerView::new(),
    {
        Layer::new()
    }
}

} // verus!
