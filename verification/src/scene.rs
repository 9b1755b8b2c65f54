//! Scene data model: tile-sheets, tiles, and layers of a sparse tile grid.

use vstd::prelude::*;

use crate::EditorError;
use crate::cellmap::CellMap;

verus! {

/// A named texture subdivided into a uniform grid of tile cells.
///
/// `tile_size` is the pixel size of one cell; `sheet_size` the pixel size of
/// the whole texture. A well-formed sheet has positive cell dimensions.
pub struct TileSheet {
    pub filename: String,
    pub path: String,
    pub absolute_path: String,
    pub tile_size: (u32, u32),
    pub sheet_size: (u32, u32),
}

impl Clone for TileSheet {
    fn clone(&self) -> (r: Self)
        ensures
            r == *self,
    {
        TileSheet {
            filename: self.filename.clone(),
            path: self.path.clone(),
            absolute_path: self.absolute_path.clone(),
            tile_size: self.tile_size,
            sheet_size: self.sheet_size,
        }
    }
}

impl TileSheet {
    /// Both cell dimensions are positive, so per-axis tile counts are defined.
    pub open spec fn wf(&self) -> bool {
        self.tile_size.0 > 0 && self.tile_size.1 > 0
    }

    /// A sheet imported with the given pixel size, divided into
    /// `tile_count` cells per axis: the cell size is the integer quotient.
    /// `None` when a tile count is zero or exceeds the sheet size on its
    /// axis, which would leave a cell without a single whole pixel.
    pub fn new(
        filename: String,
        path: String,
        absolute_path: String,
        sheet_size: (u32, u32),
        tile_count: (u32, u32),
    ) -> (r: Option<TileSheet>)
        ensures
            match r {
                Some(s) => {
                    &&& 0 < tile_count.0 <= sheet_size.0 && 0 < tile_count.1 <= sheet_size.1
                    &&& s.wf()
                    &&& s.filename == filename && s.path == path && s.absolute_path
                        == absolute_path
                    &&& s.sheet_size == sheet_size
                    &&& s.tile_size.0 == sheet_size.0 as int / tile_count.0 as int
                    &&& s.tile_size.1 == sheet_size.1 as int / tile_count.1 as int
                },
                None => !(0 < tile_count.0 <= sheet_size.0 && 0 < tile_count.1 <= sheet_size.1),
            },
    {
        if tile_count.0 == 0 || tile_count.1 == 0 || tile_count.0 > sheet_size.0 || tile_count.1
            > sheet_size.1 {
            return None;
        }
        proof {
            vstd::arithmetic::div_mod::lemma_div_non_zero(sheet_size.0 as int, tile_count.0 as int);
            vstd::arithmetic::div_mod::lemma_div_non_zero(sheet_size.1 as int, tile_count.1 as int);
        }
        Some(
            TileSheet {
                filename,
                path,
                absolute_path,
                tile_size: (sheet_size.0 / tile_count.0, sheet_size.1 / tile_count.1),
                sheet_size,
            },
        )
    }

    /// Number of whole tile cells along each axis.
    pub fn get_num_of_tiles(&self) -> (r: (u32, u32))
        requires
            self.wf(),
        ensures
            r.0 == self.sheet_size.0 as int / self.tile_size.0 as int,
            r.1 == self.sheet_size.1 as int / self.tile_size.1 as int,
    {
        (self.sheet_size.0 / self.tile_size.0, self.sheet_size.1 / self.tile_size.1)
    }

    /// Re-derives the cell size from a per-axis tile count. A count that is
    /// zero on either axis, or that would leave a cell without a single
    /// whole pixel, is rejected and the tile size left unchanged.
    pub fn set_tile_count(&mut self, tile_count: (i32, i32))
        requires
            old(self).wf(),
        ensures
            final(self).wf(),
            final(self).filename == old(self).filename,
            final(self).path == old(self).path,
            final(self).absolute_path == old(self).absolute_path,
            final(self).sheet_size == old(self).sheet_size,
            if 0 < tile_count.0 <= old(self).sheet_size.0 && 0 < tile_count.1 <= old(
                self,
            ).sheet_size.1 {
                final(self).tile_size.0 == old(self).sheet_size.0 as int / tile_count.0 as int
                    && final(self).tile_size.1 == old(self).sheet_size.1 as int
                    / tile_count.1 as int
            } else {
                final(self).tile_size == old(self).tile_size
            },
    {
        if 0 < tile_count.0 && tile_count.0 as u32 <= self.sheet_size.0 && 0 < tile_count.1
            && tile_count.1 as u32 <= self.sheet_size.1 {
            proof {
                vstd::arithmetic::div_mod::lemma_div_non_zero(
                    self.sheet_size.0 as int,
                    tile_count.0 as int,
                );
                vstd::arithmetic::div_mod::lemma_div_non_zero(
                    self.sheet_size.1 as int,
                    tile_count.1 as int,
                );
            }
            self.tile_size = (
                self.sheet_size.0 / (tile_count.0 as u32),
                self.sheet_size.1 / (tile_count.1 as u32),
            );
        }
    }
}

/// One placed tile: the sheet it is cut from, the sub-tile coordinate
/// (column, row) within that sheet, and its world-space position, always a
/// multiple of the owning layer's cell size at time of placement.
pub struct Tile {
    pub sheet: String,
    pub sheet_id: (u32, u32),
    pub position: (i32, i32),
}

impl Clone for Tile {
    fn clone(&self) -> (r: Self)
        ensures
            r == *self,
    {
        Tile { sheet: self.sheet.clone(), sheet_id: self.sheet_id, position: self.position }
    }
}

/// One sparse grid of placed tiles sharing a visibility and collision state
/// and a currently assigned tile-sheet.
pub struct Layer {
    /// Grid cell -> tile; one tile per cell.
    pub tiles: CellMap<Tile>,
    pub visible: bool,
    pub collision: bool,
    /// Path of the tile-sheet new placements use; empty when none assigned.
    pub tile_sheet: String,
    /// Index of that sheet in the scene's sheet list, for list selection.
    pub current_tile_item: i32,
}

impl Layer {
    pub open spec fn wf(&self) -> bool {
        self.tiles.wf()
    }

    /// A fresh layer: empty, visible, non-colliding, no assigned sheet.
    pub fn new() -> (r: Self)
        ensures
            r.wf(),
            r.tiles@ == Map::<(i32, i32), Tile>::empty(),
            r.tiles.entries@.len() == 0,
            r.visible,
            !r.collision,
            r.tile_sheet@ == Seq::<char>::empty(),
            r.current_tile_item == 0,
    {
        Layer {
            tiles: CellMap::new(),
            visible: true,
            collision: false,
            tile_sheet: String::new(),
            current_tile_item: 0,
        }
    }
}

/// No two sheets of the list share a path.
pub open spec fn sheet_paths_distinct(s: Seq<TileSheet>) -> bool {
    forall|i: int, j: int|
        0 <= i < j < s.len() ==> (#[trigger] s[i]).path@ != (#[trigger] s[j]).path@
}

/// A scene: its name, storage path, tile-sheets, and layers.
pub struct Scene {
    pub name: String,
    pub path: String,
    pub tile_sheets: Vec<TileSheet>,
    pub layers: Vec<Layer>,
}

impl Scene {
    /// Layers and sheets are well-formed and sheet paths are unique.
    pub open spec fn wf(&self) -> bool {
        &&& forall|i: int| 0 <= i < self.layers@.len() ==> (#[trigger] self.layers@[i]).wf()
        &&& forall|i: int| 0 <= i < self.tile_sheets@.len() ==> (#[trigger] self.tile_sheets@[i]).wf()
        &&& sheet_paths_distinct(self.tile_sheets@)
    }

    /// An empty scene with the given name and storage path.
    pub fn new(name: String, path: String) -> (r: Self)
        ensures
            r.wf(),
            r.name == name,
            r.path == path,
            r.tile_sheets@.len() == 0,
            r.layers@.len() == 0,
    {
        Scene { name, path, tile_sheets: Vec::new(), layers: Vec::new() }
    }

    /// Whether the scene invariant holds, checked at run time: used to
    /// validate a scene read back from storage.
    pub fn is_wf(&self) -> (r: bool)
        ensures
            r == self.wf(),
    {
        let nl = self.layers.len();
        for i in 0..nl
            invariant
                nl == self.layers@.len(),
                forall|j: int| 0 <= j < i ==> (#[trigger] self.layers@[j]).wf(),
        {
            if !self.layers[i].tiles.check_distinct() {
                return false;
            }
        }
        let ns = self.tile_sheets.len();
        for i in 0..ns
            invariant
                ns == self.tile_sheets@.len(),
                forall|j: int| 0 <= j < i ==> (#[trigger] self.tile_sheets@[j]).wf(),
        {
            let t = &self.tile_sheets[i];
            if t.tile_size.0 == 0 || t.tile_size.1 == 0 {
                return false;
            }
        }
        for i in 0..ns
            invariant
                ns == self.tile_sheets@.len(),
                forall|p: int, q: int|
                    0 <= p < q < self.tile_sheets@.len() && p < i
                        ==> (#[trigger] self.tile_sheets@[p]).path@ != (
                    #[trigger] self.tile_sheets@[q]).path@,
        {
            for j in (i + 1)..ns
                invariant
                    ns == self.tile_sheets@.len(),
                    i < ns,
                    forall|q: int|
                        i < q < j ==> (#[trigger] self.tile_sheets@[q]).path@
                            != self.tile_sheets@[i as int].path@,
            {
                if self.tile_sheets[i].path == self.tile_sheets[j].path {
                    return false;
                }
            }
        }
        true
    }

    /// Index of the tile-sheet with the given path, if any.
    pub fn find_tile_sheet(&self, path: &str) -> (r: Option<usize>)
        ensures
            match r {
                Some(i) => i < self.tile_sheets@.len() && self.tile_sheets@[i as int].path@
                    == path@,
                None => forall|i: int|
                    0 <= i < self.tile_sheets@.len()
                        ==> (#[trigger] self.tile_sheets@[i]).path@ != path@,
            },
    {
        let key = path.to_owned();
        let n = self.tile_sheets.len();
        for i in 0..n
            invariant
                n == self.tile_sheets@.len(),
                key@ == path@,
                forall|j: int| 0 <= j < i ==> (#[trigger] self.tile_sheets@[j]).path@ != path@,
        {
            if self.tile_sheets[i].path == key {
                return Some(i);
            }
        }
        None
    }

    /// Appends a tile-sheet; fails with `DuplicateSheet` when one with the
    /// same path is already part of the scene, leaving the scene unchanged.
    pub fn add_tile_sheet(&mut self, sheet: TileSheet) -> (r: Result<(), EditorError>)
        requires
            old(self).wf(),
            sheet.wf(),
        ensures
            final(self).wf(),
            match r {
                Ok(()) => {
                    &&& forall|i: int|
                        0 <= i < old(self).tile_sheets@.len()
                            ==> (#[trigger] old(self).tile_sheets@[i]).path@ != sheet.path@
                    &&& final(self).tile_sheets@ == old(self).tile_sheets@.push(sheet)
                    &&& final(self).layers == old(self).layers
                    &&& final(self).name == old(self).name
                    &&& final(self).path == old(self).path
                },
                Err(EditorError::DuplicateSheet) => {
                    &&& exists|i: int|
                        0 <= i < old(self).tile_sheets@.len()
                            && (#[trigger] old(self).tile_sheets@[i]).path@ == sheet.path@
                    &&& *final(self) == *old(self)
                },
                Err(_) => false,
            },
    {
        let n = self.tile_sheets.len();
        for i in 0..n
            invariant
                *self == *old(self),
                n == self.tile_sheets@.len(),
                old(self).wf(),
                forall|j: int| 0 <= j < i ==> (#[trigger] self.tile_sheets@[j]).path@ != sheet.path@,
        {
            if self.tile_sheets[i].path == sheet.path {
                return Err(EditorError::DuplicateSheet);
            }
        }
        self.tile_sheets.push(sheet);
        Ok(())
    }
}

} // verus!
