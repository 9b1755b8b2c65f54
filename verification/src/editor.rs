//! The editor state: open project configuration, current scene, and the
//! placement engine that keeps the per-layer display cache in lockstep with
//! the authoritative tile grid.

use vstd::prelude::*;

use crate::assets::{Asset, Config};
use crate::cellmap::{CellMap, cell_map_of, lemma_cell_map_contains, lemma_cell_map_index};
use crate::scene::{Layer, Scene, Tile};

verus! {

/// A renderable sprite derived from one placed tile: the display cache's
/// projection of the authoritative `Tile`, plus the layer's visibility.
pub struct SpriteInstance {
    pub sheet: String,
    pub sheet_id: (u32, u32),
    pub position: (i32, i32),
    pub visible: bool,
}

/// The sprite a tile projects to under a layer visibility.
pub open spec fn sprite_of(t: Tile, visible: bool) -> SpriteInstance {
    SpriteInstance { sheet: t.sheet, sheet_id: t.sheet_id, position: t.position, visible }
}

/// The display cache of a layer is the pure projection of its tile map:
/// same cells, and each sprite derived from the tile there and the layer's
/// visibility.
pub open spec fn cache_synced(layer: Layer, cache: CellMap<SpriteInstance>) -> bool {
    &&& cache.wf()
    &&& cache@.dom() == layer.tiles@.dom()
    &&& forall|k: (i32, i32)|
        layer.tiles@.dom().contains(k) ==> cache@[k] == sprite_of(
            layer.tiles@[k],
            layer.visible,
        )
}

/// The grid coordinate nearest to `p` among multiples of `c`, ties rounded
/// away from zero: `round(p / c) * c` on each axis.
pub open spec fn round_to_cell(p: int, c: int) -> int
    recommends
        c > 0,
{
    if p >= 0 {
        ((2 * p + c) / (2 * c)) * c
    } else {
        -(((2 * (-p) + c) / (2 * c)) * c)
    }
}

/// The snapped grid cell for a position and a cell size.
pub open spec fn snap_cell(pos: (i32, i32), cell_size: (u32, u32)) -> (i32, i32) {
    (
        round_to_cell(pos.0 as int, cell_size.0 as int) as i32,
        round_to_cell(pos.1 as int, cell_size.1 as int) as i32,
    )
}

/// Both snapped coordinates fit the grid's integer range.
pub open spec fn snap_fits(pos: (i32, i32), cell_size: (u32, u32)) -> bool {
    &&& i32::MIN <= round_to_cell(pos.0 as int, cell_size.0 as int) <= i32::MAX
    &&& i32::MIN <= round_to_cell(pos.1 as int, cell_size.1 as int) <= i32::MAX
}

/// LAW: snapping is deterministic and picks a nearest multiple of the cell
/// size: the snapped coordinate is a multiple of `c` and differs from the
/// position by at most half a cell on each axis.
pub proof fn lemma_snap_is_nearest(p: int, c: int)
    requires
        c > 0,
    ensures
        round_to_cell(p, c) % c == 0,
        2 * (p - round_to_cell(p, c)) <= c,
        -c <= 2 * (p - round_to_cell(p, c)),
{
    if p >= 0 {
        let q = (2 * p + c) / (2 * c);
        vstd::arithmetic::div_mod::lemma_fundamental_div_mod(2 * p + c, 2 * c);
        let rem = (2 * p + c) % (2 * c);
        assert(2 * (p - q * c) == rem - c) by (nonlinear_arith)
            requires
                2 * p + c == 2 * c * q + rem,
        ;
        vstd::arithmetic::div_mod::lemma_mod_multiples_basic(q, c);
    } else {
        let m = -p;
        let q = (2 * m + c) / (2 * c);
        vstd::arithmetic::div_mod::lemma_fundamental_div_mod(2 * m + c, 2 * c);
        let rem = (2 * m + c) % (2 * c);
        assert(2 * (m - q * c) == rem - c) by (nonlinear_arith)
            requires
                2 * m + c == 2 * c * q + rem,
        ;
        assert(round_to_cell(p, c) == -(q * c));
        assert(2 * (p - round_to_cell(p, c)) == -(2 * (m - q * c)));
        vstd::arithmetic::div_mod::lemma_mod_multiples_basic(-q, c);
        assert((-q) * c == -(q * c)) by (nonlinear_arith);
    }
}

fn snap_axis(p: i32, c: u32) -> (r: i32)
    requires
        c > 0,
        i32::MIN <= round_to_cell(p as int, c as int) <= i32::MAX,
    ensures
        r as int == round_to_cell(p as int, c as int),
{
    let ci: i64 = c as i64;
    if p >= 0 {
        let pi: i64 = p as i64;
        let q: i64 = (2 * pi + ci) / (2 * ci);
        proof {
            vstd::arithmetic::div_mod::lemma_fundamental_div_mod(2 * pi + ci, 2 * ci);
            vstd::arithmetic::div_mod::lemma_div_pos_is_pos(2 * pi + ci, 2 * ci);
            assert(q * ci >= 0 && 2 * (q * ci) <= 2 * pi + ci) by (nonlinear_arith)
                requires
                    q >= 0,
                    ci > 0,
                    (2 * ci) * q <= 2 * pi + ci,
            ;
        }
        (q * ci) as i32
    } else {
        let mi: i64 = -(p as i64);
        let q: i64 = (2 * mi + ci) / (2 * ci);
        proof {
            vstd::arithmetic::div_mod::lemma_fundamental_div_mod(2 * mi + ci, 2 * ci);
            vstd::arithmetic::div_mod::lemma_div_pos_is_pos(2 * mi + ci, 2 * ci);
            assert(q * ci >= 0 && 2 * (q * ci) <= 2 * mi + ci) by (nonlinear_arith)
                requires
                    q >= 0,
                    ci > 0,
                    (2 * ci) * q <= 2 * mi + ci,
            ;
        }
        (-(q * ci)) as i32
    }
}

/// Snaps a world-space position to the grid: the nearest multiple of the
/// cell size on each axis independently, ties rounded away from zero.
pub fn snap(pos: (i32, i32), cell_size: (u32, u32)) -> (r: (i32, i32))
    requires
        cell_size.0 > 0,
        cell_size.1 > 0,
        snap_fits(pos, cell_size),
    ensures
        r == snap_cell(pos, cell_size),
{
    (snap_axis(pos.0, cell_size.0), snap_axis(pos.1, cell_size.1))
}

/// Rebuilds the display cache of one layer from its authoritative tile map.
pub fn cache_of_layer(layer: &Layer) -> (c: CellMap<SpriteInstance>)
    requires
        layer.wf(),
    ensures
        cache_synced(*layer, c),
{
    let mut c: CellMap<SpriteInstance> = CellMap::new();
    let n = layer.tiles.entries.len();
    for i in 0..n
        invariant
            layer.wf(),
            n == layer.tiles.entries@.len(),
            c.wf(),
            c@.dom() == cell_map_of(layer.tiles.entries@.take(i as int)).dom(),
            forall|k: (i32, i32)|
                cell_map_of(layer.tiles.entries@.take(i as int)).dom().contains(k)
                    ==> c@[k] == sprite_of(
                    cell_map_of(layer.tiles.entries@.take(i as int))[k],
                    layer.visible,
                ),
    {
        let e = &layer.tiles.entries[i];
        let spr = SpriteInstance {
            sheet: e.1.sheet.clone(),
            sheet_id: e.1.sheet_id,
            position: e.1.position,
            visible: layer.visible,
        };
        proof {
            let pre = layer.tiles.entries@.take(i as int);
            let post = layer.tiles.entries@.take(i + 1);
            assert(post.drop_last() =~= pre);
            assert(post.last() == layer.tiles.entries@[i as int]);
            assert(cell_map_of(post) == cell_map_of(pre).insert(
                layer.tiles.entries@[i as int].0,
                layer.tiles.entries@[i as int].1,
            ));
        }
        c.insert(e.0, spr);
        proof {
            assert(c@.dom() =~= cell_map_of(layer.tiles.entries@.take(i + 1)).dom());
        }
    }
    proof {
        assert(layer.tiles.entries@.take(n as int) =~= layer.tiles.entries@);
    }
    c
}

/// What the property panel of the surrounding tool is showing: nothing, the
/// current layer, the tile-sheet at an index, or the Script ordering.
pub enum PropertySelect {
    Nothing,
    Layer,
    Tilesheet(usize),
    Script,
}

/// The open project and scene being edited.
pub struct App {
    /// The project configuration: asset registry and settings.
    pub config: Config,
    /// Root directory of the open project; empty when none is open.
    pub current_project: String,
    /// Path of the tile-sheet new placements use.
    pub current_tile_sheet: String,
    /// The open scene, if any.
    pub current_scene: Option<Scene>,
    /// Index of the layer placements go to.
    pub current_layer: usize,
    /// Per-layer display cache, kept in lockstep with the scene's layers.
    pub sprite_buffer: Vec<CellMap<SpriteInstance>>,
}

impl App {
    /// Editor invariant: the configuration is well-formed, and when a scene
    /// is open it is well-formed, has at least one layer, the current layer
    /// exists, and every layer's display cache is its tile map's projection.
    pub open spec fn wf(&self) -> bool {
        &&& self.config.wf()
        &&& match self.current_scene {
            Some(scene) => {
                &&& scene.wf()
                &&& scene.layers@.len() > 0
                &&& self.current_layer < scene.layers@.len()
                &&& self.sprite_buffer@.len() == scene.layers@.len()
                &&& forall|i: int|
                    0 <= i < scene.layers@.len() ==> cache_synced(
                        #[trigger] scene.layers@[i],
                        self.sprite_buffer@[i],
                    )
            },
            None => self.sprite_buffer@.len() == 0,
        }
    }

    /// A fresh editor: empty configuration, no project, no scene.
    pub fn new() -> (r: Self)
        ensures
            r.wf(),
            r.config.assets@.len() == 0,
            r.config.window_size == (800u32, 600u32),
            r.current_project@ == Seq::<char>::empty(),
            r.current_tile_sheet@ == Seq::<char>::empty(),
            r.current_scene is None,
            r.current_layer == 0,
    {
        App {
            config: Config::new(),
            current_project: String::new(),
            current_tile_sheet: String::new(),
            current_scene: None,
            current_layer: 0,
            sprite_buffer: Vec::new(),
        }
    }

    /// Path of the tile-sheet new placements use.
    pub fn get_tile_sheet(&self) -> (r: String)
        ensures
            r == self.current_tile_sheet,
    {
        self.current_tile_sheet.clone()
    }

    /// Places a tile: snaps `pos` to the grid of the sheet named
    /// `sheet_path` and upserts the current layer's cell with a tile cut at
    /// `subtile`, keeping the display cache in lockstep. Placement always
    /// overwrites (last write wins). A missing scene or unknown sheet is a
    /// no-op: without a sheet there is no grid to snap to.
    pub fn place(&mut self, pos: (i32, i32), sheet_path: &str, subtile: (u32, u32))
        requires
            old(self).wf(),
            old(self).current_scene matches Some(scene) ==> forall|i: int|
                0 <= i < scene.tile_sheets@.len() && (#[trigger] scene.tile_sheets@[i]).path@
                    == sheet_path@ ==> snap_fits(pos, scene.tile_sheets@[i].tile_size),
        ensures
            final(self).wf(),
            same_project_state(*old(self), *final(self)),
            match old(self).current_scene {
                None => *final(self) == *old(self),
                Some(scene) => {
                    if exists|i: int|
                        0 <= i < scene.tile_sheets@.len()
                            && (#[trigger] scene.tile_sheets@[i]).path@ == sheet_path@ {
                        final(self).current_scene matches Some(s2) && exists|i: int, t: Tile|
                            placed_with(
                                scene,
                                s2,
                                old(self).current_layer as int,
                                pos,
                                sheet_path@,
                                subtile,
                                i,
                                t,
                            )
                    } else {
                        *final(self) == *old(self)
                    }
                },
            },
    {
        let cur = self.current_layer;
        let si = match &self.current_scene {
            Some(scene) => {
                match scene.find_tile_sheet(sheet_path) {
                    Some(si) => si,
                    None => {
                        return ;
                    },
                }
            },
            None => {
                return ;
            },
        };
        let mut todo: Option<((i32, i32), SpriteInstance)> = None;
        match self.current_scene.as_mut() {
            Some(scene) => {
                let ts = scene.tile_sheets[si].tile_size;
                let cell = snap(pos, ts);
                let tile = Tile { sheet: sheet_path.to_owned(), sheet_id: subtile, position: cell };
                let spr = SpriteInstance {
                    sheet: tile.sheet.clone(),
                    sheet_id: subtile,
                    position: cell,
                    visible: scene.layers[cur].visible,
                };
                let layer = &mut scene.layers[cur];
                layer.tiles.insert(cell, tile);
                todo = Some((cell, spr));
            },
            None => {},
        }
        match todo {
            Some((cell, spr)) => {
                let cm = &mut self.sprite_buffer[cur];
                cm.insert(cell, spr);
            },
            None => {},
        }
        proof {
            let oldapp = *old(self);
            let scene = oldapp.current_scene->Some_0;
            let s2 = self.current_scene->Some_0;
            let li = cur as int;
            assert(s2.layers@[li].tiles@.dom() =~= self.sprite_buffer@[li]@.dom());
            assert forall|j: int| 0 <= j < s2.layers@.len() implies cache_synced(
                #[trigger] s2.layers@[j],
                self.sprite_buffer@[j],
            ) by {
                assert(cache_synced(scene.layers@[j], oldapp.sprite_buffer@[j]));
            }
            let si_ = si as int;
            let cellg = snap_cell(pos, scene.tile_sheets@[si_].tile_size);
            let t = s2.layers@[li].tiles@[cellg];
            assert(placed_with(scene, s2, li, pos, sheet_path@, subtile, si_, t));
        }
    }

    /// Erases the tile at the cell `pos` snaps to on the grid of the sheet
    /// named `sheet_path`, removing it from the current layer and from the
    /// display cache together. An empty cell — and a missing scene or
    /// unknown sheet — is a no-op, not an error.
    pub fn erase(&mut self, pos: (i32, i32), sheet_path: &str)
        requires
            old(self).wf(),
            old(self).current_scene matches Some(scene) ==> forall|i: int|
                0 <= i < scene.tile_sheets@.len() && (#[trigger] scene.tile_sheets@[i]).path@
                    == sheet_path@ ==> snap_fits(pos, scene.tile_sheets@[i].tile_size),
        ensures
            final(self).wf(),
            same_project_state(*old(self), *final(self)),
            match old(self).current_scene {
                None => *final(self) == *old(self),
                Some(scene) => {
                    if exists|i: int|
                        0 <= i < scene.tile_sheets@.len()
                            && (#[trigger] scene.tile_sheets@[i]).path@ == sheet_path@ {
                        exists|i: int|
                            {
                                &&& 0 <= i < scene.tile_sheets@.len()
                                &&& (#[trigger] scene.tile_sheets@[i]).path@ == sheet_path@
                                &&& {
                                    let cell = snap_cell(pos, scene.tile_sheets@[i].tile_size);
                                    let l1 = scene.layers@[old(self).current_layer as int];
                                    if l1.tiles@.dom().contains(cell) {
                                        final(self).current_scene matches Some(s2)
                                            && scene_with_layer_tiles(
                                            scene,
                                            s2,
                                            old(self).current_layer as int,
                                            l1.tiles@.remove(cell),
                                        )
                                    } else {
                                        *final(self) == *old(self)
                                    }
                                }
                            }
                    } else {
                        *final(self) == *old(self)
                    }
                },
            },
    {
        let cur = self.current_layer;
        let (si, cell) = match &self.current_scene {
            Some(scene) => {
                match scene.find_tile_sheet(sheet_path) {
                    Some(si) => {
                        let ts = scene.tile_sheets[si].tile_size;
                        let cell = snap(pos, ts);
                        if !scene.layers[cur].tiles.contains(cell) {
                            // nothing at that cell: leave everything untouched
                            return ;
                        }
                        (si, cell)
                    },
                    None => {
                        return ;
                    },
                }
            },
            None => {
                return ;
            },
        };
        match self.current_scene.as_mut() {
            Some(scene) => {
                let layer = &mut scene.layers[cur];
                layer.tiles.remove(cell);
            },
            None => {},
        }
        let cm = &mut self.sprite_buffer[cur];
        cm.remove(cell);
        proof {
            let oldapp = *old(self);
            let scene = oldapp.current_scene->Some_0;
            let s2 = self.current_scene->Some_0;
            let li = cur as int;
            assert(s2.layers@[li].tiles@.dom() =~= self.sprite_buffer@[li]@.dom());
            assert forall|j: int| 0 <= j < s2.layers@.len() implies cache_synced(
                #[trigger] s2.layers@[j],
                self.sprite_buffer@[j],
            ) by {
                assert(cache_synced(scene.layers@[j], oldapp.sprite_buffer@[j]));
            }
        }
    }
    /// Flips the visibility flag of the given layer; the visibility of every
    /// display-cache sprite in that layer is mirrored.
    pub fn toggle_layer_visibility(&mut self, layer_idx: usize)
        requires
            old(self).wf(),
            old(self).current_scene matches Some(scene) && layer_idx < scene.layers@.len(),
        ensures
            final(self).wf(),
            same_project_state(*old(self), *final(self)),
            old(self).current_scene matches Some(s1) && final(self).current_scene matches Some(s2)
                && {
                &&& s2.name == s1.name && s2.path == s1.path && s2.tile_sheets == s1.tile_sheets
                &&& s2.layers@.len() == s1.layers@.len()
                &&& forall|j: int|
                    0 <= j < s1.layers@.len() && j != layer_idx ==> s2.layers@[j] == s1.layers@[j]
                &&& s2.layers@[layer_idx as int].visible == !s1.layers@[layer_idx as int].visible
                &&& s2.layers@[layer_idx as int].tiles == s1.layers@[layer_idx as int].tiles
                &&& s2.layers@[layer_idx as int].collision == s1.layers@[layer_idx as int].collision
                &&& s2.layers@[layer_idx as int].tile_sheet == s1.layers@[layer_idx as int].tile_sheet
                &&& s2.layers@[layer_idx as int].current_tile_item == s1.layers@[layer_idx as int].current_tile_item
            },
    {
        match self.current_scene.as_mut() {
            Some(scene) => {
                let layer = &mut scene.layers[layer_idx];
                layer.visible = !layer.visible;
            },
            None => {},
        }
        match &self.current_scene {
            Some(scene) => {
                let c = cache_of_layer(&scene.layers[layer_idx]);
                self.sprite_buffer.set(layer_idx, c);
            },
            None => {},
        }
        proof {
            let s1 = old(self).current_scene->Some_0;
            let s2 = self.current_scene->Some_0;
            assert forall|j: int| 0 <= j < s2.layers@.len() implies cache_synced(
                #[trigger] s2.layers@[j],
                self.sprite_buffer@[j],
            ) by {
                assert(cache_synced(s1.layers@[j], old(self).sprite_buffer@[j]));
            }
        }
    }

    /// Reassigns the given layer's tile-sheet to the scene sheet at
    /// `sheet_idx`. As a side effect every existing tile in the layer has
    /// its sheet reference rewritten to the new sheet — a bulk repaint that
    /// clears no placement — and the display cache mirrors it. Sub-tile
    /// coordinates are left unchanged even if out of range for the new
    /// sheet: stale references are the renderer's to clamp.
    pub fn set_layer_tile_sheet(&mut self, layer_idx: usize, sheet_idx: usize)
        requires
            old(self).wf(),
            old(self).current_scene matches Some(scene) && layer_idx < scene.layers@.len()
                && sheet_idx < scene.tile_sheets@.len(),
            sheet_idx <= i32::MAX,
        ensures
            final(self).wf(),
            final(self).config == old(self).config,
            final(self).current_project == old(self).current_project,
            final(self).current_layer == old(self).current_layer,
            old(self).current_scene matches Some(s1) && final(self).current_scene matches Some(s2)
                && {
                &&& final(self).current_tile_sheet@ == s1.tile_sheets@[sheet_idx as int].path@
                &&& s2.name == s1.name && s2.path == s1.path && s2.tile_sheets == s1.tile_sheets
                &&& s2.layers@.len() == s1.layers@.len()
                &&& forall|j: int|
                    0 <= j < s1.layers@.len() && j != layer_idx ==> s2.layers@[j] == s1.layers@[j]
                &&& {
                    let l1 = s1.layers@[layer_idx as int];
                    let l2 = s2.layers@[layer_idx as int];
                    &&& l2.visible == l1.visible
                    &&& l2.collision == l1.collision
                    &&& l2.tile_sheet@ == s1.tile_sheets@[sheet_idx as int].path@
                    &&& l2.current_tile_item == sheet_idx as i32
                    &&& l2.tiles@.dom() == l1.tiles@.dom()
                    &&& forall|k: (i32, i32)|
                        l1.tiles@.dom().contains(k) ==> {
                            &&& (#[trigger] l2.tiles@[k]).sheet == l2.tile_sheet
                            &&& l2.tiles@[k].sheet_id == l1.tiles@[k].sheet_id
                            &&& l2.tiles@[k].position == l1.tiles@[k].position
                        }
                }
            },
    {
        let path = match &self.current_scene {
            Some(scene) => scene.tile_sheets[sheet_idx].path.clone(),
            None => String::new(),
        };
        self.current_tile_sheet = path.clone();
        match self.current_scene.as_mut() {
            Some(scene) => {
                let layer = &mut scene.layers[layer_idx];
                let ghost e1 = layer.tiles.entries@;
                let ghost vis0 = layer.visible;
                let ghost col0 = layer.collision;
                layer.tile_sheet = path.clone();
                layer.current_tile_item = sheet_idx as i32;
                let ghost sheet0 = layer.tile_sheet;
                let n = layer.tiles.entries.len();
                for i in 0..n
                    invariant
                        layer.visible == vis0,
                        layer.collision == col0,
                        layer.tile_sheet == sheet0,
                        layer.current_tile_item == sheet_idx as i32,
                        sheet_idx <= i32::MAX,
                        n == layer.tiles.entries@.len() == e1.len(),
                        forall|j: int|
                            0 <= j < e1.len() ==> (#[trigger] layer.tiles.entries@[j]).0 == e1[j].0,
                        forall|j: int|
                            0 <= j < i ==> (#[trigger] layer.tiles.entries@[j]).1 == (Tile {
                                sheet: path,
                                ..e1[j].1
                            }),
                        forall|j: int| i <= j < e1.len() ==> (#[trigger] layer.tiles.entries@[j]).1 == e1[j].1,
                {
                    let repainted = path.clone();
                    let e = &mut layer.tiles.entries[i];
                    e.1.sheet = repainted;
                }
                proof {
                    let e2 = layer.tiles.entries@;
                    assert(crate::cellmap::cells_distinct(e2)) by {
                        assert(forall|p: int, q: int|
                            0 <= p < q < e2.len() ==> e1[p].0 != e1[q].0);
                    }
                    assert forall|k: (i32, i32)|
                        cell_map_of(e1).dom().contains(k) implies #[trigger] cell_map_of(
                        e2,
                    ).dom().contains(k) by {
                        lemma_cell_map_contains(e1, k);
                        lemma_cell_map_contains(e2, k);
                        let j = choose|j: int| 0 <= j < e1.len() && e1[j].0 == k;
                        assert(e2[j].0 == k);
                    }
                    assert forall|k: (i32, i32)|
                        cell_map_of(e2).dom().contains(k) implies #[trigger] cell_map_of(
                        e1,
                    ).dom().contains(k) by {
                        lemma_cell_map_contains(e1, k);
                        lemma_cell_map_contains(e2, k);
                        let j = choose|j: int| 0 <= j < e2.len() && e2[j].0 == k;
                        assert(e1[j].0 == k);
                    }
                    assert(cell_map_of(e2).dom() =~= cell_map_of(e1).dom());
                    assert forall|k: (i32, i32)| cell_map_of(e1).dom().contains(k) implies {
                        &&& (#[trigger] cell_map_of(e2)[k]).sheet == path
                        &&& cell_map_of(e2)[k].sheet_id == cell_map_of(e1)[k].sheet_id
                        &&& cell_map_of(e2)[k].position == cell_map_of(e1)[k].position
                    } by {
                        lemma_cell_map_contains(e1, k);
                        let j = choose|j: int| 0 <= j < e1.len() && e1[j].0 == k;
                        lemma_cell_map_index(e1, j);
                        lemma_cell_map_index(e2, j);
                    }
                }
            },
            None => {},
        }
        match &self.current_scene {
            Some(scene) => {
                let c = cache_of_layer(&scene.layers[layer_idx]);
                self.sprite_buffer.set(layer_idx, c);
            },
            None => {},
        }
        proof {
            let s1 = old(self).current_scene->Some_0;
            let s2 = self.current_scene->Some_0;
            assert forall|j: int| 0 <= j < s2.layers@.len() implies cache_synced(
                #[trigger] s2.layers@[j],
                self.sprite_buffer@[j],
            ) by {
                assert(cache_synced(s1.layers@[j], old(self).sprite_buffer@[j]));
            }
        }
    }

    /// Appends a new empty layer, inheriting the currently selected
    /// tile-sheet as its default, with an empty display cache beside it.
    pub fn add_layer(&mut self)
        requires
            old(self).wf(),
            old(self).current_scene is Some,
        ensures
            final(self).wf(),
            same_project_state(*old(self), *final(self)),
            old(self).current_scene matches Some(s1) && final(self).current_scene matches Some(s2)
                && {
                &&& s2.name == s1.name && s2.path == s1.path && s2.tile_sheets == s1.tile_sheets
                &&& s2.layers@.len() == s1.layers@.len() + 1
                &&& forall|j: int| 0 <= j < s1.layers@.len() ==> s2.layers@[j] == s1.layers@[j]
                &&& s2.layers@.last().tiles@ == Map::<(i32, i32), Tile>::empty()
                &&& s2.layers@.last().visible
                &&& !s2.layers@.last().collision
                &&& s2.layers@.last().tile_sheet == old(self).current_tile_sheet
                &&& s2.layers@.last().current_tile_item == 0
            },
    {
        let mut new_layer = Layer::new();
        new_layer.tile_sheet = self.current_tile_sheet.clone();
        match self.current_scene.as_mut() {
            Some(scene) => {
                scene.layers.push(new_layer);
            },
            None => {},
        }
        self.sprite_buffer.push(CellMap::new());
        proof {
            let s1 = old(self).current_scene->Some_0;
            let s2 = self.current_scene->Some_0;
            assert(s2.layers@.last().tiles@.dom() =~= self.sprite_buffer@.last()@.dom());
            assert forall|j: int| 0 <= j < s2.layers@.len() implies cache_synced(
                #[trigger] s2.layers@[j],
                self.sprite_buffer@[j],
            ) by {
                if j < s1.layers@.len() {
                    assert(cache_synced(s1.layers@[j], old(self).sprite_buffer@[j]));
                }
            }
        }
    }

    /// Makes the given layer current and adopts its tile-sheet for new
    /// placements.
    pub fn select_layer(&mut self, layer_idx: usize)
        requires
            old(self).wf(),
            old(self).current_scene matches Some(scene) && layer_idx < scene.layers@.len(),
        ensures
            final(self).wf(),
            final(self).config == old(self).config,
            final(self).current_project == old(self).current_project,
            final(self).current_scene == old(self).current_scene,
            final(self).sprite_buffer == old(self).sprite_buffer,
            final(self).current_layer == layer_idx,
            old(self).current_scene matches Some(s1) && final(self).current_tile_sheet
                == s1.layers@[layer_idx as int].tile_sheet,
    {
        self.current_layer = layer_idx;
        let ts = match &self.current_scene {
            Some(scene) => scene.layers[layer_idx].tile_sheet.clone(),
            None => String::new(),
        };
        self.current_tile_sheet = ts;
    }

    /// Opens a fresh scene with the given name and storage path, seeded with
    /// one default layer (visible, non-colliding, no assigned tile-sheet).
    pub fn new_scene(&mut self, name: String, path: String)
        requires
            old(self).wf(),
        ensures
            final(self).wf(),
            final(self).config == old(self).config,
            final(self).current_project == old(self).current_project,
            final(self).current_tile_sheet == old(self).current_tile_sheet,
            final(self).current_layer == 0,
            final(self).current_scene matches Some(s) && {
                &&& s.name == name
                &&& s.path == path
                &&& s.tile_sheets@.len() == 0
                &&& s.layers@.len() == 1
                &&& s.layers@[0].tiles@ == Map::<(i32, i32), Tile>::empty()
                &&& s.layers@[0].visible
                &&& !s.layers@[0].collision
                &&& s.layers@[0].tile_sheet@ == Seq::<char>::empty()
                &&& s.layers@[0].current_tile_item == 0
            },
    {
        let mut s = Scene::new(name, path);
        s.layers.push(Layer::new());
        self.current_scene = Some(s);
        self.current_layer = 0;
        let mut buffer: Vec<CellMap<SpriteInstance>> = Vec::new();
        buffer.push(CellMap::new());
        self.sprite_buffer = buffer;
        proof {
            let s2 = self.current_scene->Some_0;
            assert(s2.layers@[0].tiles@.dom() =~= self.sprite_buffer@[0]@.dom());
        }
    }

    /// Opens a scene from its stored text. The document must parse in full
    /// to a well-formed scene with at least one layer; then it becomes the
    /// current scene, its display caches are rebuilt from its tile maps,
    /// the first layer is selected and its tile-sheet adopted, and the call
    /// returns true. Anything else leaves the editor unchanged (the caller
    /// keeps or re-creates a default): absence of a readable scene is not
    /// an error.
    pub fn open_scene(&mut self, text: &str) -> (r: bool)
        requires
            old(self).wf(),
        ensures
            final(self).wf(),
            final(self).config == old(self).config,
            final(self).current_project == old(self).current_project,
            if r {
                crate::codec::p_scene(text@, 0) matches Some((v, e)) && e == text@.len()
                    && crate::codec::scene_v_wf(v) && v.layers.len() > 0 && (
                final(self).current_scene matches Some(sc) && sc@ == v && final(self).current_layer
                    == 0 && final(self).current_tile_sheet@ == v.layers[0].tile_sheet)
            } else {
                *final(self) == *old(self) && match crate::codec::p_scene(text@, 0) {
                    Some((v, e)) => e != text@.len() || !crate::codec::scene_v_wf(v)
                        || v.layers.len() == 0,
                    None => true,
                }
            },
    {
        let n = text.unicode_len();
        let (scene, end) = match crate::codec::parse_scene(text, 0) {
            Some(x) => x,
            None => {
                return false;
            },
        };
        if end != n {
            return false;
        }
        proof {
            crate::codec::lemma_scene_wf_view(scene);
        }
        if scene.layers.len() == 0 {
            return false;
        }
        if !scene.is_wf() {
            return false;
        }
        let nl = scene.layers.len();
        let mut buffer: Vec<CellMap<SpriteInstance>> = Vec::new();
        for i in 0..nl
            invariant
                nl == scene.layers@.len(),
                scene.wf(),
                buffer@.len() == i,
                forall|j: int|
                    0 <= j < i ==> cache_synced(#[trigger] scene.layers@[j], buffer@[j]),
        {
            buffer.push(cache_of_layer(&scene.layers[i]));
        }
        self.current_tile_sheet = scene.layers[0].tile_sheet.clone();
        self.current_layer = 0;
        self.sprite_buffer = buffer;
        self.current_scene = Some(scene);
        true
    }

    /// Loads the project configuration from its stored text. The document
    /// must parse in full to a well-formed registry; anything else — a
    /// missing or malformed document — falls back to a freshly-initialized
    /// default configuration and returns false, for the caller to persist.
    pub fn load_config(&mut self, text: &str) -> (r: bool)
        requires
            old(self).wf(),
        ensures
            final(self).wf(),
            final(self).current_project == old(self).current_project,
            final(self).current_tile_sheet == old(self).current_tile_sheet,
            final(self).current_scene == old(self).current_scene,
            final(self).current_layer == old(self).current_layer,
            final(self).sprite_buffer == old(self).sprite_buffer,
            if r {
                crate::codec::p_config(text@, 0) matches Some((v, e)) && e == text@.len()
                    && final(self).config@ == v && crate::codec::registry_v_wf(v.assets)
            } else {
                final(self).config.assets@.len() == 0 && final(self).config.window_size == (
                800u32,
                600u32,
                ) && match crate::codec::p_config(text@, 0) {
                    Some((v, e)) => e != text@.len() || !crate::codec::registry_v_wf(v.assets),
                    None => true,
                }
            },
    {
        let n = text.unicode_len();
        let parsed = match crate::codec::parse_config(text, 0) {
            Some((c, end)) => {
                proof {
                    crate::codec::lemma_config_wf_view(c);
                }
                if end == n && c.is_wf() {
                    Some(c)
                } else {
                    None
                }
            },
            None => None,
        };
        match parsed {
            Some(c) => {
                self.config = c;
                true
            },
            None => {
                self.config = Config::new();
                false
            },
        }
    }

    /// Imports one file as an external asset. The kind is inferred from the
    /// file's extension; an unsupported extension skips the file silently
    /// (`Ok(None)`), so callers must not assume every import produces an
    /// entry. A Script or Font extension fails with `InvalidStrategy`: those
    /// kinds must be embedded. The rest of a multi-file batch can go on
    /// after either outcome.
    pub fn add_external_asset(&mut self, absolute_path: &str) -> (r: Result<
        Option<Asset>,
        crate::EditorError,
    >)
        requires
            old(self).wf(),
        ensures
            final(self).wf(),
            unchanged_but_config(*old(self), *final(self)),
            import_outcome(
                *old(self),
                *final(self),
                r,
                absolute_path@,
                crate::assets::LoadType::External,
            ),
    {
        let ext = match crate::assets::extension(absolute_path) {
            Some(e) => e,
            None => {
                return Ok(None);
            },
        };
        let kind = match crate::assets::asset_kind_for_extension(ext.as_str()) {
            Some(k) => k,
            None => {
                return Ok(None);
            },
        };
        match self.config.register(
            absolute_path,
            self.current_project.as_str(),
            kind,
            crate::assets::LoadType::External,
        ) {
            Ok(a) => Ok(Some(a)),
            Err(e) => Err(e),
        }
    }

    /// Imports one file as an embedded asset. The kind is inferred from the
    /// file's extension; an unsupported extension skips the file silently
    /// (`Ok(None)`). A Wren source becomes a Script and receives the next
    /// unused load order.
    pub fn add_embedded_asset(&mut self, absolute_path: &str) -> (r: Result<
        Option<Asset>,
        crate::EditorError,
    >)
        requires
            old(self).wf(),
        ensures
            final(self).wf(),
            unchanged_but_config(*old(self), *final(self)),
            import_outcome(
                *old(self),
                *final(self),
                r,
                absolute_path@,
                crate::assets::LoadType::Emdedded,
            ),
    {
        let ext = match crate::assets::extension(absolute_path) {
            Some(e) => e,
            None => {
                return Ok(None);
            },
        };
        let kind = match crate::assets::asset_kind_for_extension(ext.as_str()) {
            Some(k) => k,
            None => {
                return Ok(None);
            },
        };
        match self.config.register(
            absolute_path,
            self.current_project.as_str(),
            kind,
            crate::assets::LoadType::Emdedded,
        ) {
            Ok(a) => Ok(Some(a)),
            Err(e) => Err(e),
        }
    }

    /// Adds an imported texture to the open scene as a tile-sheet with the
    /// given pixel size, cut into `tile_count` cells per axis. A missing
    /// scene or a tile count without a whole pixel per cell is a no-op; a
    /// sheet already present under the same path fails with
    /// `DuplicateSheet`.
    pub fn add_texture(
        &mut self,
        absolute_path: String,
        path: String,
        sheet_size: (u32, u32),
        tile_count: (u32, u32),
    ) -> (r: Result<(), crate::EditorError>)
        requires
            old(self).wf(),
        ensures
            final(self).wf(),
            same_project_state(*old(self), *final(self)),
            final(self).sprite_buffer == old(self).sprite_buffer,
            match old(self).current_scene {
                None => *final(self) == *old(self) && r is Ok,
                Some(s1) => {
                    if !(0 < tile_count.0 <= sheet_size.0 && 0 < tile_count.1 <= sheet_size.1) {
                        *final(self) == *old(self) && r is Ok
                    } else if exists|i: int|
                        0 <= i < s1.tile_sheets@.len() && (#[trigger] s1.tile_sheets@[i]).path@
                            == path@ {
                        *final(self) == *old(self) && r == Result::<(), crate::EditorError>::Err(
                            crate::EditorError::DuplicateSheet,
                        )
                    } else {
                        &&& r is Ok
                        &&& final(self).current_scene matches Some(s2)
                        &&& s2.name == s1.name && s2.path == s1.path && s2.layers == s1.layers
                        &&& s2.tile_sheets@.len() == s1.tile_sheets@.len() + 1
                        &&& forall|j: int|
                            0 <= j < s1.tile_sheets@.len() ==> s2.tile_sheets@[j]
                                == s1.tile_sheets@[j]
                        &&& s2.tile_sheets@.last().filename@ == crate::assets::file_name_of(path@)
                        &&& s2.tile_sheets@.last().path == path
                        &&& s2.tile_sheets@.last().absolute_path == absolute_path
                        &&& s2.tile_sheets@.last().sheet_size == sheet_size
                        &&& s2.tile_sheets@.last().tile_size.0 == sheet_size.0 as int
                            / tile_count.0 as int
                        &&& s2.tile_sheets@.last().tile_size.1 == sheet_size.1 as int
                            / tile_count.1 as int
                    }
                },
            },
    {
        if self.current_scene.is_none() {
            return Ok(());
        }
        let filename = crate::assets::file_name(path.as_str());
        let sheet = match crate::scene::TileSheet::new(
            filename,
            path,
            absolute_path,
            sheet_size,
            tile_count,
        ) {
            Some(s) => s,
            None => {
                return Ok(());
            },
        };
        let r = match self.current_scene.as_mut() {
            Some(scene) => scene.add_tile_sheet(sheet),
            None => Ok(()),
        };
        proof {
            let s1 = old(self).current_scene->Some_0;
            let s2 = self.current_scene->Some_0;
            assert forall|j: int| 0 <= j < s2.layers@.len() implies cache_synced(
                #[trigger] s2.layers@[j],
                self.sprite_buffer@[j],
            ) by {
                assert(cache_synced(s1.layers@[j], old(self).sprite_buffer@[j]));
            }
        }
        r
    }
}

/// Every field of the editor but the configuration's asset list is kept.
pub open spec fn unchanged_but_config(a: App, b: App) -> bool {
    &&& b.config.window_size == a.config.window_size
    &&& b.current_project == a.current_project
    &&& b.current_tile_sheet == a.current_tile_sheet
    &&& b.current_scene == a.current_scene
    &&& b.current_layer == a.current_layer
    &&& b.sprite_buffer == a.sprite_buffer
}

/// What one import yields: skipped for an unsupported extension, otherwise
/// exactly what registering the inferred kind under the given strategy
/// yields.
pub open spec fn import_outcome(
    pre: App,
    post: App,
    r: Result<Option<crate::assets::Asset>, crate::EditorError>,
    absolute_path: Seq<char>,
    load_type: crate::assets::LoadType,
) -> bool {
    match r {
        Ok(None) => crate::assets::kind_for_path(absolute_path) is None && post == pre,
        Ok(Some(a)) => crate::assets::kind_for_path(absolute_path) matches Some(kind)
            && crate::assets::register_ok(
            pre.config.assets@,
            post.config.assets@,
            a,
            absolute_path,
            pre.current_project@,
            kind,
            load_type,
        ),
        Err(crate::EditorError::InvalidStrategy) => crate::assets::kind_for_path(absolute_path)
            matches Some(kind) && ((kind is Script || kind is Font) && load_type is External)
            && post == pre,
        Err(crate::EditorError::PathResolution) => crate::assets::kind_for_path(absolute_path)
            matches Some(kind) && !((kind is Script || kind is Font) && load_type is External)
            && (match crate::assets::path_diff(
            absolute_path,
            crate::assets::base_dir_of(load_type, pre.current_project@),
        ) {
            None => true,
            Some(rel) => crate::assets::escapes_base(rel),
        }) && post == pre,
        Err(_) => false,
    }
}

/// LAW: placement is idempotent. Placing the same tile at the same cell a
/// second time yields the same single tile at that cell as placing it once —
/// the tile map, and with it the display cache it projects to, is unchanged
/// by the repetition, so no duplicate entry can arise.
pub proof fn lemma_place_idempotent(m: Map<(i32, i32), Tile>, cell: (i32, i32), t: Tile)
    ensures
        m.insert(cell, t).insert(cell, t) == m.insert(cell, t),
{
    assert(m.insert(cell, t).insert(cell, t) =~= m.insert(cell, t));
}

/// LAW: erase undoes place. Erasing the cell a tile was just placed at
/// removes it — from the tile map and, through [`cache_synced`], from the
/// display cache alike — restoring the map exactly when the cell was empty
/// before the placement.
pub proof fn lemma_erase_after_place(m: Map<(i32, i32), Tile>, cell: (i32, i32), t: Tile)
    ensures
        m.insert(cell, t).remove(cell) == m.remove(cell),
        !m.dom().contains(cell) ==> m.insert(cell, t).remove(cell) == m,
{
    assert(m.insert(cell, t).remove(cell) =~= m.remove(cell));
    if !m.dom().contains(cell) {
        assert(m.remove(cell) =~= m);
    }
}

/// The outcome of a successful placement: sheet `i` is the one named, `t`
/// is the placed tile — cut at `subtile`, positioned at the snapped cell —
/// and `s2` is `s1` with only layer `li`'s cell upserted with `t`.
pub open spec fn placed_with(
    s1: Scene,
    s2: Scene,
    li: int,
    pos: (i32, i32),
    sheet_path: Seq<char>,
    subtile: (u32, u32),
    i: int,
    t: Tile,
) -> bool {
    &&& 0 <= i < s1.tile_sheets@.len()
    &&& s1.tile_sheets@[i].path@ == sheet_path
    &&& t.sheet@ == sheet_path
    &&& t.sheet_id == subtile
    &&& t.position == snap_cell(pos, s1.tile_sheets@[i].tile_size)
    &&& scene_with_layer_tiles(
        s1,
        s2,
        li,
        s1.layers@[li].tiles@.insert(snap_cell(pos, s1.tile_sheets@[i].tile_size), t),
    )
}

/// Everything of the editor but the scene and its display cache is kept.
pub open spec fn same_project_state(a: App, b: App) -> bool {
    &&& b.config == a.config
    &&& b.current_project == a.current_project
    &&& b.current_tile_sheet == a.current_tile_sheet
    &&& b.current_layer == a.current_layer
}

/// `s2` is `s1` with layer `li`'s tile map replaced by `m`; every other
/// layer and every other field of the layer and the scene is kept.
pub open spec fn scene_with_layer_tiles(s1: Scene, s2: Scene, li: int, m: Map<(i32, i32), Tile>) -> bool {
    &&& s2.name == s1.name && s2.path == s1.path && s2.tile_sheets == s1.tile_sheets
    &&& s2.layers@.len() == s1.layers@.len()
    &&& 0 <= li < s1.layers@.len()
    &&& forall|j: int| 0 <= j < s1.layers@.len() && j != li ==> s2.layers@[j] == s1.layers@[j]
    &&& s2.layers@[li].visible == s1.layers@[li].visible
    &&& s2.layers@[li].collision == s1.layers@[li].collision
    &&& s2.layers@[li].tile_sheet == s1.layers@[li].tile_sheet
    &&& s2.layers@[li].current_tile_item == s1.layers@[li].current_tile_item
    &&& s2.layers@[li].tiles@ == m
}

} // verus!
