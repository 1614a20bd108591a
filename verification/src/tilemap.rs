//! ASCII tile maps: each character of a map row that names a block kind
//! puts one cube of that kind on the grid.
use vstd::prelude::*;
use vstd::string::StringSliceAdditionalSpecFns;

verus! {

broadcast use vstd::string::axiom_spec_iter;

/// The kinds of cube a map can place.
#[derive(Debug, Clone, Copy, PartialEq, Eq, Structural)]
pub enum Block {
    /// `G`
    Grass,
    /// `D`
    Dirt,
    /// `S`
    Sand,
    /// `W`
    Water,
    /// `M` (wood)
    Wood,
    /// `L`
    Leaves,
}

/// A cube placed by a tile map: its grid column `x`, its grid row `z` and its kind.
#[derive(Debug, Clone, Copy, PartialEq, Eq, Structural)]
pub struct Tile {
    pub x: i32,
    pub z: i32,
    pub block: Block,
}

/// A cube of the diorama: its grid position and its kind.
#[derive(Debug, Clone, Copy, PartialEq, Eq, Structural)]
pub struct Voxel {
    pub x: i32,
    pub y: i32,
    pub z: i32,
    pub block: Block,
}

/// The block kind that a map character names; every other character is empty ground.
pub open spec fn spec_block_of(c: char) -> Option<Block> {
    if c == 'G' {
        Some(Block::Grass)
    } else if c == 'D' {
        Some(Block::Dirt)
    } else if c == 'S' {
        Some(Block::Sand)
    } else if c == 'W' {
        Some(Block::Water)
    } else if c == 'M' {
        Some(Block::Wood)
    } else if c == 'L' {
        Some(Block::Leaves)
    } else {
        None
    }
}

/// The block kind that a map character names.
#[verifier::when_used_as_spec(spec_block_of)]
pub fn block_of(c: char) -> (r: Option<Block>)
    ensures
        r == spec_block_of(c),
{
    match c {
        'G' => Some(Block::Grass),
        'D' => Some(Block::Dirt),
        'S' => Some(Block::Sand),
        'W' => Some(Block::Water),
        'M' => Some(Block::Wood),
        'L' => Some(Block::Leaves),
        _ => None,
    }
}

pub open spec fn tile_view(t: Tile) -> (int, int, Block) {
    (t.x as int, t.z as int, t.block)
}

pub open spec fn voxel_view(v: Voxel) -> (int, int, int, Block) {
    (v.x as int, v.y as int, v.z as int, v.block)
}

/// The cubes that one map row places, left to right, for a row at grid row `z`
/// whose first character stands at grid column `ox`.
pub open spec fn row_tiles(ox: int, z: int, row: Seq<char>) -> Seq<(int, int, Block)>
    decreases row.len(),
{
    if row.len() == 0 {
        Seq::empty()
    } else {
        let before = row_tiles(ox, z, row.drop_last());
        match spec_block_of(row.last()) {
            Some(b) => before.push((ox + row.len() - 1, z, b)),
            None => before,
        }
    }
}

/// The cubes that a map places, row by row from the top, with its top-left
/// character at grid column `ox`, grid row `oz`.
pub open spec fn map_tiles(ox: int, oz: int, rows: Seq<Seq<char>>) -> Seq<(int, int, Block)>
    decreases rows.len(),
{
    if rows.len() == 0 {
        Seq::empty()
    } else {
        map_tiles(ox, oz, rows.drop_last()) + row_tiles(ox, oz + rows.len() - 1, rows.last())
    }
}

/// The characters of each row of a map.
pub open spec fn map_rows(map: Seq<&str>) -> Seq<Seq<char>> {
    map.map_values(|s: &str| s@)
}

/// Every grid coordinate that a map reaches fits in an `i32`.
pub open spec fn map_fits(ox: int, oz: int, map: Seq<&str>) -> bool {
    &&& map.len() <= i32::MAX + 1
    &&& oz + map.len() <= i32::MAX + 1
    &&& forall|i: int|
        0 <= i < map.len() ==> {
            &&& (#[trigger] map[i])@.len() <= i32::MAX + 1
            &&& ox + map[i]@.len() <= i32::MAX + 1
        }
}

/// Places the cubes of a tile map whose top-left character stands at grid
/// column `origin_x`, grid row `origin_z`: one cube for each character that
/// names a block kind, at its column and row.
pub fn place_tilemap(origin_x: i32, origin_z: i32, map: &[&str]) -> (r: Vec<Tile>)
    requires
        map_fits(origin_x as int, origin_z as int, map@),
    ensures
        r@.map_values(|t: Tile| tile_view(t)) == map_tiles(
            origin_x as int,
            origin_z as int,
            map_rows(map@),
        ),
{
    let mut out: Vec<Tile> = Vec::new();
    let ghost rows = map_rows(map@);
    let mut rz: usize = 0;
    while rz < map.len()
        invariant
            rz <= map.len(),
            rows == map_rows(map@),
            map_fits(origin_x as int, origin_z as int, map@),
            out@.map_values(|t: Tile| tile_view(t)) == map_tiles(
                origin_x as int,
                origin_z as int,
                rows.take(rz as int),
            ),
        decreases map.len() - rz,
    {
        let row: &str = map[rz];
        let gz: i32 = origin_z + rz as i32;
        let ghost before = out@.map_values(|t: Tile| tile_view(t));
        let mut rx: usize = 0;
        assert(row@ == rows[rz as int]);
        assert(row@.len() <= i32::MAX + 1 && origin_x + row@.len() <= i32::MAX + 1) by {
            assert(map@[rz as int] == row);
        }
        for ch in it: row.chars()
            invariant
                rx == it.index(),
                it.seq() == row@,
                row@.len() <= i32::MAX + 1,
                origin_x + row@.len() <= i32::MAX + 1,
                gz == origin_z + rz,
                out@.map_values(|t: Tile| tile_view(t)) == before + row_tiles(
                    origin_x as int,
                    gz as int,
                    row@.take(rx as int),
                ),
        {
            assert(row@.take(rx + 1).drop_last() =~= row@.take(rx as int));
            assert(row@.take(rx + 1).last() == ch);
            let ghost prev = out@;
            let ghost cur = row@.take(rx + 1);
            assert(rx < row@.len());
            let gx: i32 = origin_x + rx as i32;
            assert(gx == origin_x + rx);
            assert(row_tiles(origin_x as int, gz as int, cur) == match spec_block_of(cur.last()) {
                Some(b) => row_tiles(origin_x as int, gz as int, cur.drop_last()).push(
                    (origin_x + cur.len() - 1, gz as int, b),
                ),
                None => row_tiles(origin_x as int, gz as int, cur.drop_last()),
            });
            match block_of(ch) {
                Some(b) => {
                    out.push(Tile { x: gx, z: gz, block: b });
                    assert(out@.map_values(|t: Tile| tile_view(t)) =~= prev.map_values(
                        |t: Tile| tile_view(t),
                    ).push((gx as int, gz as int, b)));
                },
                None => {},
            }
            assert(out@.map_values(|t: Tile| tile_view(t)) =~= before + row_tiles(
                origin_x as int,
                gz as int,
                row@.take(rx + 1),
            ));
            rx = rx + 1;
        }
        assert(row@.take(rx as int) =~= row@);
        assert(rows.take(rz + 1).drop_last() =~= rows.take(rz as int));
        assert(rows.take(rz + 1).last() == row@);
        rz = rz + 1;
    }
    assert(rows.take(rz as int) =~= rows);
    out
}

/// The height at which the diorama stands a cube of kind `b` taken from the
/// map of level `level` (level 0 is the lowest map): grass, sand and water at
/// height `level - 3`; wood and leaves not on level 0, at height 3 on level 1
/// and at `level - 3` above it; dirt never.
pub open spec fn spec_layer_height(level: int, b: Block) -> Option<int> {
    match b {
        Block::Grass | Block::Sand | Block::Water => Some(level - 3),
        Block::Wood | Block::Leaves => if level == 0 {
            None
        } else if level == 1 {
            Some(3)
        } else {
            Some(level - 3)
        },
        Block::Dirt => None,
    }
}

/// The height at which the diorama stands a cube of kind `b` from the map of level `level`.
pub fn layer_height(level: usize, b: Block) -> (r: Option<i32>)
    requires
        level <= i32::MAX,
    ensures
        r == (match spec_layer_height(level as int, b) {
            Some(y) => Some(y as i32),
            None => None,
        }),
        r matches Some(y) ==> spec_layer_height(level as int, b) == Some(y as int),
        (b == Block::Grass || b == Block::Sand || b == Block::Water) ==> r == Some((level - 3) as i32),
        (b == Block::Wood || b == Block::Leaves) ==> r == (if level == 0 {
            None
        } else if level == 1 {
            Some(3i32)
        } else {
            Some((level - 3) as i32)
        }),
        b == Block::Dirt ==> r is None,
{
    let l = level as i32;
    match b {
        Block::Grass | Block::Sand | Block::Water => Some(l - 3),
        Block::Wood | Block::Leaves => if level == 0 {
            None
        } else if level == 1 {
            Some(3)
        } else {
            Some(l - 3)
        },
        Block::Dirt => None,
    }
}

/// The cubes of a layer: each tile whose kind has a height at this level, raised to it.
pub open spec fn raise(level: int, tiles: Seq<(int, int, Block)>) -> Seq<(int, int, int, Block)>
    decreases tiles.len(),
{
    if tiles.len() == 0 {
        Seq::empty()
    } else {
        let before = raise(level, tiles.drop_last());
        let t = tiles.last();
        match spec_layer_height(level, t.2) {
            Some(y) => before.push((t.0, y, t.1, t.2)),
            None => before,
        }
    }
}

/// Grid column of the first character of each row of a diorama layer: the
/// map is centred on column 0 by half the length in bytes of its first row.
pub open spec fn layer_origin_x(map: Seq<&str>) -> int {
    -((map[0].spec_bytes().len() / 2) as int)
}

/// Grid row of the first map row of a diorama layer: centred on row 0, then
/// moved 5 rows back.
pub open spec fn layer_origin_z(map: Seq<&str>) -> int {
    -((map.len() / 2) as int) - 5
}

/// The cubes that the map of level `level` adds to the diorama.
pub open spec fn layer_voxels(level: int, map: Seq<&str>) -> Seq<(int, int, int, Block)> {
    raise(level, map_tiles(layer_origin_x(map), layer_origin_z(map), map_rows(map)))
}

/// A layer map has a first row, and its sizes fit in an `i32`.
pub open spec fn layer_fits(map: Seq<&str>) -> bool {
    &&& 0 < map.len() <= i32::MAX
    &&& map[0].spec_bytes().len() <= i32::MAX
    &&& forall|i: int| 0 <= i < map.len() ==> (#[trigger] map[i])@.len() <= i32::MAX
}

/// The cubes that the map of level `level` adds to the diorama, in map order.
pub fn diorama_layer(map: &[&str], level: usize) -> (r: Vec<Voxel>)
    requires
        layer_fits(map@),
        level <= i32::MAX,
    ensures
        r@.map_values(|v: Voxel| voxel_view(v)) == layer_voxels(level as int, map@),
{
    let half_w: usize = map[0].len() / 2;
    let half_h: usize = map.len() / 2;
    let ox: i32 = -(half_w as i32);
    let oz: i32 = -(half_h as i32) - 5;
    assert(ox == layer_origin_x(map@));
    assert(oz == layer_origin_z(map@));
    assert(map_fits(ox as int, oz as int, map@));
    let tiles = place_tilemap(ox, oz, map);
    let ghost tv = tiles@.map_values(|t: Tile| tile_view(t));
    let mut out: Vec<Voxel> = Vec::new();
    let mut i: usize = 0;
    while i < tiles.len()
        invariant
            i <= tiles.len(),
            level <= i32::MAX,
            tv == tiles@.map_values(|t: Tile| tile_view(t)),
            out@.map_values(|v: Voxel| voxel_view(v)) == raise(level as int, tv.take(i as int)),
        decreases tiles.len() - i,
    {
        let t = tiles[i];
        let ghost prev = out@;
        assert(tv.take(i + 1).drop_last() =~= tv.take(i as int));
        assert(tv.take(i + 1).last() == tile_view(t));
        match layer_height(level, t.block) {
            Some(y) => {
                out.push(Voxel { x: t.x, y, z: t.z, block: t.block });
                assert(out@.map_values(|v: Voxel| voxel_view(v)) =~= prev.map_values(
                    |v: Voxel| voxel_view(v),
                ).push((t.x as int, y as int, t.z as int, t.block)));
            },
            None => {},
        }
        i = i + 1;
    }
    assert(tv.take(i as int) =~= tv);
    out
}

/// The cubes of a whole diorama: the layers of its maps, lowest level first.
pub open spec fn diorama_voxels(maps: Seq<Seq<&str>>) -> Seq<(int, int, int, Block)>
    decreases maps.len(),
{
    if maps.len() == 0 {
        Seq::empty()
    } else {
        diorama_voxels(maps.drop_last()) + layer_voxels(maps.len() - 1, maps.last())
    }
}

/// The maps of each level of a diorama.
pub open spec fn diorama_maps<'a>(maps: Seq<&'a [&'a str]>) -> Seq<Seq<&'a str>> {
    maps.map_values(|m: &[&str]| m@)
}

/// Builds the diorama from its maps, `maps[0]` being the lowest level.
pub fn diorama(maps: &[&[&str]]) -> (r: Vec<Voxel>)
    requires
        maps.len() <= i32::MAX + 1,
        forall|k: int| 0 <= k < maps.len() ==> layer_fits((#[trigger] maps@[k])@),
    ensures
        r@.map_values(|v: Voxel| voxel_view(v)) == diorama_voxels(diorama_maps(maps@)),
        r@.map_values(|v: Voxel| voxel_view(v)) == diorama_layers(diorama_maps(maps@)).flatten(),
{
    let ghost all = diorama_maps(maps@);
    let mut out: Vec<Voxel> = Vec::new();
    let mut k: usize = 0;
    while k < maps.len()
        invariant
            k <= maps.len() <= i32::MAX + 1,
            all == diorama_maps(maps@),
            forall|j: int| 0 <= j < maps.len() ==> layer_fits((#[trigger] maps@[j])@),
            out@.map_values(|v: Voxel| voxel_view(v)) == diorama_voxels(all.take(k as int)),
        decreases maps.len() - k,
    {
        let map: &[&str] = maps[k];
        assert(layer_fits(map@)) by {
            assert(maps@[k as int] == map);
        }
        let layer = diorama_layer(map, k);
        let ghost prev = out@;
        let mut i: usize = 0;
        while i < layer.len()
            invariant
                i <= layer.len(),
                out@ =~= prev + layer@.take(i as int),
            decreases layer.len() - i,
        {
            out.push(layer[i]);
            i = i + 1;
        }
        assert(layer@.take(i as int) =~= layer@);
        assert(all.take(k + 1).drop_last() =~= all.take(k as int));
        assert(all.take(k + 1).last() == map@);
        assert(out@.map_values(|v: Voxel| voxel_view(v)) =~= prev.map_values(
            |v: Voxel| voxel_view(v),
        ) + layer@.map_values(|v: Voxel| voxel_view(v)));
        k = k + 1;
    }
    assert(all.take(k as int) =~= all);
    proof {
        lemma_diorama_concat(all);
    }
    out
}

/// Tile `t` stands on a character of `rows` (placed with its top-left at
/// `ox`, `oz`) that names the tile's kind.
pub open spec fn tile_on_letter(ox: int, oz: int, rows: Seq<Seq<char>>, t: (int, int, Block)) -> bool {
    let rz = t.1 - oz;
    let rx = t.0 - ox;
    &&& 0 <= rz < rows.len()
    &&& 0 <= rx < rows[rz].len()
    &&& spec_block_of(rows[rz][rx]) == Some(t.2)
}

proof fn lemma_row_tiles_sound(ox: int, z: int, row: Seq<char>)
    ensures
        forall|i: int|
            0 <= i < row_tiles(ox, z, row).len() ==> {
                let t = #[trigger] row_tiles(ox, z, row)[i];
                &&& t.1 == z
                &&& 0 <= t.0 - ox < row.len()
                &&& spec_block_of(row[t.0 - ox]) == Some(t.2)
            },
    decreases row.len(),
{
    if row.len() > 0 {
        let prev = row.drop_last();
        lemma_row_tiles_sound(ox, z, prev);
        let before = row_tiles(ox, z, prev);
        assert forall|i: int| 0 <= i < before.len() implies {
            let t = #[trigger] before[i];
            0 <= t.0 - ox < row.len() && row[t.0 - ox] == prev[t.0 - ox]
        } by {}
    }
}

/// Every cube that `place_tilemap` places stands on a map character that
/// names its kind.
pub proof fn lemma_tiles_on_letters(ox: int, oz: int, rows: Seq<Seq<char>>)
    ensures
        forall|i: int|
            0 <= i < map_tiles(ox, oz, rows).len() ==> tile_on_letter(
                ox,
                oz,
                rows,
                #[trigger] map_tiles(ox, oz, rows)[i],
            ),
    decreases rows.len(),
{
    if rows.len() > 0 {
        let prev = rows.drop_last();
        let a = map_tiles(ox, oz, prev);
        let b = row_tiles(ox, oz + rows.len() - 1, rows.last());
        lemma_tiles_on_letters(ox, oz, prev);
        lemma_row_tiles_sound(ox, oz + rows.len() - 1, rows.last());
        let all = map_tiles(ox, oz, rows);
        assert(all == a + b);
        assert forall|i: int| 0 <= i < all.len() implies tile_on_letter(ox, oz, rows, #[trigger] all[i]) by {
            if i < a.len() {
                assert(all[i] == a[i]);
                assert(tile_on_letter(ox, oz, prev, a[i]));
                assert(prev[a[i].1 - oz] == rows[a[i].1 - oz]);
            } else {
                assert(all[i] == b[i - a.len()]);
                let t = b[i - a.len()];
                assert(t.1 == oz + rows.len() - 1);
            }
        }
    }
}

proof fn lemma_row_letter_placed(ox: int, z: int, row: Seq<char>, rx: int)
    requires
        0 <= rx < row.len(),
        spec_block_of(row[rx]) is Some,
    ensures
        row_tiles(ox, z, row).contains((ox + rx, z, spec_block_of(row[rx]).unwrap())),
    decreases row.len(),
{
    let t = (ox + rx, z, spec_block_of(row[rx]).unwrap());
    let before = row_tiles(ox, z, row.drop_last());
    if rx == row.len() - 1 {
        assert(row_tiles(ox, z, row) == before.push(t));
        assert(row_tiles(ox, z, row)[before.len() as int] == t);
    } else {
        assert(row.drop_last()[rx] == row[rx]);
        lemma_row_letter_placed(ox, z, row.drop_last(), rx);
        let k = choose|k: int| 0 <= k < before.len() && before[k] == t;
        assert(row_tiles(ox, z, row)[k] == t);
    }
}

/// Every map character that names a block kind gets a cube of that kind at
/// its column and row.
pub proof fn lemma_letters_placed(ox: int, oz: int, rows: Seq<Seq<char>>, rz: int, rx: int)
    requires
        0 <= rz < rows.len(),
        0 <= rx < rows[rz].len(),
        spec_block_of(rows[rz][rx]) is Some,
    ensures
        map_tiles(ox, oz, rows).contains((ox + rx, oz + rz, spec_block_of(rows[rz][rx]).unwrap())),
    decreases rows.len(),
{
    let t = (ox + rx, oz + rz, spec_block_of(rows[rz][rx]).unwrap());
    let prev = rows.drop_last();
    let a = map_tiles(ox, oz, prev);
    let b = row_tiles(ox, oz + rows.len() - 1, rows.last());
    assert(map_tiles(ox, oz, rows) == a + b);
    if rz == rows.len() - 1 {
        lemma_row_letter_placed(ox, oz + rz, rows.last(), rx);
        let k = choose|k: int| 0 <= k < b.len() && b[k] == t;
        assert((a + b)[a.len() + k] == t);
    } else {
        assert(prev[rz] == rows[rz]);
        lemma_letters_placed(ox, oz, prev, rz, rx);
        let k = choose|k: int| 0 <= k < a.len() && a[k] == t;
        assert((a + b)[k] == t);
    }
}

proof fn lemma_raise(level: int, tiles: Seq<(int, int, Block)>)
    ensures
        forall|i: int|
            0 <= i < raise(level, tiles).len() ==> {
                let v = #[trigger] raise(level, tiles)[i];
                &&& spec_layer_height(level, v.3) == Some(v.1)
                &&& tiles.contains((v.0, v.2, v.3))
            },
    decreases tiles.len(),
{
    if tiles.len() > 0 {
        let prev = tiles.drop_last();
        lemma_raise(level, prev);
        let before = raise(level, prev);
        let all = raise(level, tiles);
        assert forall|i: int| 0 <= i < all.len() implies {
            let v = #[trigger] all[i];
            &&& spec_layer_height(level, v.3) == Some(v.1)
            &&& tiles.contains((v.0, v.2, v.3))
        } by {
            let v = all[i];
            if i < before.len() {
                assert(all[i] == before[i]);
                let k = choose|k: int| 0 <= k < prev.len() && prev[k] == (v.0, v.2, v.3);
                assert(tiles[k] == prev[k]);
            } else {
                assert(tiles[tiles.len() - 1] == tiles.last());
            }
        }
    }
}

/// Every cube of a diorama layer stands at the height that its kind has at
/// that level (so there is no dirt, and no wood or leaves on level 0), on a
/// map character that names its kind.
pub proof fn lemma_layer_voxels(level: int, map: Seq<&str>)
    ensures
        forall|i: int|
            0 <= i < layer_voxels(level, map).len() ==> {
                let v = #[trigger] layer_voxels(level, map)[i];
                &&& spec_layer_height(level, v.3) == Some(v.1)
                &&& v.3 != Block::Dirt
                &&& tile_on_letter(layer_origin_x(map), layer_origin_z(map), map_rows(map), (v.0, v.2, v.3))
            },
{
    let ox = layer_origin_x(map);
    let oz = layer_origin_z(map);
    let tiles = map_tiles(ox, oz, map_rows(map));
    lemma_raise(level, tiles);
    lemma_tiles_on_letters(ox, oz, map_rows(map));
    assert forall|i: int| 0 <= i < layer_voxels(level, map).len() implies {
        let v = #[trigger] layer_voxels(level, map)[i];
        &&& spec_layer_height(level, v.3) == Some(v.1)
        &&& v.3 != Block::Dirt
        &&& tile_on_letter(ox, oz, map_rows(map), (v.0, v.2, v.3))
    } by {
        let v = layer_voxels(level, map)[i];
        let k = choose|k: int| 0 <= k < tiles.len() && tiles[k] == (v.0, v.2, v.3);
        assert(tile_on_letter(ox, oz, map_rows(map), tiles[k]));
    }
}

/// The height of each kind on each level, in closed form: grass, sand and
/// water at `level - 3`; wood and leaves nowhere on level 0, at 3 on level 1
/// and at `level - 3` from level 2 up; dirt never.
pub proof fn lemma_layer_height_closed_form(level: int, b: Block)
    requires
        level >= 0,
    ensures
        (b == Block::Grass || b == Block::Sand || b == Block::Water) ==> spec_layer_height(level, b)
            == Some(level - 3),
        (b == Block::Wood || b == Block::Leaves) && level >= 2 ==> spec_layer_height(level, b)
            == Some(level - 3),
        (b == Block::Wood || b == Block::Leaves) && level == 1 ==> spec_layer_height(level, b)
            == Some(3int),
        (b == Block::Wood || b == Block::Leaves) && level == 0 ==> spec_layer_height(level, b) is None,
        b == Block::Dirt ==> spec_layer_height(level, b) is None,
{
}

/// Tile `t` has a height on level `level`.
pub open spec fn has_height(level: int) -> spec_fn((int, int, Block)) -> bool {
    |t: (int, int, Block)| spec_layer_height(level, t.2) is Some
}

/// The cube that tile `t` becomes on level `level`, where its kind has a height there.
pub open spec fn raised(level: int) -> spec_fn((int, int, Block)) -> Option<(int, int, int, Block)> {
    |t: (int, int, Block)|
        match spec_layer_height(level, t.2) {
            Some(y) => Some((t.0, y, t.1, t.2)),
            None => None,
        }
}

/// Raising tiles to a level keeps every tile whose kind has a height there,
/// in order, each as one cube at that height, and drops the others: the
/// result has as many cubes as there are such tiles, and each such tile's
/// cube is in it.
pub proof fn lemma_raise_complete(level: int, tiles: Seq<(int, int, Block)>)
    ensures
        raise(level, tiles) == tiles.filter_map(raised(level)),
        raise(level, tiles).len() == tiles.filter(has_height(level)).len(),
        forall|i: int|
            0 <= i < tiles.len() && spec_layer_height(level, #[trigger] tiles[i].2) is Some
                ==> raise(level, tiles).contains(
                (
                    tiles[i].0,
                    spec_layer_height(level, tiles[i].2).unwrap(),
                    tiles[i].1,
                    tiles[i].2,
                ),
            ),
    decreases tiles.len(),
{
    if tiles.len() > 0 {
        let prev = tiles.drop_last();
        let t = tiles.last();
        lemma_raise_complete(level, prev);
        assert(tiles =~= prev.push(t));
        prev.lemma_filter_push(t, has_height(level));
        let before = raise(level, prev);
        let all = raise(level, tiles);
        match spec_layer_height(level, t.2) {
            Some(y) => {
                assert(all == before.push((t.0, y, t.1, t.2)));
                assert(all =~= tiles.filter_map(raised(level)));
            },
            None => {
                assert(all =~= tiles.filter_map(raised(level)));
            },
        }
        assert forall|i: int|
            0 <= i < tiles.len() && spec_layer_height(level, #[trigger] tiles[i].2) is Some
                implies all.contains(
            (tiles[i].0, spec_layer_height(level, tiles[i].2).unwrap(), tiles[i].1, tiles[i].2),
        ) by {
            let c = (tiles[i].0, spec_layer_height(level, tiles[i].2).unwrap(), tiles[i].1, tiles[i].2);
            if i < prev.len() {
                assert(prev[i] == tiles[i]);
                assert(spec_layer_height(level, prev[i].2) is Some);
                let k = choose|k: int| 0 <= k < before.len() && before[k] == c;
                assert(all[k] == c);
            } else {
                assert(tiles[i] == t);
                assert(all[before.len() as int] == c);
            }
        }
    } else {
        reveal(Seq::filter);
    }
}

/// Every tile of a level's map whose kind has a height on that level is one
/// cube of the level, at that height, and the level has no other cubes.
pub proof fn lemma_layer_complete(level: int, map: Seq<&str>)
    ensures
        ({
            let tiles = map_tiles(layer_origin_x(map), layer_origin_z(map), map_rows(map));
            &&& layer_voxels(level, map).len() == tiles.filter(has_height(level)).len()
            &&& forall|i: int|
                0 <= i < tiles.len() && spec_layer_height(level, #[trigger] tiles[i].2) is Some
                    ==> layer_voxels(level, map).contains(
                    (
                        tiles[i].0,
                        spec_layer_height(level, tiles[i].2).unwrap(),
                        tiles[i].1,
                        tiles[i].2,
                    ),
                )
        }),
{
    lemma_raise_complete(
        level,
        map_tiles(layer_origin_x(map), layer_origin_z(map), map_rows(map)),
    );
}

/// The layers of a diorama, level by level.
pub open spec fn diorama_layers(maps: Seq<Seq<&str>>) -> Seq<Seq<(int, int, int, Block)>> {
    Seq::new(maps.len(), |k: int| layer_voxels(k, maps[k]))
}

/// A diorama is its layers one after the other, lowest level first: every
/// cube of every layer, and nothing else.
pub proof fn lemma_diorama_concat(maps: Seq<Seq<&str>>)
    ensures
        diorama_voxels(maps) == diorama_layers(maps).flatten(),
        diorama_voxels(maps) == diorama_layers(maps).flatten_alt(),
    decreases maps.len(),
{
    let ls = diorama_layers(maps);
    if maps.len() > 0 {
        let prev = maps.drop_last();
        lemma_diorama_concat(prev);
        assert(ls.drop_last() =~= diorama_layers(prev));
        assert(ls.last() == layer_voxels(maps.len() - 1, maps.last()));
    }
    ls.lemma_flatten_and_flatten_alt_are_equivalent();
}

/// The map characters that name a block kind.
pub open spec fn names_block() -> spec_fn(char) -> bool {
    |c: char| spec_block_of(c) is Some
}

/// A row places one cube per character that names a block kind, left to
/// right, each on its own column of the row.
pub proof fn lemma_row_tiles_exact(ox: int, z: int, row: Seq<char>)
    ensures
        row_tiles(ox, z, row).len() == row.filter(names_block()).len(),
        forall|i: int|
            0 <= i < row_tiles(ox, z, row).len() ==> {
                let t = #[trigger] row_tiles(ox, z, row)[i];
                &&& t.1 == z
                &&& ox <= t.0 < ox + row.len()
            },
        forall|i: int, j: int|
            0 <= i < j < row_tiles(ox, z, row).len() ==> (#[trigger] row_tiles(ox, z, row)[i]).0
                < (#[trigger] row_tiles(ox, z, row)[j]).0,
    decreases row.len(),
{
    if row.len() > 0 {
        let prev = row.drop_last();
        lemma_row_tiles_exact(ox, z, prev);
        assert(row =~= prev.push(row.last()));
        prev.lemma_filter_push(row.last(), names_block());
    } else {
        reveal(Seq::filter);
    }
}

/// A map places its cubes in reading order: row by row from the top, left
/// to right within a row. So no two cubes share a place.
pub proof fn lemma_tiles_in_reading_order(ox: int, oz: int, rows: Seq<Seq<char>>)
    ensures
        forall|i: int, j: int|
            0 <= i < j < map_tiles(ox, oz, rows).len() ==> {
                let a = #[trigger] map_tiles(ox, oz, rows)[i];
                let b = #[trigger] map_tiles(ox, oz, rows)[j];
                a.1 < b.1 || (a.1 == b.1 && a.0 < b.0)
            },
    decreases rows.len(),
{
    if rows.len() > 0 {
        let prev = rows.drop_last();
        let z = oz + rows.len() - 1;
        let a = map_tiles(ox, oz, prev);
        let b = row_tiles(ox, z, rows.last());
        lemma_tiles_in_reading_order(ox, oz, prev);
        lemma_tiles_on_letters(ox, oz, prev);
        lemma_row_tiles_exact(ox, z, rows.last());
        let all = map_tiles(ox, oz, rows);
        assert(all == a + b);
        assert forall|i: int, j: int| 0 <= i < j < all.len() implies {
            let p = #[trigger] all[i];
            let q = #[trigger] all[j];
            p.1 < q.1 || (p.1 == q.1 && p.0 < q.0)
        } by {
            if j < a.len() {
                assert(all[i] == a[i] && all[j] == a[j]);
            } else if i < a.len() {
                assert(all[i] == a[i]);
                assert(tile_on_letter(ox, oz, prev, a[i]));
                assert(all[j] == b[j - a.len()]);
            } else {
                assert(all[i] == b[i - a.len()]);
                assert(all[j] == b[j - a.len()]);
            }
        }
    }
}

/// A map places exactly as many cubes as it has characters that name a block kind.
pub proof fn lemma_tiles_count(ox: int, oz: int, rows: Seq<Seq<char>>)
    ensures
        map_tiles(ox, oz, rows).len() == Seq::new(
            rows.len(),
            |k: int| rows[k].filter(names_block()),
        ).flatten().len(),
    decreases rows.len(),
{
    let ls = Seq::new(rows.len(), |k: int| rows[k].filter(names_block()));
    if rows.len() > 0 {
        let prev = rows.drop_last();
        lemma_tiles_count(ox, oz, prev);
        let lp = Seq::new(prev.len(), |k: int| prev[k].filter(names_block()));
        assert(ls.drop_last() =~= lp);
        lp.lemma_flatten_and_flatten_alt_are_equivalent();
        lemma_row_tiles_exact(ox, oz + rows.len() - 1, rows.last());
        assert(ls.last() == rows.last().filter(names_block()));
        assert(ls.flatten_alt() == ls.drop_last().flatten_alt() + ls.last());
    }
    ls.lemma_flatten_and_flatten_alt_are_equivalent();
}

/// The letter table: `G` grass, `D` dirt, `S` sand, `W` water, `M` wood,
/// `L` leaves; every other character is empty ground.
pub proof fn lemma_letter_table(c: char)
    ensures
        spec_block_of(c) == Some(Block::Grass) <==> c == 'G',
        spec_block_of(c) == Some(Block::Dirt) <==> c == 'D',
        spec_block_of(c) == Some(Block::Sand) <==> c == 'S',
        spec_block_of(c) == Some(Block::Water) <==> c == 'W',
        spec_block_of(c) == Some(Block::Wood) <==> c == 'M',
        spec_block_of(c) == Some(Block::Leaves) <==> c == 'L',
        spec_block_of(c) is None <==> !(c == 'G' || c == 'D' || c == 'S' || c == 'W' || c == 'M'
            || c == 'L'),
{
}

/// A layer is centred: its first row spans the columns from `-(n / 2)` on,
/// where `n` is that row's length in bytes, so twice its first column plus
/// `n` is 0 or 1; likewise its rows are centred on row -5.
pub proof fn lemma_layer_centred(map: Seq<&str>)
    requires
        map.len() > 0,
    ensures
        0 <= 2 * layer_origin_x(map) + map[0].spec_bytes().len() <= 1,
        0 <= 2 * (layer_origin_z(map) + 5) + map.len() <= 1,
{
}

} // verus!
