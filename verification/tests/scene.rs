use diorama::tilemap::{block_of, diorama, diorama_layer, layer_height, place_tilemap, Block, Tile, Voxel};

fn tile(x: i32, z: i32, block: Block) -> Tile {
    Tile { x, z, block }
}

fn voxel(x: i32, y: i32, z: i32, block: Block) -> Voxel {
    Voxel { x, y, z, block }
}

#[test]
fn block_letters() {
    assert_eq!(block_of('G'), Some(Block::Grass));
    assert_eq!(block_of('D'), Some(Block::Dirt));
    assert_eq!(block_of('S'), Some(Block::Sand));
    assert_eq!(block_of('W'), Some(Block::Water));
    assert_eq!(block_of('M'), Some(Block::Wood));
    assert_eq!(block_of('L'), Some(Block::Leaves));
    assert_eq!(block_of('_'), None);
    assert_eq!(block_of('g'), None);
    assert_eq!(block_of('é'), None);
}

#[test]
fn tilemap_places_one_cube_per_letter() {
    let map: &[&str] = &["G_S", "WDL"];
    assert_eq!(
        place_tilemap(10, -4, map),
        vec![
            tile(10, -4, Block::Grass),
            tile(12, -4, Block::Sand),
            tile(10, -3, Block::Water),
            tile(11, -3, Block::Dirt),
            tile(12, -3, Block::Leaves),
        ]
    );
}

#[test]
fn tilemap_counts_characters_not_bytes() {
    let map: &[&str] = &["éG", "", "__M"];
    assert_eq!(
        place_tilemap(0, 0, map),
        vec![tile(1, 0, Block::Grass), tile(2, 2, Block::Wood)]
    );
}

#[test]
fn empty_tilemap_places_nothing() {
    assert!(place_tilemap(0, 0, &[]).is_empty());
    assert!(place_tilemap(0, 0, &["____", "xyz"]).is_empty());
}

#[test]
fn layer_heights_follow_levels() {
    assert_eq!(layer_height(0, Block::Grass), Some(-3));
    assert_eq!(layer_height(0, Block::Wood), None);
    assert_eq!(layer_height(1, Block::Water), Some(-2));
    assert_eq!(layer_height(1, Block::Leaves), Some(3));
    assert_eq!(layer_height(2, Block::Wood), Some(-1));
    assert_eq!(layer_height(8, Block::Sand), Some(5));
    assert_eq!(layer_height(5, Block::Dirt), None);
}

#[test]
fn layer_is_centred() {
    // Half the first row's length is 2; half the row count is 1; then 5 rows back.
    let map: &[&str] = &["G___", "___S", "W___"];
    assert_eq!(
        diorama_layer(map, 3),
        vec![voxel(-2, 0, -6, Block::Grass), voxel(1, 0, -5, Block::Sand), voxel(-2, 0, -4, Block::Water)]
    );
}

#[test]
fn layer_drops_kinds_without_height() {
    assert_eq!(diorama_layer(&["GMDL"], 0), vec![voxel(-2, -3, -5, Block::Grass)]);
    assert_eq!(
        diorama_layer(&["GMDL"], 1),
        vec![voxel(-2, -2, -5, Block::Grass), voxel(-1, 3, -5, Block::Wood), voxel(1, 3, -5, Block::Leaves)]
    );
}

#[test]
fn diorama_stacks_layers_in_order() {
    let level0: &[&str] = &["S"];
    let level1: &[&str] = &["_", "W"];
    let level2: &[&str] = &["L"];
    assert_eq!(
        diorama(&[level0, level1, level2]),
        vec![voxel(0, -3, -5, Block::Sand), voxel(0, -2, -5, Block::Water), voxel(0, -1, -5, Block::Leaves)]
    );
    assert!(diorama(&[]).is_empty());
}
