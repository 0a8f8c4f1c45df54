use megatexture::{
    build_atlas, path_filter, select_most_common, valid_texture_names, write_texture_rgb,
    RgbImage, TILE_EDGE,
};
use std::io::{Cursor, Write};
use zip::write::FileOptions;

fn tile_png(seed: u8) -> Vec<u8> {
    let len = (TILE_EDGE * TILE_EDGE * 3) as usize;
    let data: Vec<u8> = (0..len).map(|i| (seed as usize).wrapping_add(i) as u8).collect();
    write_texture_rgb(&RgbImage::from_raw(TILE_EDGE, data)).unwrap()
}

fn wrong_size_png() -> Vec<u8> {
    let data = vec![1u8; 8 * 8 * 3];
    write_texture_rgb(&RgbImage::from_raw(8, data)).unwrap()
}

fn zip_of(entries: &[(&str, Vec<u8>)]) -> zip::ZipArchive<Cursor<Vec<u8>>> {
    let mut w = zip::ZipWriter::new(Cursor::new(Vec::new()));
    let opts = FileOptions::default().compression_method(zip::CompressionMethod::Stored);
    for (name, bytes) in entries {
        w.start_file(*name, opts).unwrap();
        w.write_all(bytes).unwrap();
    }
    let cursor = w.finish().unwrap();
    zip::ZipArchive::new(cursor).unwrap()
}

const X: &str = "assets/minecraft/textures/block/x.png";
const Y: &str = "assets/minecraft/textures/block/y.png";

#[test]
fn path_filter_wants_prefix_and_extension() {
    assert!(path_filter("assets/minecraft/textures/block/stone.png"));
    assert!(!path_filter("assets/minecraft/textures/item/stick.png"));
    assert!(!path_filter("assets/minecraft/textures/block/stone.txt"));
    assert!(!path_filter("stone.png"));
    assert!(!path_filter(""));
}

#[test]
fn scan_keeps_eligible_entries_in_archive_order() {
    let mut archive = zip_of(&[
        (X, tile_png(1)),
        ("pack.mcmeta", b"not a texture".to_vec()),
        ("assets/minecraft/textures/block/big.png", wrong_size_png()),
        (Y, tile_png(2)),
        ("assets/minecraft/textures/item/x.png", tile_png(3)),
    ]);
    let names = valid_texture_names(&mut archive).unwrap();
    assert_eq!(names, vec![X.to_string(), Y.to_string()]);
}

#[test]
fn scan_propagates_undecodable_probe() {
    let mut archive =
        zip_of(&[("assets/minecraft/textures/block/bad.png", b"garbage".to_vec())]);
    assert!(valid_texture_names(&mut archive).is_err());
}

#[test]
fn select_keeps_names_at_maximum_count_in_first_seen_order() {
    let all: Vec<String> =
        ["a", "b", "a", "c", "b", "a", "b"].iter().map(|s| s.to_string()).collect();
    // a: 3, b: 3, c: 1 -> a then b.
    let kept = select_most_common(&all).unwrap();
    assert_eq!(kept, vec!["a".to_string(), "b".to_string()]);
}

#[test]
fn select_fails_on_empty_dataset() {
    assert!(select_most_common(&Vec::new()).is_err());
    assert!(build_atlas(Vec::new()).is_err());
    assert!(build_atlas(vec![Vec::new(), Vec::new()]).is_err());
}

#[test]
fn multi_archive_selection_keeps_only_the_largest_cohort() {
    // Archives A={x,y}, B={x}, C={x,y}: count(x)=3, count(y)=2, so the atlas
    // holds only x.
    let mut a = zip_of(&[(X, tile_png(1)), (Y, tile_png(2))]);
    let mut b = zip_of(&[(X, tile_png(1))]);
    let mut c = zip_of(&[(X, tile_png(1)), (Y, tile_png(2))]);
    let mut lists = Vec::new();
    for archive in [&mut a, &mut b, &mut c] {
        lists.push(valid_texture_names(archive).unwrap());
    }
    let atlas = build_atlas(lists).unwrap();
    assert_eq!(atlas.squares.len(), 1);
    assert_eq!(atlas.squares[0].name, X);
    assert_eq!(atlas.side_length, 1);
}

#[test]
fn one_archive_counts_a_name_once() {
    // An archive carrying a name twice contributes it as a set member, so two
    // copies of x in one archive do not outvote y held by both archives.
    let lists = vec![
        vec![X.to_string(), X.to_string(), Y.to_string()],
        vec![Y.to_string()],
    ];
    let atlas = build_atlas(lists).unwrap();
    let names: Vec<&str> = atlas.squares.iter().map(|s| s.name.as_str()).collect();
    assert_eq!(names, vec![Y]);
}

#[test]
fn unanimous_archives_keep_everything() {
    let mut a = zip_of(&[(X, tile_png(1)), (Y, tile_png(2))]);
    let mut b = zip_of(&[(X, tile_png(1)), (Y, tile_png(2))]);
    let mut lists = Vec::new();
    for archive in [&mut a, &mut b] {
        lists.push(valid_texture_names(archive).unwrap());
    }
    let atlas = build_atlas(lists).unwrap();
    let names: Vec<&str> = atlas.squares.iter().map(|s| s.name.as_str()).collect();
    assert_eq!(names, vec![X, Y]);
    assert_eq!(atlas.side_length, 2);
}
