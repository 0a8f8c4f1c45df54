use megatexture::{
    compile_megatexture, compile_megatexture_single, write_texture_rgb, Atlas, CompileError,
    RgbImage, TILE_EDGE,
};
use std::io::{Cursor, Write};
use zip::write::FileOptions;

fn solid_tile_bytes(value: u8) -> Vec<u8> {
    vec![value; (TILE_EDGE * TILE_EDGE * 3) as usize]
}

fn tile_png(value: u8) -> Vec<u8> {
    write_texture_rgb(&RgbImage::from_raw(TILE_EDGE, solid_tile_bytes(value))).unwrap()
}

fn zip_bytes(entries: &[(String, Vec<u8>)]) -> Vec<u8> {
    let mut w = zip::ZipWriter::new(Cursor::new(Vec::new()));
    let opts = FileOptions::default().compression_method(zip::CompressionMethod::Stored);
    for (name, bytes) in entries {
        w.start_file(name.as_str(), opts).unwrap();
        w.write_all(bytes).unwrap();
    }
    w.finish().unwrap().into_inner()
}

fn open(bytes: &[u8]) -> zip::ZipArchive<Cursor<Vec<u8>>> {
    zip::ZipArchive::new(Cursor::new(bytes.to_vec())).unwrap()
}

fn names(n: usize) -> Vec<String> {
    (0..n).map(|i| format!("t{}.png", i)).collect()
}

fn entries_for(names: &[String]) -> Vec<(String, Vec<u8>)> {
    names.iter().enumerate().map(|(i, n)| (n.clone(), tile_png((i + 1) as u8))).collect()
}

#[test]
fn compiles_and_places_tiles_row_major() {
    let names = names(2);
    let atlas = Atlas::new(names.clone());
    let mut source = open(&zip_bytes(&entries_for(&names)));
    let img = compile_megatexture_single(&mut source, &atlas).unwrap();
    assert_eq!(img.dimensions(), (2 * TILE_EDGE, 2 * TILE_EDGE));
    let stride = (2 * TILE_EDGE * 3) as usize;
    // Pixel (0, 0) comes from the first tile, pixel (TILE_EDGE, 0) from the
    // second, and the bottom half stays blank.
    assert_eq!(img.data()[0], 1);
    assert_eq!(img.data()[(TILE_EDGE * 3) as usize], 2);
    assert_eq!(img.data()[(TILE_EDGE as usize) * stride], 0);
}

#[test]
fn one_fallback_in_twenty_is_within_budget() {
    // 20 squares, the primary misses 1: a 5% failure rate sits exactly on the
    // budget boundary, and the bound is strict, so compilation succeeds.
    let names = names(20);
    let atlas = Atlas::new(names.clone());
    let full = entries_for(&names);
    let mut primary_entries = full.clone();
    primary_entries.remove(7);
    let mut primary = open(&zip_bytes(&primary_entries));
    let mut backup = open(&zip_bytes(&full));
    let (img, failures) = compile_megatexture(&mut primary, &mut backup, &atlas).unwrap();
    assert_eq!(failures, vec![names[7].clone()]);
    assert_eq!(img.dimensions(), (5 * TILE_EDGE, 5 * TILE_EDGE));
}

#[test]
fn two_fallbacks_in_twenty_exceed_the_budget() {
    let names = names(20);
    let atlas = Atlas::new(names.clone());
    let full = entries_for(&names);
    let mut primary_entries = full.clone();
    primary_entries.remove(12);
    primary_entries.remove(3);
    let mut primary = open(&zip_bytes(&primary_entries));
    let mut backup = open(&zip_bytes(&full));
    match compile_megatexture(&mut primary, &mut backup, &atlas) {
        Err(CompileError::ExcessiveFallback { failures, total }) => {
            assert_eq!(total, 20);
            assert_eq!(failures, vec![names[3].clone(), names[12].clone()]);
        },
        other => panic!("expected ExcessiveFallback, got {:?}", other.map(|_| ())),
    }
}

#[test]
fn invalid_primary_tile_falls_back_too() {
    // A wrong-sized tile in the primary is recorded and resolved from the
    // backup, exactly like a missing one.
    let names = names(20);
    let atlas = Atlas::new(names.clone());
    let full = entries_for(&names);
    let mut primary_entries = full.clone();
    let bad = write_texture_rgb(&RgbImage::from_raw(8, vec![9u8; 8 * 8 * 3])).unwrap();
    primary_entries[5] = (names[5].clone(), bad);
    let mut primary = open(&zip_bytes(&primary_entries));
    let mut backup = open(&zip_bytes(&full));
    let (_, failures) = compile_megatexture(&mut primary, &mut backup, &atlas).unwrap();
    assert_eq!(failures, vec![names[5].clone()]);
}

#[test]
fn missing_in_both_sources_is_fatal() {
    let names = names(20);
    let atlas = Atlas::new(names.clone());
    let mut entries = entries_for(&names);
    entries.remove(0);
    let mut primary = open(&zip_bytes(&entries));
    let mut backup = open(&zip_bytes(&entries));
    match compile_megatexture(&mut primary, &mut backup, &atlas) {
        Err(CompileError::BackupLoad(name)) => assert_eq!(name, names[0]),
        other => panic!("expected BackupLoad, got {:?}", other.map(|_| ())),
    }
}

#[test]
fn single_source_missing_tile_is_immediately_fatal() {
    // With one source there is no second chance: a single missing tile out of
    // twenty is fatal even though it would be within the fallback budget.
    let names = names(20);
    let atlas = Atlas::new(names.clone());
    let mut entries = entries_for(&names);
    entries.remove(4);
    let mut source = open(&zip_bytes(&entries));
    match compile_megatexture_single(&mut source, &atlas) {
        Err(CompileError::TileLoad(name)) => assert_eq!(name, names[4]),
        other => panic!("expected TileLoad, got {:?}", other.map(|_| ())),
    }
}

#[test]
fn byte_identical_archives_compile_byte_identically() {
    let names = names(6);
    let atlas = Atlas::new(names.clone());
    let bytes = zip_bytes(&entries_for(&names));
    let mut first = open(&bytes);
    let mut second = open(&bytes);
    let a = compile_megatexture_single(&mut first, &atlas).unwrap();
    let b = compile_megatexture_single(&mut second, &atlas).unwrap();
    assert_eq!(a.data(), b.data());
    let fa = write_texture_rgb(&a).unwrap();
    let fb = write_texture_rgb(&b).unwrap();
    assert_eq!(fa, fb);
}
