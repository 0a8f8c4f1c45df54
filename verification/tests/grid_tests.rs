use megatexture::{Atlas, AtlasSquare};

fn names(n: usize) -> Vec<String> {
    (0..n).map(|i| format!("tile{}", i)).collect()
}

#[test]
fn zero_names_give_empty_atlas() {
    let atlas = Atlas::new(Vec::new());
    assert_eq!(atlas.side_length, 0);
    assert!(atlas.squares.is_empty());
    assert!(atlas.check());
}

#[test]
fn one_name_gives_side_one() {
    let atlas = Atlas::new(names(1));
    assert_eq!(atlas.side_length, 1);
    assert_eq!(atlas.squares.len(), 1);
    assert_eq!(atlas.squares[0].x, 0);
    assert_eq!(atlas.squares[0].y, 0);
}

#[test]
fn side_length_is_ceil_sqrt() {
    // ceil(sqrt(n)) for a few counts around perfect squares.
    for (n, side) in [(2, 2), (4, 2), (5, 3), (9, 3), (10, 4), (16, 4), (17, 5)] {
        let atlas = Atlas::new(names(n));
        assert_eq!(atlas.side_length, side, "count {}", n);
        assert_eq!(atlas.squares.len(), n);
    }
}

#[test]
fn placement_is_row_major_front_to_back() {
    let atlas = Atlas::new(names(5));
    assert_eq!(atlas.side_length, 3);
    let expected = [(0u32, 0u32), (1, 0), (2, 0), (0, 1), (1, 1)];
    for (i, sq) in atlas.squares.iter().enumerate() {
        assert_eq!(sq.name, format!("tile{}", i));
        assert_eq!((sq.x, sq.y), expected[i]);
    }
}

#[test]
fn cells_are_unique_and_in_bounds() {
    let atlas = Atlas::new(names(23));
    let side = atlas.side_length;
    let mut seen = Vec::new();
    for sq in &atlas.squares {
        assert!(sq.x < side && sq.y < side);
        assert!(!seen.contains(&(sq.x, sq.y)));
        seen.push((sq.x, sq.y));
    }
    assert!(atlas.check());
}

#[test]
fn check_rejects_bad_atlases() {
    // Side too small for the square count.
    let mut atlas = Atlas::new(names(5));
    atlas.side_length = 2;
    assert!(!atlas.check());
    // A square out of bounds.
    let mut atlas = Atlas::new(names(4));
    atlas.squares[3].x = 9;
    assert!(!atlas.check());
    // Two squares on the same cell.
    let mut atlas = Atlas::new(names(4));
    let dup = AtlasSquare { name: String::from("other"), x: 0, y: 0 };
    atlas.squares[3] = dup;
    assert!(!atlas.check());
}
