use tile::tile::{Tile, Tiles};

#[test]
fn test_tiles_new() {
    let cases = [
        (1, 1, 0),
        (100, 101, 1),
        (1023, 1025, 3),
        (1024, 1030, 1),
        (1030, 2000, 1),
        (1030, 10000, 10),
        (49516517, 49516586, 3),
    ];
    for (old, new, want) in cases {
        let tiles = Tiles::new(10, old, new).unwrap();
        assert_eq!(tiles.len(), want, "({old}, {new}, {want})");
    }
}

#[test]
fn test_tile_paths() {
    let cases = [
        ("tile/4/0/001", (4, 0, 1, 16)),
        ("tile/4/0/001.p/5", (4, 0, 1, 5)),
        ("tile/3/5/x123/x456/078", (3, 5, 123456078, 8)),
        ("tile/3/5/x123/x456/078.p/2", (3, 5, 123456078, 2)),
        ("tile/1/0/x003/x057/500", (1, 0, 3057500, 2)),
        ("tile/1/data/x003/x057/500", (1, -1, 3057500, 2)),
    ];
    for (path, (height, level, n, width)) in cases {
        let tile = Tile::new(height, level, n, width).unwrap();
        let got = tile.path();
        assert_eq!(got, path, "{tile:?}");
    }
}

#[test]
fn test_tile_path_zero() {
    let tile = Tile::new(2, 0, 0, 4).unwrap();
    assert_eq!(tile.path(), "tile/2/0/000");
}

#[test]
fn test_tile_parse_round_trip() {
    let paths = [
        "tile/4/0/001",
        "tile/4/0/001.p/5",
        "tile/3/5/x123/x456/078",
        "tile/3/5/x123/x456/078.p/2",
        "tile/1/0/x003/x057/500",
        "tile/1/data/x003/x057/500",
        "tile/2/0/000",
        "tile/30/63/x999/x999/999.p/7",
    ];
    for path in paths {
        let tile = Tile::parse(path).unwrap();
        assert_eq!(tile.path(), path, "{path}");
    }
    let want = Tile::new(3, 5, 123456078, 8).unwrap();
    assert_eq!(Tile::parse("tile/3/5/x123/x456/078"), Some(want));
}

#[test]
fn test_tile_parse_rejects() {
    let bad = [
        "",
        "tile",
        "tile/3/5/123/456/078",
        "tile/3/-1/123/456/078",
        "tile/3/data",
        "tile/4/0/01",
        "tile/4/0/0001",
        "tile/4/0/x001/",
        "tile/4/0/001.p/16",
        "tile/4/0/001.p/0",
        "tile/4/0/001.p/5/",
        "tile/0/0/000",
        "tile/31/0/000",
        "tile/4/64/001",
        "tile/4/0/x000/001",
        "stack/4/0/001",
    ];
    for path in bad {
        assert_eq!(Tile::parse(path), None, "{path}");
    }
}

#[test]
fn test_tile_new_rejects() {
    assert_eq!(Tile::new(31, 0, 0, 1), None);
    assert_eq!(Tile::new(0, 0, 0, 1), None);
    assert_eq!(Tile::new(1, 64, 0, 1), None);
    assert_eq!(Tile::new(1, -2, 0, 1), None);
    assert_eq!(Tile::new(1, 0, 0, 3), None);
    assert_eq!(Tile::new(1, 0, 0, 0), None);
}

#[test]
fn test_tile_getters() {
    let tile = Tile::new(8, -1, 7, 200).unwrap();
    assert_eq!(tile.height(), 8);
    assert_eq!(tile.level(), -1);
    assert_eq!(tile.number(), 7);
    assert_eq!(tile.width(), 200);
    assert!(tile.is_data());
    assert!(!Tile::new(8, 0, 7, 200).unwrap().is_data());
}

#[test]
fn test_tile_for_index() {
    assert_eq!(Tile::for_index(0, 0), None);
    assert_eq!(Tile::for_index(31, 0), None);
    assert_eq!(Tile::for_index(1, 0), Tile::new(1, 0, 0, 1));
    assert_eq!(Tile::for_index(2, 6), Tile::new(2, 1, 0, 1));
    assert_eq!(Tile::for_index(3, 9), Tile::new(3, 0, 0, 6));
}

#[test]
fn test_tiles_contents() {
    let tiles = Tiles::new(1, 0, 4).unwrap();
    assert_eq!(tiles.len(), 4);
    let want = [(0, 0, 2), (0, 1, 2), (1, 0, 2), (2, 0, 1)];
    for (i, (level, n, width)) in want.into_iter().enumerate() {
        let t = tiles.get(i);
        assert_eq!(t.height(), 1);
        assert_eq!(t.level(), level);
        assert_eq!(t.number(), n);
        assert_eq!(t.width(), width);
    }
}
