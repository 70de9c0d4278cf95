//! Tests of tile sources.

use mapscii::config::MapConfig;
use mapscii::tile::{Tile, TileError};
use mapscii::tile_source::{
    FetchStep, Reply, SourceMode, TileKey, TileSource, TileSourceError,
};
use std::sync::Arc;

#[test]
fn test_tile_key() {
    let key = TileKey::new(5, 16, 10);
    assert_eq!(key.cache_name(), "5-16-10");
}

#[test]
fn test_tile_key_disk_path() {
    let key = TileKey::new(5, 16, 10);
    let base = "/tmp/cache";
    let path = key.disk_path(base);
    assert_eq!(path, "/tmp/cache/5/16-10.pbf");
}

#[test]
fn test_source_mode_default_http() {
    let config = MapConfig::default();
    let ts = TileSource::new(&config, None);
    assert_eq!(ts.mode, SourceMode::Http);
}

#[test]
fn test_tile_source_new() {
    let config = MapConfig::default();
    let ts = TileSource::new(&config, None);
    assert_eq!(ts.source, config.source);
}

#[test]
fn paths_join_like_paths() {
    let key = TileKey::new(0, 0, 0);
    assert_eq!(key.disk_path(""), "0/0-0.pbf");
    assert_eq!(key.disk_path("/a/"), "/a/0/0-0.pbf");
    assert_eq!(
        std::path::Path::new(&key.disk_path("/a")),
        std::path::Path::new("/a").join("0").join("0-0.pbf")
    );
}

#[test]
fn numbers_are_written_in_full() {
    let key = TileKey::new(255, u32::MAX, 1000000007);
    assert_eq!(key.cache_name(), format!("255-{}-1000000007", u32::MAX));
    assert_eq!(key.url("http://x/"), format!("http://x/255/{}/1000000007.pbf", u32::MAX));
}

#[test]
fn names_tell_tiles_apart() {
    let keys = [TileKey::new(1, 11, 1), TileKey::new(11, 1, 1), TileKey::new(1, 1, 11)];
    for a in keys {
        for b in keys {
            assert_eq!(a.cache_name() == b.cache_name(), a == b);
        }
    }
}

#[test]
fn rows_are_flipped() {
    assert_eq!(TileKey::new(0, 0, 0).tms_row(), 0);
    assert_eq!(TileKey::new(3, 1, 2).tms_row(), 5);
    assert_eq!(TileKey::new(3, 1, 5).tms_row(), 2);
    assert_eq!(TileKey::new(31, 0, 0).tms_row(), (1u32 << 31) - 1);
}

fn empty_tile() -> Tile {
    Tile { layers: vec![] }
}

fn source(limit: usize) -> TileSource {
    TileSource::new(&MapConfig::default().with_tile_cache_size(limit), None)
}

#[test]
fn stored_tiles_are_found() {
    let mut ts = source(2);
    let key = TileKey::new(1, 0, 1);
    assert!(ts.cached_tile(key).is_none());
    let tile = ts.take_tile(key, Ok(empty_tile())).unwrap();
    let found = ts.cached_tile(key).unwrap();
    assert!(Arc::ptr_eq(&tile, &found));
}

#[test]
fn the_least_recently_used_tile_makes_room() {
    let mut ts = source(2);
    let (a, b, c) = (TileKey::new(1, 0, 0), TileKey::new(1, 0, 1), TileKey::new(1, 1, 0));
    ts.take_tile(a, Ok(empty_tile())).unwrap();
    ts.take_tile(b, Ok(empty_tile())).unwrap();
    // Using a makes b the one that goes.
    assert!(ts.cached_tile(a).is_some());
    ts.take_tile(c, Ok(empty_tile())).unwrap();
    assert!(ts.cached_tile(a).is_some());
    assert!(ts.cached_tile(b).is_none());
    assert!(ts.cached_tile(c).is_some());
    // Storing a tile again takes no more room.
    let again = ts.take_tile(c, Ok(empty_tile())).unwrap();
    assert!(Arc::ptr_eq(&again, &ts.cached_tile(c).unwrap()));
    assert!(ts.cached_tile(a).is_some());
}

#[test]
fn unusable_tiles_are_not_stored() {
    let mut ts = source(2);
    let key = TileKey::new(1, 0, 1);
    let err = ts.take_tile(key, Err(TileError::ProtobufDecode("eof".to_string()))).err().unwrap();
    assert_eq!(err.message(), "tile parse error: failed to decode protobuf: eof");
    assert!(ts.cached_tile(key).is_none());
}

#[test]
fn mbtiles_by_extension() {
    let config = MapConfig::default().with_mbtiles("/maps/berlin.mbtiles".to_string());
    let ts = TileSource::new(&config, None);
    assert_eq!(ts.mode, SourceMode::MBTiles);
    assert_eq!(ts.source, "/maps/berlin.mbtiles");
    let other = TileSource::new(&MapConfig::default().with_mbtiles("x.mbtiles2".to_string()), None);
    assert_eq!(other.mode, SourceMode::Http);
    let key = TileKey::new(3, 1, 2);
    assert!(matches!(ts.first_step(key, true), FetchStep::Query(3, 1, 5)));
    match ts.first_step(key, false) {
        FetchStep::Fail(e) => assert_eq!(e.message(), "MBTiles error: MBTiles not initialized"),
        other => panic!("{other:?}"),
    }
    assert!(matches!(ts.after_query(Ok(vec![1])), FetchStep::Done(b) if b == vec![1]));
    assert!(matches!(
        ts.after_query(Err("gone".to_string())),
        FetchStep::Fail(TileSourceError::MBTiles(s)) if s == "gone"
    ));
}

#[test]
fn downloads_go_through_the_disk() {
    let ts = TileSource::new(&MapConfig::default(), Some("/cache".to_string()));
    let key = TileKey::new(2, 3, 1);
    match ts.first_step(key, false) {
        FetchStep::ReadFile(path) => assert_eq!(path, "/cache/2/3-1.pbf"),
        other => panic!("{other:?}"),
    }
    assert!(matches!(ts.after_file(key, Some(vec![7])), FetchStep::Done(b) if b == vec![7]));
    match ts.after_file(key, None) {
        FetchStep::Request(url) => assert_eq!(url, "http://mapscii.me/2/3/1.pbf"),
        other => panic!("{other:?}"),
    }
    match ts.after_reply(key, Reply::Body(vec![8, 9])) {
        FetchStep::Store(path, bytes) => {
            assert_eq!(path, "/cache/2/3-1.pbf");
            assert_eq!(bytes, vec![8, 9]);
        }
        other => panic!("{other:?}"),
    }
}

#[test]
fn downloads_without_a_disk() {
    let config = MapConfig::default().with_tile_persistence(false);
    let ts = TileSource::new(&config, Some("/cache".to_string()));
    assert!(ts.cache_dir.is_none());
    let key = TileKey::new(2, 3, 1);
    assert!(matches!(ts.first_step(key, false), FetchStep::Request(_)));
    assert!(matches!(ts.after_reply(key, Reply::Body(vec![8])), FetchStep::Done(b) if b == vec![8]));
    match ts.after_reply(key, Reply::Refused("404 Not Found".to_string())) {
        FetchStep::Fail(e) => assert_eq!(
            e.message(),
            "HTTP error: HTTP 404 Not Found for http://mapscii.me/2/3/1.pbf"
        ),
        other => panic!("{other:?}"),
    }
    match ts.after_reply(key, Reply::Broken("timed out".to_string())) {
        FetchStep::Fail(e) => assert_eq!(e.message(), "HTTP error: timed out"),
        other => panic!("{other:?}"),
    }
}
