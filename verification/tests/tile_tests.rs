use rts::config::{Config, ScreenConfig};
use rts::terrain::{Terrain, TerrainFillStyle, TerrainVoxel};
use rts::tile::{hex_code_text, parse_hex_pair, EnvTileAssetData, EnvTileLoadHandler, TileLoadError};

fn data(palette: &[&str], voxels: Vec<Vec<&str>>) -> EnvTileAssetData {
    EnvTileAssetData {
        name: "t".to_string(),
        palette: palette.iter().map(|s| s.to_string()).collect(),
        voxels: voxels
            .into_iter()
            .map(|slice| slice.into_iter().map(|l| l.to_string()).collect())
            .collect(),
    }
}

#[test]
fn config_defaults() {
    assert_eq!(ScreenConfig::default_width(), 800);
    assert_eq!(ScreenConfig::default_height(), 600);
    let c = Config::default_config();
    assert_eq!(c.screen, ScreenConfig { full_screen: false, width: 800, height: 600 });
}

#[test]
fn hex_pairs_read_as_base_16() {
    assert_eq!(parse_hex_pair(b'0', b'0'), Some(0));
    assert_eq!(parse_hex_pair(b'0', b'A'), Some(10));
    assert_eq!(parse_hex_pair(b'f', b'f'), Some(255));
    assert_eq!(parse_hex_pair(b'+', b'7'), Some(7));
    assert_eq!(parse_hex_pair(b'g', b'0'), None);
    assert_eq!(parse_hex_pair(b'-', b'1'), None);
}

#[test]
fn hex_codes_are_two_uppercase_digits() {
    assert_eq!(hex_code_text(0), "00");
    assert_eq!(hex_code_text(10), "0A");
    assert_eq!(hex_code_text(171), "AB");
    assert_eq!(hex_code_text(255), "FF");
}

#[test]
fn load_builds_box_from_longest_line() {
    let tile = EnvTileLoadHandler::load(data(&["a", "b"], vec![vec!["01", "0002"], vec![]])).ok().unwrap();
    let a = &tile.inner.voxels;
    assert_eq!(a.extent(), ((0, 0, 0), (2, 2, 2)));
    assert_eq!(a.get((0, 0, 0)), 1);
    assert_eq!(a.get((1, 0, 0)), 0);
    assert_eq!(a.get((1, 1, 0)), 2);
    assert_eq!(a.get((0, 0, 1)), 0);
    assert_eq!(tile.inner.name, "t");
}

#[test]
fn load_rejects_odd_line() {
    let r = EnvTileLoadHandler::load(data(&["a"], vec![vec!["01", "010"]]));
    assert_eq!(r.err(), Some(TileLoadError::OddLine { z: 0, y: 1 }));
}

#[test]
fn load_rejects_bad_characters() {
    let r = EnvTileLoadHandler::load(data(&["a"], vec![vec!["01"], vec!["00zz"]]));
    assert_eq!(r.err(), Some(TileLoadError::InvalidCharacters { z: 1, y: 0, x: 1 }));
}

#[test]
fn load_rejects_code_beyond_palette() {
    let r = EnvTileLoadHandler::load(data(&["a"], vec![vec!["0102"]]));
    assert_eq!(r.err(), Some(TileLoadError::InvalidMaterialIndex { material: 2, palette_len: 1 }));
}

#[test]
fn pallete_voxel_string_appends_new_materials() {
    let names: Vec<String> = vec!["x".to_string(), "y".to_string(), "z".to_string()];
    let t = Terrain::new_terrain(names, (0, 0, 0), 16, &TerrainFillStyle::FlatBoard { material: "x".to_string() });
    let mut pal: Vec<String> = Vec::new();
    assert_eq!(t.get_pallete_voxel_string(&TerrainVoxel(0), &mut pal), "00");
    assert!(pal.is_empty());
    assert_eq!(t.get_pallete_voxel_string(&TerrainVoxel(3), &mut pal), "01");
    assert_eq!(t.get_pallete_voxel_string(&TerrainVoxel(1), &mut pal), "02");
    assert_eq!(t.get_pallete_voxel_string(&TerrainVoxel(3), &mut pal), "01");
    assert_eq!(pal, vec!["z".to_string(), "x".to_string()]);
}

#[test]
fn loadable_spots_fields_cut_across_characters() {
    assert!(EnvTileLoadHandler::loadable(&data(&["a"], vec![vec!["0101"]])));
    // the second field would start inside the two-byte 'é'
    assert!(!EnvTileLoadHandler::loadable(&data(&["a"], vec![vec!["0\u{e9}0"]])));
    // reading stops at the odd line before anything is cut
    assert!(EnvTileLoadHandler::loadable(&data(&["a"], vec![vec!["010"], vec!["0\u{e9}0"]])));
    // a whole 'é' in one field is just not a number
    assert!(EnvTileLoadHandler::loadable(&data(&["a"], vec![vec!["\u{e9}00"]])));
    let r = EnvTileLoadHandler::load(data(&["a"], vec![vec!["\u{e9}00"]]));
    assert_eq!(r.err(), Some(TileLoadError::InvalidCharacters { z: 0, y: 0, x: 0 }));
}
