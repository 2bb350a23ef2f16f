//! File names of tiles and tilesets, and the lists of tile files that tileset files hold.

use crate::tile::{EnvTileAsset, EnvTileExporter};
use vstd::prelude::*;
use vstd::string::{StrSliceExecFns, StringExecFns};

verus! {

/// The text `s` in lower case, as Rust's `str::to_lowercase` gives it.
pub uninterp spec fn lowercase(s: Seq<char>) -> Seq<char>;

/// `str::to_lowercase`: the lower-case form of `s` (Unicode case mapping); its result is a
/// function of `s` alone.
#[verifier::external_body]
fn to_lowercase(s: &str) -> (r: String)
    ensures
        r@ == lowercase(s@),
{
    s.to_lowercase()
}

/// `s` with every space turned into an underscore.
pub open spec fn spaces_to_underscores(s: Seq<char>) -> Seq<char> {
    s.map_values(|c: char| if c == ' ' { '_' } else { c })
}

/// The file name (without extension) a tile or tileset named `name` is stored under.
pub open spec fn tile_file_name(name: Seq<char>) -> Seq<char> {
    spaces_to_underscores(lowercase(name))
}

/// `s` with every space turned into an underscore.
pub fn replace_spaces(s: &str) -> (r: String)
    ensures
        r@ == spaces_to_underscores(s@),
{
    let n = s.unicode_len();
    let mut r = String::new();
    let mut i: usize = 0;
    while i < n
        invariant
            i <= n,
            n == s@.len(),
            r@ == spaces_to_underscores(s@.take(i as int)),
        decreases n - i,
    {
        let c = s.get_char(i);
        if c == ' ' {
            r.append("_");
            proof {
                reveal_strlit("_");
            }
        } else {
            r.append(s.substring_char(i, i + 1));
        }
        proof {
            assert(s@.take(i + 1) =~= s@.take(i as int).push(c));
            assert(spaces_to_underscores(s@.take(i + 1)) =~= spaces_to_underscores(s@.take(i as int)).push(
                if c == ' ' { '_' } else { c },
            ));
            if c == ' ' {
                assert("_"@ =~= seq!['_']);
            } else {
                assert(s@.subrange(i as int, i + 1) =~= seq![c]);
            }
        }
        i = i + 1;
    }
    proof {
        assert(s@.take(n as int) =~= s@);
    }
    r
}

impl EnvTileExporter {
    /// The file name (without extension) of the tile named `name`: lower case, spaces made
    /// underscores.
    pub fn get_tile_file_name(name: &str) -> (r: String)
        ensures
            r@ == tile_file_name(name@),
    {
        let lower = to_lowercase(name);
        replace_spaces(lower.as_str())
    }

    /// Where the tile named `name` is stored: `assets/tiles/<file name>.tile`.
    pub fn get_tile_path(name: &str) -> (r: String)
        ensures
            r@ == "assets/tiles/"@ + tile_file_name(name@) + ".tile"@,
    {
        let mut path = String::from_str("assets/tiles/");
        let file = EnvTileExporter::get_tile_file_name(name);
        path.append(file.as_str());
        path.append(".tile");
        path
    }
}

/// Writes tileset files.
pub struct EnvTileSetExporter;

impl EnvTileSetExporter {
    /// Where the tileset named `name` is stored: `assets/tiles/<file name>.tileset`.
    pub fn get_tileset_path(name: &str) -> (r: String)
        ensures
            r@ == "assets/tiles/"@ + tile_file_name(name@) + ".tileset"@,
    {
        let mut path = String::from_str("assets/tiles/");
        let file = EnvTileExporter::get_tile_file_name(name);
        path.append(file.as_str());
        path.append(".tileset");
        path
    }
}

/// A tileset whose tiles are loaded.
pub struct LoadedTileSet {
    pub name: String,
    pub tiles: Vec<EnvTileAsset>,
}

/// The first tile named `tile_name` in the first tileset named `tileset_name`, if any.
pub fn find_tile<'a>(tilesets: &'a Vec<LoadedTileSet>, tileset_name: &str, tile_name: &str) -> (r: Option<&'a EnvTileAsset>)
    ensures
        match r {
            Some(t) => exists|i: int, j: int| {
                &&& 0 <= i < tilesets@.len()
                &&& tilesets@[i].name@ == tileset_name@
                &&& forall|k: int| 0 <= k < i ==> #[trigger] tilesets@[k].name@ != tileset_name@
                &&& 0 <= j < tilesets@[i].tiles@.len()
                &&& *t == tilesets@[i].tiles@[j]
                &&& t.inner.name@ == tile_name@
                &&& forall|k: int| 0 <= k < j ==> #[trigger] tilesets@[i].tiles@[k].inner.name@ != tile_name@
            },
            None => forall|i: int| 0 <= i < tilesets@.len() && tilesets@[i].name@ == tileset_name@
                && (forall|k: int| 0 <= k < i ==> #[trigger] tilesets@[k].name@ != tileset_name@)
                ==> forall|j: int| 0 <= j < tilesets@[i].tiles@.len() ==> #[trigger] tilesets@[i].tiles@[j].inner.name@ != tile_name@,
        },
{
    let set_name = tileset_name.to_owned();
    let name = tile_name.to_owned();
    let mut i: usize = 0;
    while i < tilesets.len() && tilesets[i].name != set_name
        invariant
            i <= tilesets@.len(),
            set_name@ == tileset_name@,
            forall|k: int| 0 <= k < i ==> #[trigger] tilesets@[k].name@ != tileset_name@,
        decreases tilesets@.len() - i,
    {
        i = i + 1;
    }
    if i == tilesets.len() {
        return None;
    }
    let tiles = &tilesets[i].tiles;
    let mut j: usize = 0;
    while j < tiles.len() && tiles[j].inner.name != name
        invariant
            j <= tiles@.len(),
            *tiles == tilesets@[i as int].tiles,
            name@ == tile_name@,
            forall|k: int| 0 <= k < j ==> #[trigger] tiles@[k].inner.name@ != tile_name@,
        decreases tiles@.len() - j,
    {
        j = j + 1;
    }
    if j == tiles.len() {
        proof {
            assert forall|a: int| 0 <= a < tilesets@.len() && tilesets@[a].name@ == tileset_name@
                && (forall|k: int| 0 <= k < a ==> #[trigger] tilesets@[k].name@ != tileset_name@)
                implies forall|b: int| 0 <= b < tilesets@[a].tiles@.len() ==> #[trigger] tilesets@[a].tiles@[b].inner.name@ != tile_name@ by {
                assert(a == i) by {
                    if a < i {
                    } else if a > i {
                        assert(tilesets@[i as int].name@ != tileset_name@);
                    }
                }
            }
        }
        return None;
    }
    Some(&tiles[j])
}

/// A tileset as written to its file: its name and the file names of its tiles.
pub struct TileSetExportData {
    pub name: String,
    pub tiles: Vec<String>,
}

/// The file names of a list of tiles, in order.
pub open spec fn tile_file_names(tiles: Seq<EnvTileAsset>) -> Seq<Seq<char>> {
    tiles.map_values(|t: EnvTileAsset| tile_file_name(t.inner.name@))
}

/// The character sequences of a list of strings.
pub open spec fn views(v: Seq<String>) -> Seq<Seq<char>> {
    v.map_values(|s: String| s@)
}

impl TileSetExportData {
    /// The export form of a loaded tileset: its name and its tiles' file names, in order.
    pub fn new(tileset: &LoadedTileSet) -> (d: TileSetExportData)
        ensures
            d.name@ == tileset.name@,
            views(d.tiles@) == tile_file_names(tileset.tiles@),
    {
        let mut tiles: Vec<String> = Vec::new();
        let mut i: usize = 0;
        while i < tileset.tiles.len()
            invariant
                i <= tileset.tiles@.len(),
                views(tiles@) == tile_file_names(tileset.tiles@.take(i as int)),
            decreases tileset.tiles@.len() - i,
        {
            let t = &tileset.tiles[i];
            let f = EnvTileExporter::get_tile_file_name(t.inner.name.as_str());
            let ghost t0 = tiles@;
            tiles.push(f);
            proof {
                assert(f@ == tile_file_name(tileset.tiles@[i as int].inner.name@));
                assert(tileset.tiles@.take(i + 1) =~= tileset.tiles@.take(i as int).push(tileset.tiles@[i as int]));
                assert(views(tiles@) =~= views(t0).push(f@));
                assert(tile_file_names(tileset.tiles@.take(i + 1)) =~= tile_file_names(tileset.tiles@.take(i as int)).push(f@));
            }
            i = i + 1;
        }
        proof {
            assert(tileset.tiles@.take(tileset.tiles@.len() as int) =~= tileset.tiles@);
        }
        TileSetExportData { name: tileset.name.clone(), tiles }
    }
}

/// All tilesets as written to the tilesets file.
pub struct TileSetsExportData {
    pub tilesets: Vec<TileSetExportData>,
}

impl TileSetsExportData {
    /// The export form of the loaded tilesets, with the file of the new tile `new_tile`
    /// appended to every tileset named `new_tile_tileset`.
    pub fn new(tilesets: &Vec<LoadedTileSet>, new_tile_tileset: &str, new_tile: &str) -> (d: TileSetsExportData)
        ensures
            d.tilesets@.len() == tilesets@.len(),
            forall|i: int| 0 <= i < tilesets@.len() ==> {
                let e = #[trigger] d.tilesets@[i];
                let t = tilesets@[i];
                &&& e.name@ == t.name@
                &&& views(e.tiles@) == if t.name@ == new_tile_tileset@ {
                    tile_file_names(t.tiles@).push(tile_file_name(new_tile@))
                } else {
                    tile_file_names(t.tiles@)
                }
            },
    {
        let mut out: Vec<TileSetExportData> = Vec::new();
        let mut i: usize = 0;
        while i < tilesets.len()
            invariant
                i <= tilesets@.len(),
                out@.len() == i,
                forall|j: int| 0 <= j < i ==> {
                    let e = #[trigger] out@[j];
                    let t = tilesets@[j];
                    &&& e.name@ == t.name@
                    &&& views(e.tiles@) == if t.name@ == new_tile_tileset@ {
                        tile_file_names(t.tiles@).push(tile_file_name(new_tile@))
                    } else {
                        tile_file_names(t.tiles@)
                    }
                },
            decreases tilesets@.len() - i,
        {
            let mut e = TileSetExportData::new(&tilesets[i]);
            let target = new_tile_tileset.to_owned();
            if e.name == target {
                let f = EnvTileExporter::get_tile_file_name(new_tile);
                let ghost before = e.tiles@;
                e.tiles.push(f);
                proof {
                    assert(views(e.tiles@) =~= views(before).push(f@));
                }
            }
            let ghost o0 = out@;
            out.push(e);
            proof {
                assert forall|j: int| 0 <= j < i + 1 implies {
                    let e = #[trigger] out@[j];
                    let t = tilesets@[j];
                    &&& e.name@ == t.name@
                    &&& views(e.tiles@) == if t.name@ == new_tile_tileset@ {
                        tile_file_names(t.tiles@).push(tile_file_name(new_tile@))
                    } else {
                        tile_file_names(t.tiles@)
                    }
                } by {
                    if j < i {
                        assert(out@[j] == o0[j]);
                    }
                }
            }
            i = i + 1;
        }
        TileSetsExportData { tilesets: out }
    }
}

} // verus!
