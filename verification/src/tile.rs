//! The tile file format: a palette of material names and, per z slice and
//! y row, a line of two-digit hexadecimal material codes (one pair per x).

use crate::terrain::{distinct_names, string_views, Terrain, TerrainVoxel};
use crate::voxels::{in_box, pt, storable_box, VoxelArray};
use std::sync::Arc;
use vstd::prelude::*;
use vstd::string::StringExecFns;
use vstd::utf8::encode_utf8;

verus! {

// ---------------------------------------------------------------------------
// Specification of the format, over the bytes of each line.
// ---------------------------------------------------------------------------

/// The value of a hexadecimal digit byte (`0-9`, `a-f`, `A-F`).
pub open spec fn hex_value(b: u8) -> Option<u16> {
    if 48 <= b <= 57 {
        Some((b - 48) as u16)
    } else if 65 <= b <= 70 {
        Some((b - 55) as u16)
    } else if 97 <= b <= 102 {
        Some((b - 87) as u16)
    } else {
        None
    }
}

/// The material code that a two-byte field denotes, read as an unsigned
/// base-16 number: two digits, or a `+` sign followed by one digit.
pub open spec fn pair_value(b0: u8, b1: u8) -> Option<u16> {
    if b0 == 43 {
        hex_value(b1)
    } else {
        match (hex_value(b0), hex_value(b1)) {
            (Some(h), Some(l)) => Some((16 * h + l) as u16),
            _ => None,
        }
    }
}

/// A UTF-8 continuation byte, which never starts a character.
pub open spec fn is_continuation(b: u8) -> bool {
    0x80 <= b < 0xC0
}

/// Whether the field at pair index `x` of `line` starts and ends on character boundaries,
/// so that it can be cut out of the line as a string.
pub open spec fn pair_sliceable(line: Seq<u8>, x: int) -> bool {
    &&& !is_continuation(line[2 * x])
    &&& (2 * x + 2 == line.len() || !is_continuation(line[2 * x + 2]))
}

/// How reading one field ends.
pub enum PairScan {
    /// A material code within the palette.
    Material(u16),
    /// The field cannot be cut out of the line.
    NotSliceable,
    /// The field is not a base-16 number.
    BadChars,
    /// The code exceeds the number of palette entries.
    OutOfPalette(u16),
}

/// Reading the field at pair index `x` of a line, with a palette of `npal` entries.
/// The palette size is compared as a `u16`, as the format stores codes in 16 bits.
pub open spec fn scan_pair(line: Seq<u8>, x: int, npal: nat) -> PairScan {
    if !pair_sliceable(line, x) {
        PairScan::NotSliceable
    } else {
        match pair_value(line[2 * x], line[2 * x + 1]) {
            None => PairScan::BadChars,
            Some(m) => if m > npal % 65536 {
                PairScan::OutOfPalette(m)
            } else {
                PairScan::Material(m)
            },
        }
    }
}

/// How reading one line ends.
pub enum LineScan {
    /// Every field holds a material code within the palette.
    Clean,
    /// The line has an odd number of bytes.
    OddLength,
    /// The first field at which reading stops, and why.
    Stopped(int, PairScan),
}

/// Reading the fields of `line` from pair index `x` on.
pub open spec fn scan_pairs_from(line: Seq<u8>, npal: nat, x: nat) -> LineScan
    decreases line.len() - x,
{
    if 2 * x >= line.len() {
        LineScan::Clean
    } else {
        match scan_pair(line, x as int, npal) {
            PairScan::Material(_) => scan_pairs_from(line, npal, x + 1),
            s => LineScan::Stopped(x as int, s),
        }
    }
}

/// Reading a whole line.
pub open spec fn scan_line(line: Seq<u8>, npal: nat) -> LineScan {
    if line.len() % 2 != 0 {
        LineScan::OddLength
    } else {
        scan_pairs_from(line, npal, 0)
    }
}

/// The first line of a z slice, from row `y` on, that does not read cleanly.
pub open spec fn first_bad_row(slice: Seq<Seq<u8>>, npal: nat, y: nat) -> Option<(int, LineScan)>
    decreases slice.len() - y,
{
    if y >= slice.len() {
        None
    } else if scan_line(slice[y as int], npal) is Clean {
        first_bad_row(slice, npal, y + 1)
    } else {
        Some((y as int, scan_line(slice[y as int], npal)))
    }
}

/// The first line of the tile, from slice `z` on, that does not read cleanly, as (z, y, outcome).
pub open spec fn first_bad_line(data: Seq<Seq<Seq<u8>>>, npal: nat, z: nat) -> Option<(int, int, LineScan)>
    decreases data.len() - z,
{
    if z >= data.len() {
        None
    } else {
        match first_bad_row(data[z as int], npal, 0) {
            Some((y, s)) => Some((z as int, y, s)),
            None => first_bad_line(data, npal, z + 1),
        }
    }
}

/// Whether reading the tile cuts a field across a character boundary, where slicing the line
/// panics.
pub open spec fn tile_aborts(data: Seq<Seq<Seq<u8>>>, npal: nat) -> bool {
    first_bad_line(data, npal, 0) matches Some((_, _, LineScan::Stopped(_, PairScan::NotSliceable)))
}

/// The bytes of each line of a tile's text.
pub open spec fn tile_bytes(voxels: Seq<Vec<String>>) -> Seq<Seq<Seq<u8>>> {
    voxels.map_values(|slice: Vec<String>| slice@.map_values(|line: String| encode_utf8(line@)))
}

/// The largest number of fields in a line of a slice.
pub open spec fn row_pairs_max(slice: Seq<Seq<u8>>) -> nat
    decreases slice.len(),
{
    if slice.len() == 0 {
        0
    } else {
        let rest = row_pairs_max(slice.drop_last());
        let here = slice.last().len() / 2;
        if rest >= here { rest } else { here }
    }
}

/// The largest number of fields in a line of the tile: its size along x.
pub open spec fn tile_pairs_max(data: Seq<Seq<Seq<u8>>>) -> nat
    decreases data.len(),
{
    if data.len() == 0 {
        0
    } else {
        let rest = tile_pairs_max(data.drop_last());
        let here = row_pairs_max(data.last());
        if rest >= here { rest } else { here }
    }
}

/// The largest number of rows in a slice: the tile's size along y.
pub open spec fn tile_rows_max(data: Seq<Seq<Seq<u8>>>) -> nat
    decreases data.len(),
{
    if data.len() == 0 {
        0
    } else {
        let rest = tile_rows_max(data.drop_last());
        let here = data.last().len();
        if rest >= here { rest } else { here }
    }
}

/// The size of the tile along x, y and z.
pub open spec fn tile_shape(data: Seq<Seq<Seq<u8>>>) -> (int, int, int) {
    (tile_pairs_max(data) as int, tile_rows_max(data) as int, data.len() as int)
}

/// The material code the tile text gives the voxel at `p`: the field at x of row y of slice z,
/// or empty (0) where the text has no field.
pub open spec fn tile_voxel(data: Seq<Seq<Seq<u8>>>, p: (int, int, int)) -> u16 {
    if 0 <= p.2 < data.len() && 0 <= p.1 < data[p.2].len() && 0 <= p.0 && 2 * p.0 + 1
        < data[p.2][p.1].len() {
        match pair_value(data[p.2][p.1][2 * p.0], data[p.2][p.1][2 * p.0 + 1]) {
            Some(m) => m,
            None => 0,
        }
    } else {
        0
    }
}

/// Whether the dense array the loader builds for this tile is one the voxel storage can hold.
pub open spec fn tile_storable(data: Seq<Seq<Seq<u8>>>) -> bool {
    storable_box((0, 0, 0), tile_shape(data))
}

// ---------------------------------------------------------------------------
// Data types.
// ---------------------------------------------------------------------------

/// A tile as stored on disk: its name, its material palette and the hex text of its voxels,
/// indexed by z slice then y row.
pub struct EnvTileAssetData {
    pub name: String,
    pub palette: Vec<String>,
    pub voxels: Vec<Vec<String>>,
}

/// A loaded tile: palette codes in a dense voxel box with least point (0, 0, 0).
pub struct EnvTileAssetInner {
    pub name: String,
    pub palette: Vec<String>,
    pub voxels: VoxelArray,
}

/// A shared handle to a loaded tile.
pub struct EnvTileAsset {
    pub inner: Arc<EnvTileAssetInner>,
}

/// Why a tile's text could not be read.
#[derive(Debug, PartialEq, Eq, Structural)]
pub enum TileLoadError {
    /// The line of row `y` of slice `z` has an odd number of bytes.
    OddLine { z: usize, y: usize },
    /// The field at pair index `x` of that line is not a base-16 number.
    InvalidCharacters { z: usize, y: usize, x: usize },
    /// A field holds `material`, beyond the `palette_len` entries of the palette.
    InvalidMaterialIndex { material: u16, palette_len: usize },
}

/// The error that reading stops with, if any.
pub open spec fn tile_error(data: Seq<Seq<Seq<u8>>>, npal: nat) -> Option<TileLoadError> {
    match first_bad_line(data, npal, 0) {
        None => None,
        Some((z, y, LineScan::OddLength)) => Some(TileLoadError::OddLine { z: z as usize, y: y as usize }),
        Some((z, y, LineScan::Stopped(x, PairScan::BadChars))) => Some(
            TileLoadError::InvalidCharacters { z: z as usize, y: y as usize, x: x as usize },
        ),
        Some((_, _, LineScan::Stopped(_, PairScan::OutOfPalette(m)))) => Some(
            TileLoadError::InvalidMaterialIndex { material: m, palette_len: npal as usize },
        ),
        Some(_) => None,
    }
}

/// Loads tiles from their on-disk form.
pub struct EnvTileLoadHandler;

// ---------------------------------------------------------------------------
// Lemmas about the scans and the maxima.
// ---------------------------------------------------------------------------

proof fn lemma_row_pairs_max(slice: Seq<Seq<u8>>, y: int)
    requires
        0 <= y < slice.len(),
    ensures
        slice[y].len() / 2 <= row_pairs_max(slice),
    decreases slice.len(),
{
    if y < slice.len() - 1 {
        lemma_row_pairs_max(slice.drop_last(), y);
    }
}

proof fn lemma_tile_pairs_max(data: Seq<Seq<Seq<u8>>>, z: int, y: int)
    requires
        0 <= z < data.len(),
        0 <= y < data[z].len(),
    ensures
        data[z][y].len() / 2 <= tile_pairs_max(data),
    decreases data.len(),
{
    if z < data.len() - 1 {
        lemma_tile_pairs_max(data.drop_last(), z, y);
    } else {
        lemma_row_pairs_max(data[z], y);
    }
}

proof fn lemma_tile_rows_max(data: Seq<Seq<Seq<u8>>>, z: int)
    requires
        0 <= z < data.len(),
    ensures
        data[z].len() <= tile_rows_max(data),
    decreases data.len(),
{
    if z < data.len() - 1 {
        lemma_tile_rows_max(data.drop_last(), z);
    }
}

/// Whether voxel `p` comes before the field at (x, y, z) in reading order.
pub open spec fn read_before(p: (int, int, int), x: int, y: int, z: int) -> bool {
    p.2 < z || (p.2 == z && (p.1 < y || (p.1 == y && p.0 < x)))
}

fn hex_digit(b: u8) -> (r: Option<u16>)
    ensures
        r == hex_value(b),
{
    if 48 <= b && b <= 57 {
        Some((b - 48) as u16)
    } else if 65 <= b && b <= 70 {
        Some((b - 55) as u16)
    } else if 97 <= b && b <= 102 {
        Some((b - 87) as u16)
    } else {
        None
    }
}

/// Reads a two-byte field as an unsigned base-16 number.
pub fn parse_hex_pair(b0: u8, b1: u8) -> (r: Option<u16>)
    ensures
        r == pair_value(b0, b1),
{
    if b0 == 43 {
        hex_digit(b1)
    } else {
        match (hex_digit(b0), hex_digit(b1)) {
            (Some(h), Some(l)) => Some(16 * h + l),
            _ => None,
        }
    }
}

impl EnvTileLoadHandler {
    /// Reads a tile from its on-disk form. Reading goes slice by slice, row by row and field by
    /// field, and stops at the first line of odd length, field that is not a base-16 number, or
    /// code beyond the palette; otherwise every field's code lands at its (x, y, z) in a box
    /// whose sides are the longest line, the most rows and the number of slices.
    pub fn load(asset_data: EnvTileAssetData) -> (res: Result<EnvTileAsset, TileLoadError>)
        requires
            !tile_aborts(tile_bytes(asset_data.voxels@), asset_data.palette@.len()),
            tile_storable(tile_bytes(asset_data.voxels@)),
        ensures
            res is Err <==> tile_error(tile_bytes(asset_data.voxels@), asset_data.palette@.len()) is Some,
            res matches Err(e) ==> Some(e) == tile_error(
                tile_bytes(asset_data.voxels@),
                asset_data.palette@.len(),
            ),
            res matches Ok(asset) ==> {
                let data = tile_bytes(asset_data.voxels@);
                &&& asset.inner.name == asset_data.name
                &&& asset.inner.palette == asset_data.palette
                &&& asset.inner.voxels.min() == (0int, 0int, 0int)
                &&& asset.inner.voxels.shape() == tile_shape(data)
                &&& forall|p: (int, int, int)| #[trigger]
                    asset.inner.voxels.contains(p) ==> asset.inner.voxels.at(p) == tile_voxel(data, p)
            },
    {
        let ghost data = tile_bytes(asset_data.voxels@);
        let ghost npal = asset_data.palette@.len();
        let voxels = &asset_data.voxels;
        let z_len = voxels.len();

        // The size of the box: the longest line, the most rows and the number of slices.
        let (x_max, y_max, _) = tile_extent(voxels);
        let shape = (x_max as i32, y_max as i32, z_len as i32);
        let mut grid = VoxelArray::fill((0, 0, 0), shape, 0);

        // Read every field in order, stopping at the first that is not a code of the palette.
        let npal_code: u16 = (asset_data.palette.len() % 65536) as u16;
        let mut z: usize = 0;
        while z < z_len
            invariant
                z <= z_len,
                z_len == voxels@.len() == data.len(),
                data == tile_bytes(voxels@),
                voxels@ == asset_data.voxels@,
                npal == asset_data.palette@.len(),
                npal_code == npal % 65536,
                !tile_aborts(data, npal),
                tile_storable(data),
                first_bad_line(data, npal, 0) == first_bad_line(data, npal, z as nat),
                grid.min() == (0int, 0int, 0int),
                grid.shape() == tile_shape(data),
                forall|p: (int, int, int)| #[trigger] grid.contains(p) ==>
                    grid.at(p) == if read_before(p, 0, 0, z as int) { tile_voxel(data, p) } else { 0 },
            decreases z_len - z,
        {
            let slice = &voxels[z];
            let mut y: usize = 0;
            while y < slice.len()
                invariant
                    y <= slice@.len(),
                    slice == voxels@[z as int],
                    z < z_len == voxels@.len() == data.len(),
                    data == tile_bytes(voxels@),
                voxels@ == asset_data.voxels@,
                    npal == asset_data.palette@.len(),
                    npal_code == npal % 65536,
                    !tile_aborts(data, npal),
                    tile_storable(data),
                    first_bad_line(data, npal, 0) == first_bad_line(data, npal, z as nat),
                    first_bad_row(data[z as int], npal, 0) == first_bad_row(data[z as int], npal, y as nat),
                    grid.min() == (0int, 0int, 0int),
                    grid.shape() == tile_shape(data),
                    forall|p: (int, int, int)| #[trigger] grid.contains(p) ==>
                        grid.at(p) == if read_before(p, 0, y as int, z as int) { tile_voxel(data, p) } else { 0 },
                decreases slice@.len() - y,
            {
                let bytes = slice[y].as_str().as_bytes();
                let ghost line = data[z as int][y as int];
                assert(bytes@ == line);
                assert(data[z as int].len() == slice@.len());
                let len = bytes.len();
                if len % 2 != 0 {
                    proof {
                        assert(scan_line(line, npal) == LineScan::OddLength);
                        assert(first_bad_row(data[z as int], npal, y as nat) == Some((y as int, LineScan::OddLength)));
                        assert(first_bad_line(data, npal, z as nat) == Some((z as int, y as int, LineScan::OddLength)));
                        assert(first_bad_line(data, npal, 0) == Some((z as int, y as int, LineScan::OddLength)));
                        assert(tile_error(data, npal) == Some(TileLoadError::OddLine { z, y }));
                    }
                    return Err(TileLoadError::OddLine { z, y });
                }
                let mut x: usize = 0;
                while 2 * x < len
                    invariant
                        len == line.len(),
                        len % 2 == 0,
                        bytes@ == line,
                        line == data[z as int][y as int],
                        2 * x <= len,
                        y < slice@.len(),
                        slice == voxels@[z as int],
                        z < z_len == voxels@.len() == data.len(),
                        data == tile_bytes(voxels@),
                voxels@ == asset_data.voxels@,
                        npal == asset_data.palette@.len(),
                        npal_code == npal % 65536,
                        !tile_aborts(data, npal),
                        tile_storable(data),
                        first_bad_line(data, npal, 0) == first_bad_line(data, npal, z as nat),
                        first_bad_row(data[z as int], npal, 0) == first_bad_row(data[z as int], npal, y as nat),
                        scan_line(line, npal) == scan_pairs_from(line, npal, x as nat),
                        grid.min() == (0int, 0int, 0int),
                        grid.shape() == tile_shape(data),
                        forall|p: (int, int, int)| #[trigger] grid.contains(p) ==>
                            grid.at(p) == if read_before(p, x as int, y as int, z as int) { tile_voxel(data, p) } else { 0 },
                    decreases len - 2 * x,
                {
                    proof {
                        if !pair_sliceable(line, x as int) {
                            assert(tile_aborts(data, npal));
                        }
                    }
                    match parse_hex_pair(bytes[2 * x], bytes[2 * x + 1]) {
                        None => {
                            proof {
                                let st = LineScan::Stopped(x as int, PairScan::BadChars);
                                assert(scan_pair(line, x as int, npal) == PairScan::BadChars);
                                assert(scan_line(line, npal) == st);
                                assert(first_bad_row(data[z as int], npal, y as nat) == Some((y as int, st)));
                                assert(first_bad_line(data, npal, z as nat) == Some((z as int, y as int, st)));
                            }
                            return Err(TileLoadError::InvalidCharacters { z, y, x });
                        },
                        Some(mat) => {
                            if mat > npal_code {
                                proof {
                                    let st = LineScan::Stopped(x as int, PairScan::OutOfPalette(mat));
                                    assert(scan_pair(line, x as int, npal) == PairScan::OutOfPalette(mat));
                                    assert(scan_line(line, npal) == st);
                                    assert(first_bad_row(data[z as int], npal, y as nat) == Some((y as int, st)));
                                    assert(first_bad_line(data, npal, z as nat) == Some((z as int, y as int, st)));
                                }
                                return Err(
                                    TileLoadError::InvalidMaterialIndex {
                                        material: mat,
                                        palette_len: asset_data.palette.len(),
                                    },
                                );
                            }
                            proof {
                                lemma_tile_pairs_max(data, z as int, y as int);
                                lemma_tile_rows_max(data, z as int);
                                assert(x < tile_pairs_max(data));
                                assert(y < tile_rows_max(data));
                                assert(grid.contains((x as int, y as int, z as int)));
                                assert(scan_pair(line, x as int, npal) == PairScan::Material(mat));
                            }
                            let ghost g0 = grid;
                            grid.set((x as i32, y as i32, z as i32), mat);
                            assert forall|p: (int, int, int)| #[trigger] grid.contains(p) implies
                                grid.at(p) == if read_before(p, x + 1, y as int, z as int) { tile_voxel(data, p) } else { 0 } by {
                                if p == (x as int, y as int, z as int) {
                                    assert(tile_voxel(data, p) == mat);
                                } else {
                                    assert(g0.contains(p));
                                    assert(grid.at(p) == g0.at(p));
                                }
                            }
                        },
                    }
                    x = x + 1;
                }
                proof {
                    assert(scan_line(line, npal) is Clean);
                    assert forall|p: (int, int, int)| #[trigger] grid.contains(p) implies
                        grid.at(p) == if read_before(p, 0, y + 1, z as int) { tile_voxel(data, p) } else { 0 } by {
                        if p.2 == z && p.1 == y && p.0 >= x {
                            assert(tile_voxel(data, p) == 0);
                        }
                    }
                }
                y = y + 1;
            }
            proof {
                assert forall|p: (int, int, int)| #[trigger] grid.contains(p) implies
                    grid.at(p) == if read_before(p, 0, 0, z + 1) { tile_voxel(data, p) } else { 0 } by {
                    if p.2 == z && p.1 >= y {
                        assert(tile_voxel(data, p) == 0);
                    }
                }
            }
            z = z + 1;
        }
        proof {
            assert forall|p: (int, int, int)| #[trigger] grid.contains(p) implies grid.at(p) == tile_voxel(data, p) by {
                assert(read_before(p, 0, 0, z as int));
            }
        }
        Ok(
            EnvTileAsset {
                inner: Arc::new(
                    EnvTileAssetInner { name: asset_data.name, palette: asset_data.palette, voxels: grid },
                ),
            },
        )
    }
}

/// The shape `load` gives the tile: the longest line, the most rows and the number of slices.
fn tile_extent(voxels: &Vec<Vec<String>>) -> (r: (usize, usize, usize))
    ensures
        r.0 == tile_pairs_max(tile_bytes(voxels@)),
        r.1 == tile_rows_max(tile_bytes(voxels@)),
        r.2 == voxels@.len(),
{
    let ghost data = tile_bytes(voxels@);
    let z_len = voxels.len();
    let mut x_max: usize = 0;
    let mut y_max: usize = 0;
    let mut z: usize = 0;
    while z < z_len
        invariant
            z <= z_len,
            z_len == voxels@.len(),
            data == tile_bytes(voxels@),
            x_max == tile_pairs_max(data.take(z as int)),
            y_max == tile_rows_max(data.take(z as int)),
        decreases z_len - z,
    {
        let slice = &voxels[z];
        let mut row_max: usize = 0;
        let mut y: usize = 0;
        while y < slice.len()
            invariant
                y <= slice@.len(),
                slice == voxels@[z as int],
                z < z_len == voxels@.len(),
                data == tile_bytes(voxels@),
                row_max == row_pairs_max(data[z as int].take(y as int)),
            decreases slice@.len() - y,
        {
            let n = slice[y].as_str().as_bytes().len() / 2;
            proof {
                assert(data[z as int][y as int] == encode_utf8(slice@[y as int]@));
                assert(data[z as int].take(y + 1).drop_last() =~= data[z as int].take(y as int));
                assert(data[z as int].take(y + 1).last() == data[z as int][y as int]);
            }
            if n > row_max {
                row_max = n;
            }
            y = y + 1;
        }
        proof {
            assert(data[z as int].take(y as int) =~= data[z as int]);
            assert(data.take(z + 1).drop_last() =~= data.take(z as int));
        }
        if row_max > x_max {
            x_max = row_max;
        }
        if slice.len() > y_max {
            y_max = slice.len();
        }
        z = z + 1;
    }
    proof {
        assert(data.take(z_len as int) =~= data);
    }
    (x_max, y_max, z_len)
}

impl EnvTileLoadHandler {
    /// Whether `load` can read the tile: reading never cuts a field across a character
    /// boundary before it stops, and the tile's box fits the voxel storage.
    pub fn loadable(asset_data: &EnvTileAssetData) -> (r: bool)
        ensures
            r == (!tile_aborts(tile_bytes(asset_data.voxels@), asset_data.palette@.len())
                && tile_storable(tile_bytes(asset_data.voxels@))),
    {
        let ghost data = tile_bytes(asset_data.voxels@);
        let ghost npal = asset_data.palette@.len();
        let (xs, ys, zs) = tile_extent(&asset_data.voxels);
        let limit: usize = 0x7fff_ffff;
        let storable = if xs > limit || ys > limit || zs > limit {
            false
        } else {
            let (a, b, c) = (xs as u64, ys as u64, zs as u64);
            assert(a * b <= 0x7fff_ffff * 0x7fff_ffff) by (nonlinear_arith)
                requires a <= 0x7fff_ffff, b <= 0x7fff_ffff;
            let ab = a * b;
            if ab > 0x7fff_ffff {
                false
            } else {
                assert(ab * c <= 0x7fff_ffff * 0x7fff_ffff) by (nonlinear_arith)
                    requires ab <= 0x7fff_ffff, c <= 0x7fff_ffff;
                ab * c <= 0x7fff_ffff
            }
        };
        proof {
            let (a, b, c) = (xs as int, ys as int, zs as int);
            if a <= 0x7fff_ffff && b <= 0x7fff_ffff && c <= 0x7fff_ffff {
                assert(a * b * c == (a * b) * c) by (nonlinear_arith);
            }
            assert(storable == tile_storable(data));
        }
        if !storable {
            return false;
        }
        let npal_code: u16 = (asset_data.palette.len() % 65536) as u16;
        let voxels = &asset_data.voxels;
        let z_len = voxels.len();
        let mut z: usize = 0;
        while z < z_len
            invariant
                z <= z_len,
                z_len == voxels@.len() == data.len(),
                data == tile_bytes(voxels@),
                voxels@ == asset_data.voxels@,
                npal == asset_data.palette@.len(),
                npal_code == npal % 65536,
                storable == tile_storable(data),
                storable,
                first_bad_line(data, npal, 0) == first_bad_line(data, npal, z as nat),
            decreases z_len - z,
        {
            let slice = &voxels[z];
            let mut y: usize = 0;
            while y < slice.len()
                invariant
                    y <= slice@.len(),
                    slice == voxels@[z as int],
                    z < z_len == voxels@.len() == data.len(),
                    data == tile_bytes(voxels@),
                    voxels@ == asset_data.voxels@,
                    npal == asset_data.palette@.len(),
                    npal_code == npal % 65536,
                    storable == tile_storable(data),
                    storable,
                    first_bad_line(data, npal, 0) == first_bad_line(data, npal, z as nat),
                    first_bad_row(data[z as int], npal, 0) == first_bad_row(data[z as int], npal, y as nat),
                decreases slice@.len() - y,
            {
                let bytes = slice[y].as_str().as_bytes();
                let ghost line = data[z as int][y as int];
                assert(bytes@ == line);
                assert(data[z as int].len() == slice@.len());
                let len = bytes.len();
                if len % 2 != 0 {
                    proof {
                        assert(scan_line(line, npal) == LineScan::OddLength);
                        assert(first_bad_row(data[z as int], npal, y as nat) == Some((y as int, LineScan::OddLength)));
                        assert(first_bad_line(data, npal, z as nat) == Some((z as int, y as int, LineScan::OddLength)));
                    }
                    return true;
                }
                let mut x: usize = 0;
                while 2 * x < len
                    invariant
                        len == line.len(),
                        len % 2 == 0,
                        bytes@ == line,
                        line == data[z as int][y as int],
                        2 * x <= len,
                        y < slice@.len(),
                        slice == voxels@[z as int],
                        z < z_len == voxels@.len() == data.len(),
                        data == tile_bytes(voxels@),
                        voxels@ == asset_data.voxels@,
                        npal == asset_data.palette@.len(),
                        npal_code == npal % 65536,
                        storable == tile_storable(data),
                        storable,
                        first_bad_line(data, npal, 0) == first_bad_line(data, npal, z as nat),
                        first_bad_row(data[z as int], npal, 0) == first_bad_row(data[z as int], npal, y as nat),
                        scan_line(line, npal) == scan_pairs_from(line, npal, x as nat),
                    decreases len - 2 * x,
                {
                    let b0 = bytes[2 * x];
                    let starts = !(0x80 <= b0 && b0 < 0xC0);
                    let ends = 2 * x + 2 == len || {
                        let b2 = bytes[2 * x + 2];
                        !(0x80 <= b2 && b2 < 0xC0)
                    };
                    if !(starts && ends) {
                        proof {
                            let st = LineScan::Stopped(x as int, PairScan::NotSliceable);
                            assert(!pair_sliceable(line, x as int));
                            assert(scan_pair(line, x as int, npal) == PairScan::NotSliceable);
                            assert(scan_line(line, npal) == st);
                            assert(first_bad_row(data[z as int], npal, y as nat) == Some((y as int, st)));
                            assert(first_bad_line(data, npal, z as nat) == Some((z as int, y as int, st)));
                        }
                        return false;
                    }
                    match parse_hex_pair(bytes[2 * x], bytes[2 * x + 1]) {
                        None => {
                            proof {
                                let st = LineScan::Stopped(x as int, PairScan::BadChars);
                                assert(scan_pair(line, x as int, npal) == PairScan::BadChars);
                                assert(scan_line(line, npal) == st);
                                assert(first_bad_row(data[z as int], npal, y as nat) == Some((y as int, st)));
                                assert(first_bad_line(data, npal, z as nat) == Some((z as int, y as int, st)));
                            }
                            return true;
                        },
                        Some(mat) => {
                            if mat > npal_code {
                                proof {
                                    let st = LineScan::Stopped(x as int, PairScan::OutOfPalette(mat));
                                    assert(scan_pair(line, x as int, npal) == PairScan::OutOfPalette(mat));
                                    assert(scan_line(line, npal) == st);
                                    assert(first_bad_row(data[z as int], npal, y as nat) == Some((y as int, st)));
                                    assert(first_bad_line(data, npal, z as nat) == Some((z as int, y as int, st)));
                                }
                                return true;
                            }
                            proof {
                                assert(scan_pair(line, x as int, npal) == PairScan::Material(mat));
                            }
                        },
                    }
                    x = x + 1;
                }
                proof {
                    assert(scan_line(line, npal) is Clean);
                }
                y = y + 1;
            }
            z = z + 1;
        }
        true
    }
}

// ---------------------------------------------------------------------------
// Writing: hexadecimal codes and the palette.
// ---------------------------------------------------------------------------

/// The uppercase hexadecimal digit for `d` (0 to 15).
pub open spec fn hex_char(d: int) -> char {
    if d < 10 {
        (48 + d) as char
    } else {
        (55 + d) as char
    }
}

/// The two uppercase hexadecimal digits of a material code, as written in a tile line.
pub open spec fn code_text(c: u8) -> Seq<char> {
    seq![hex_char(c as int / 16), hex_char(c as int % 16)]
}

/// The code a palette gives a material name: its 1-based position, in 8 bits.
pub open spec fn palette_code(pal: Seq<Seq<char>>, name: Seq<char>) -> u8 {
    ((pal.index_of(name) + 1) % 256) as u8
}

/// The code written for voxel `v` of a terrain with materials `names`: 0 for empty,
/// else the palette code of its material's name.
pub open spec fn voxel_code(pal: Seq<Seq<char>>, names: Seq<Seq<char>>, v: u16) -> u8 {
    if v == 0 {
        0
    } else {
        palette_code(pal, names[v - 1])
    }
}

/// In a list without repeats, the position of the entry at `i` is `i`.
pub proof fn lemma_index_of_distinct(s: Seq<Seq<char>>, i: int)
    requires
        s.no_duplicates(),
        0 <= i < s.len(),
    ensures
        s.index_of(s[i]) == i,
{
    assert(s.contains(s[i]));
}

fn hex_digit_text(d: u8) -> (s: &'static str)
    requires
        d < 16,
    ensures
        s@ == seq![hex_char(d as int)],
{
    match d {
        0 => { proof { reveal_strlit("0"); assert("0"@ =~= seq![hex_char(0)]); } "0" },
        1 => { proof { reveal_strlit("1"); assert("1"@ =~= seq![hex_char(1)]); } "1" },
        2 => { proof { reveal_strlit("2"); assert("2"@ =~= seq![hex_char(2)]); } "2" },
        3 => { proof { reveal_strlit("3"); assert("3"@ =~= seq![hex_char(3)]); } "3" },
        4 => { proof { reveal_strlit("4"); assert("4"@ =~= seq![hex_char(4)]); } "4" },
        5 => { proof { reveal_strlit("5"); assert("5"@ =~= seq![hex_char(5)]); } "5" },
        6 => { proof { reveal_strlit("6"); assert("6"@ =~= seq![hex_char(6)]); } "6" },
        7 => { proof { reveal_strlit("7"); assert("7"@ =~= seq![hex_char(7)]); } "7" },
        8 => { proof { reveal_strlit("8"); assert("8"@ =~= seq![hex_char(8)]); } "8" },
        9 => { proof { reveal_strlit("9"); assert("9"@ =~= seq![hex_char(9)]); } "9" },
        10 => { proof { reveal_strlit("A"); assert("A"@ =~= seq![hex_char(10)]); } "A" },
        11 => { proof { reveal_strlit("B"); assert("B"@ =~= seq![hex_char(11)]); } "B" },
        12 => { proof { reveal_strlit("C"); assert("C"@ =~= seq![hex_char(12)]); } "C" },
        13 => { proof { reveal_strlit("D"); assert("D"@ =~= seq![hex_char(13)]); } "D" },
        14 => { proof { reveal_strlit("E"); assert("E"@ =~= seq![hex_char(14)]); } "E" },
        _ => { proof { reveal_strlit("F"); assert("F"@ =~= seq![hex_char(15)]); } "F" },
    }
}

/// A material code as two uppercase hexadecimal digits.
pub fn hex_code_text(c: u8) -> (s: String)
    ensures
        s@ == code_text(c),
{
    let mut s = String::new();
    s.append(hex_digit_text(c / 16));
    s.append(hex_digit_text(c % 16));
    proof {
        assert(s@ =~= code_text(c));
    }
    s
}

impl Terrain {
    /// The text written for a voxel while a tile is exported: "00" for empty, else the palette
    /// code of its material. A material not yet in the palette is appended to it first.
    pub fn get_pallete_voxel_string(&self, voxel: &TerrainVoxel, pallete: &mut Vec<String>) -> (s: String)
        requires
            distinct_names(string_views(old(pallete)@)),
            voxel.0 <= self.material_names().len(),
        ensures
            distinct_names(string_views(final(pallete)@)),
            voxel.0 == 0 ==> final(pallete)@ == old(pallete)@ && s@ == code_text(0),
            voxel.0 != 0 ==> {
                let n = self.material_names()[voxel.0 - 1];
                &&& string_views(old(pallete)@).contains(n) ==> final(pallete)@ == old(pallete)@
                &&& !string_views(old(pallete)@).contains(n) ==> string_views(final(pallete)@)
                    == string_views(old(pallete)@).push(n)
                &&& s@ == code_text(palette_code(string_views(final(pallete)@), n))
            },
    {
        if voxel.is_empty() {
            return hex_code_text(0);
        }
        let mat = self.material_name_by_voxel(voxel);
        let ghost n = self.material_names()[voxel.0 - 1];
        let ghost pal0 = string_views(pallete@);
        let mut i: usize = 0;
        while i < pallete.len()
            invariant
                i <= pallete@.len(),
                pallete@ == old(pallete)@,
                pal0 == string_views(pallete@),
                pal0.no_duplicates(),
                mat@ == n,
                voxel.0 != 0,
                voxel.0 <= self.material_names().len(),
                n == self.material_names()[voxel.0 - 1],
                forall|j: int| 0 <= j < i ==> pal0[j] != n,
            decreases pallete@.len() - i,
        {
            if pallete[i] == mat {
                proof {
                    lemma_index_of_distinct(pal0, i as int);
                }
                return hex_code_text(((i + 1) % 256) as u8);
            }
            i = i + 1;
        }
        pallete.push(mat);
        proof {
            let pal1 = string_views(pallete@);
            assert(pal1 =~= pal0.push(n));
            assert(!pal0.contains(n));
            assert(pal1.no_duplicates());
            lemma_index_of_distinct(pal1, pal0.len() as int);
        }
        hex_code_text((pallete.len() % 256) as u8)
    }
}

// ---------------------------------------------------------------------------
// Writing a whole tile.
// ---------------------------------------------------------------------------

/// The voxel at position `lp` relative to the least point of the box.
pub open spec fn local_at(a: VoxelArray, lp: (int, int, int)) -> u16 {
    a.at((a.min().0 + lp.0, a.min().1 + lp.1, a.min().2 + lp.2))
}

/// Whether `lp`, relative to the least point of the box, lies in the box.
pub open spec fn in_local(a: VoxelArray, lp: (int, int, int)) -> bool {
    in_box((0, 0, 0), a.shape(), lp)
}

/// Reading order of voxels: by z, then y, then x.
pub open spec fn lex_before(p: (int, int, int), q: (int, int, int)) -> bool {
    p.2 < q.2 || (p.2 == q.2 && (p.1 < q.1 || (p.1 == q.1 && p.0 < q.0)))
}

/// Whether the voxel at local position `lp` is of the material called `n`.
pub open spec fn has_material(a: VoxelArray, names: Seq<Seq<char>>, lp: (int, int, int), n: Seq<char>) -> bool {
    &&& in_local(a, lp)
    &&& local_at(a, lp) != 0
    &&& names[local_at(a, lp) - 1] == n
}

/// Whether every voxel of the box is empty or names a material of the table.
pub open spec fn codes_in_table(a: VoxelArray, names: Seq<Seq<char>>) -> bool {
    forall|lp: (int, int, int)| #[trigger] in_local(a, lp) ==> local_at(a, lp) <= names.len()
}

/// `first[i]` is where reading the box first meets material `pal[i]`, and these first
/// meetings come in palette order.
pub open spec fn first_uses(
    pal: Seq<Seq<char>>,
    a: VoxelArray,
    names: Seq<Seq<char>>,
    first: Seq<(int, int, int)>,
) -> bool {
    &&& first.len() == pal.len()
    &&& forall|i: int| 0 <= i < first.len() ==> #[trigger] has_material(a, names, first[i], pal[i])
    &&& forall|i: int, lq: (int, int, int)| 0 <= i < first.len() && #[trigger] has_material(a, names, lq, pal[i])
        ==> !lex_before(lq, first[i])
    &&& forall|i: int, j: int| 0 <= i < j < first.len() ==> lex_before(#[trigger] first[i], #[trigger] first[j])
}

/// The palette an export writes: each material used in the box, once, in the order in which
/// reading the box first meets it.
pub open spec fn first_use_palette(pal: Seq<Seq<char>>, a: VoxelArray, names: Seq<Seq<char>>) -> bool {
    &&& pal.no_duplicates()
    &&& forall|lp: (int, int, int)| #[trigger] in_local(a, lp) && local_at(a, lp) != 0 ==>
        pal.contains(names[local_at(a, lp) - 1])
    &&& exists|first: Seq<(int, int, int)>| #[trigger] first_uses(pal, a, names, first)
}

/// The text of the first `n` fields of row `y` of slice `z` (local coordinates).
pub open spec fn row_text(
    a: VoxelArray,
    names: Seq<Seq<char>>,
    pal: Seq<Seq<char>>,
    y: int,
    z: int,
    n: int,
) -> Seq<char>
    decreases n,
{
    if n <= 0 {
        Seq::empty()
    } else {
        row_text(a, names, pal, y, z, n - 1) + code_text(voxel_code(pal, names, local_at(a, (n - 1, y, z))))
    }
}

/// The text of a whole tile, indexed by z slice then y row.
pub open spec fn tile_text(a: VoxelArray, names: Seq<Seq<char>>, pal: Seq<Seq<char>>) -> Seq<Seq<Seq<char>>> {
    Seq::new(a.shape().2 as nat, |z: int| Seq::new(a.shape().1 as nat, |y: int| row_text(a, names, pal, y, z, a.shape().0)))
}

/// The character sequences of each line of a tile's text.
pub open spec fn text_views(voxels: Seq<Vec<String>>) -> Seq<Seq<Seq<char>>> {
    voxels.map_values(|slice: Vec<String>| string_views(slice@))
}

/// Adding a new name at the end of a list without repeats leaves the code of every name
/// already in it unchanged.
proof fn lemma_code_stable(pal: Seq<Seq<char>>, n: Seq<char>, m: Seq<char>)
    requires
        pal.no_duplicates(),
        !pal.contains(n),
        pal.contains(m),
    ensures
        palette_code(pal.push(n), m) == palette_code(pal, m),
{
    let i = choose|i: int| 0 <= i < pal.len() && pal[i] == m;
    lemma_index_of_distinct(pal, i);
    let p2 = pal.push(n);
    assert(p2.no_duplicates());
    assert(p2[i] == m);
    lemma_index_of_distinct(p2, i);
}

proof fn lemma_row_text_stable(
    a: VoxelArray,
    names: Seq<Seq<char>>,
    pal: Seq<Seq<char>>,
    n: Seq<char>,
    y: int,
    z: int,
    k: int,
)
    requires
        pal.no_duplicates(),
        !pal.contains(n),
        forall|x: int| 0 <= x < k ==> #[trigger] local_at(a, (x, y, z)) == 0 || pal.contains(
            names[local_at(a, (x, y, z)) - 1],
        ),
    ensures
        row_text(a, names, pal.push(n), y, z, k) == row_text(a, names, pal, y, z, k),
    decreases k,
{
    if k > 0 {
        lemma_row_text_stable(a, names, pal, n, y, z, k - 1);
        let v = local_at(a, (k - 1, y, z));
        if v != 0 {
            lemma_code_stable(pal, n, names[v - 1]);
        }
    }
}

/// Writes tiles to their on-disk form.
pub struct EnvTileExporter;

impl EnvTileExporter {
    /// The on-disk form of a box of terrain voxels: a palette of the materials used, in the
    /// order reading meets them, and for each slice and row a line of two-digit uppercase
    /// hexadecimal codes, 00 for empty and otherwise the material's 1-based palette position.
    pub fn encode(name: String, voxels: &VoxelArray, terrain: &Terrain) -> (data: EnvTileAssetData)
        requires
            codes_in_table(*voxels, terrain.material_names()),
        ensures
            data.name == name,
            first_use_palette(string_views(data.palette@), *voxels, terrain.material_names()),
            text_views(data.voxels@) == tile_text(*voxels, terrain.material_names(), string_views(data.palette@)),
    {
        let ghost a = *voxels;
        let ghost names = terrain.material_names();
        let (min, shape) = voxels.extent();
        let mut palette: Vec<String> = Vec::new();
        let ghost mut first: Seq<(int, int, int)> = Seq::empty();
        let mut voxels_str: Vec<Vec<String>> = Vec::new();
        let mut z: i32 = 0;
        while z < shape.2
            invariant
                a == *voxels,
                names == terrain.material_names(),
                codes_in_table(a, names),
                pt(min) == a.min(),
                pt(shape) == a.shape(),
                storable_box(a.min(), a.shape()),
                0 <= z <= shape.2,
                string_views(palette@).no_duplicates(),
                first.len() == string_views(palette@).len(),
                forall|i: int| 0 <= i < first.len() ==> in_local(a, #[trigger] first[i]) && read_before(first[i], 0, 0, z as int)
                    && has_material(a, names, first[i], string_views(palette@)[i]),
                forall|i: int, lq: (int, int, int)| 0 <= i < first.len() && in_local(a, lq) && read_before(lq, 0, 0, z as int)
                    && #[trigger] has_material(a, names, lq, string_views(palette@)[i]) ==> !lex_before(lq, first[i]),
                forall|i: int, j: int| 0 <= i < j < first.len() ==> lex_before(#[trigger] first[i], #[trigger] first[j]),
                forall|lq: (int, int, int)| #[trigger] in_local(a, lq) && read_before(lq, 0, 0, z as int) && local_at(a, lq) != 0
                    ==> string_views(palette@).contains(names[local_at(a, lq) - 1]),
                voxels_str@.len() == z,
                forall|zz: int| 0 <= zz < z ==> #[trigger] string_views(voxels_str@[zz]@) == Seq::new(
                    shape.1 as nat,
                    |y: int| row_text(a, names, string_views(palette@), y, zz, shape.0 as int),
                ),
            decreases shape.2 - z,
        {
            let mut slice: Vec<String> = Vec::new();
            let mut y: i32 = 0;
            while y < shape.1
                invariant
                    a == *voxels,
                    names == terrain.material_names(),
                    codes_in_table(a, names),
                    pt(min) == a.min(),
                    pt(shape) == a.shape(),
                    storable_box(a.min(), a.shape()),
                    0 <= z < shape.2,
                    0 <= y <= shape.1,
                    string_views(palette@).no_duplicates(),
                    first.len() == string_views(palette@).len(),
                    forall|i: int| 0 <= i < first.len() ==> in_local(a, #[trigger] first[i]) && read_before(first[i], 0, y as int, z as int)
                        && has_material(a, names, first[i], string_views(palette@)[i]),
                    forall|i: int, lq: (int, int, int)| 0 <= i < first.len() && in_local(a, lq) && read_before(lq, 0, y as int, z as int)
                        && #[trigger] has_material(a, names, lq, string_views(palette@)[i]) ==> !lex_before(lq, first[i]),
                    forall|i: int, j: int| 0 <= i < j < first.len() ==> lex_before(#[trigger] first[i], #[trigger] first[j]),
                    forall|lq: (int, int, int)| #[trigger] in_local(a, lq) && read_before(lq, 0, y as int, z as int) && local_at(a, lq) != 0
                        ==> string_views(palette@).contains(names[local_at(a, lq) - 1]),
                    voxels_str@.len() == z,
                    forall|zz: int| 0 <= zz < z ==> #[trigger] string_views(voxels_str@[zz]@) == Seq::new(
                        shape.1 as nat,
                        |yy: int| row_text(a, names, string_views(palette@), yy, zz, shape.0 as int),
                    ),
                    slice@.len() == y,
                    forall|yy: int| 0 <= yy < y ==> #[trigger] slice@[yy]@ == row_text(a, names, string_views(palette@), yy, z as int, shape.0 as int),
                decreases shape.1 - y,
            {
                let mut line = String::new();
                let mut x: i32 = 0;
                while x < shape.0
                    invariant
                        a == *voxels,
                        names == terrain.material_names(),
                        codes_in_table(a, names),
                        pt(min) == a.min(),
                        pt(shape) == a.shape(),
                        storable_box(a.min(), a.shape()),
                        0 <= z < shape.2,
                        0 <= y < shape.1,
                        0 <= x <= shape.0,
                        string_views(palette@).no_duplicates(),
                        first.len() == string_views(palette@).len(),
                        forall|i: int| 0 <= i < first.len() ==> in_local(a, #[trigger] first[i]) && read_before(first[i], x as int, y as int, z as int)
                            && has_material(a, names, first[i], string_views(palette@)[i]),
                        forall|i: int, lq: (int, int, int)| 0 <= i < first.len() && in_local(a, lq) && read_before(lq, x as int, y as int, z as int)
                            && #[trigger] has_material(a, names, lq, string_views(palette@)[i]) ==> !lex_before(lq, first[i]),
                        forall|i: int, j: int| 0 <= i < j < first.len() ==> lex_before(#[trigger] first[i], #[trigger] first[j]),
                        forall|lq: (int, int, int)| #[trigger] in_local(a, lq) && read_before(lq, x as int, y as int, z as int) && local_at(a, lq) != 0
                            ==> string_views(palette@).contains(names[local_at(a, lq) - 1]),
                        voxels_str@.len() == z,
                        forall|zz: int| 0 <= zz < z ==> #[trigger] string_views(voxels_str@[zz]@) == Seq::new(
                            shape.1 as nat,
                            |yy: int| row_text(a, names, string_views(palette@), yy, zz, shape.0 as int),
                        ),
                        slice@.len() == y,
                        forall|yy: int| 0 <= yy < y ==> #[trigger] slice@[yy]@ == row_text(a, names, string_views(palette@), yy, z as int, shape.0 as int),
                        line@ == row_text(a, names, string_views(palette@), y as int, z as int, x as int),
                    decreases shape.0 - x,
                {
                    let ghost lp = (x as int, y as int, z as int);
                    let ghost pal0 = string_views(palette@);
                    assert(in_local(a, lp));
                    let v = voxels.get((min.0 + x, min.1 + y, min.2 + z));
                    assert(v == local_at(a, lp));
                    let s = terrain.get_pallete_voxel_string(&TerrainVoxel(v), &mut palette);
                    proof {
                        let pal1 = string_views(palette@);
                        if v != 0 && !pal0.contains(names[v - 1]) {
                            let n = names[v - 1];
                            // every voxel read so far keeps its code
                            assert forall|zz: int| 0 <= zz < z implies #[trigger] string_views(voxels_str@[zz]@) == Seq::new(
                                shape.1 as nat,
                                |yy: int| row_text(a, names, pal1, yy, zz, shape.0 as int),
                            ) by {
                                assert forall|yy: int| 0 <= yy < shape.1 implies row_text(a, names, pal1, yy, zz, shape.0 as int)
                                    == row_text(a, names, pal0, yy, zz, shape.0 as int) by {
                                    assert forall|xx: int| 0 <= xx < shape.0 implies #[trigger] local_at(a, (xx, yy, zz)) == 0
                                        || pal0.contains(names[local_at(a, (xx, yy, zz)) - 1]) by {
                                        assert(in_local(a, (xx, yy, zz)));
                                    }
                                    lemma_row_text_stable(a, names, pal0, n, yy, zz, shape.0 as int);
                                }
                                assert(Seq::new(shape.1 as nat, |yy: int| row_text(a, names, pal1, yy, zz, shape.0 as int))
                                    =~= Seq::new(shape.1 as nat, |yy: int| row_text(a, names, pal0, yy, zz, shape.0 as int)));
                            }
                            assert forall|yy: int| 0 <= yy < y implies #[trigger] slice@[yy]@ == row_text(a, names, pal1, yy, z as int, shape.0 as int) by {
                                assert forall|xx: int| 0 <= xx < shape.0 implies #[trigger] local_at(a, (xx, yy, z as int)) == 0
                                    || pal0.contains(names[local_at(a, (xx, yy, z as int)) - 1]) by {
                                    assert(in_local(a, (xx, yy, z as int)));
                                }
                                lemma_row_text_stable(a, names, pal0, n, yy, z as int, shape.0 as int);
                            }
                            assert forall|xx: int| 0 <= xx < x implies #[trigger] local_at(a, (xx, y as int, z as int)) == 0
                                || pal0.contains(names[local_at(a, (xx, y as int, z as int)) - 1]) by {
                                assert(in_local(a, (xx, y as int, z as int)));
                            }
                            lemma_row_text_stable(a, names, pal0, n, y as int, z as int, x as int);
                            first = first.push(lp);
                        }
                    }
                    proof {
                        let pal1 = string_views(palette@);
                        assert forall|lq: (int, int, int)| #[trigger] in_local(a, lq) && read_before(lq, x + 1, y as int, z as int)
                            && local_at(a, lq) != 0 implies pal1.contains(names[local_at(a, lq) - 1]) by {
                            let m = names[local_at(a, lq) - 1];
                            if lq == lp {
                                if !pal0.contains(m) {
                                    assert(pal1[pal0.len() as int] == m);
                                }
                            } else {
                                assert(read_before(lq, x as int, y as int, z as int));
                                let k = choose|k: int| 0 <= k < pal0.len() && pal0[k] == m;
                                assert(pal1[k] == m);
                            }
                        }
                    }
                    line.append(s.as_str());
                    proof {
                        let pal1 = string_views(palette@);
                        assert(line@ =~= row_text(a, names, pal1, y as int, z as int, x + 1));
                    }
                    x = x + 1;
                }
                slice.push(line);
                proof {
                    assert forall|yy: int| 0 <= yy < y + 1 implies #[trigger] slice@[yy]@ == row_text(a, names, string_views(palette@), yy, z as int, shape.0 as int) by {
                    }
                }
                y = y + 1;
            }
            let ghost slice_view = string_views(slice@);
            voxels_str.push(slice);
            proof {
                assert(slice_view =~= Seq::new(shape.1 as nat, |yy: int| row_text(a, names, string_views(palette@), yy, z as int, shape.0 as int)));
                assert forall|zz: int| 0 <= zz < z + 1 implies #[trigger] string_views(voxels_str@[zz]@) == Seq::new(
                    shape.1 as nat,
                    |yy: int| row_text(a, names, string_views(palette@), yy, zz, shape.0 as int),
                ) by {
                }
            }
            z = z + 1;
        }
        proof {
            let pal = string_views(palette@);
            assert forall|lq: (int, int, int)| #[trigger] in_local(a, lq) implies read_before(lq, 0, 0, z as int) by {}
            assert(first_uses(pal, a, names, first));
            assert(text_views(voxels_str@) =~= tile_text(a, names, pal));
        }
        EnvTileAssetData { name, palette, voxels: voxels_str }
    }
}

// ---------------------------------------------------------------------------
// Reading back what was written.
// ---------------------------------------------------------------------------

/// The bytes of each line of a tile text.
pub open spec fn text_bytes(text: Seq<Seq<Seq<char>>>) -> Seq<Seq<Seq<u8>>> {
    text.map_values(|slice: Seq<Seq<char>>| slice.map_values(|line: Seq<char>| encode_utf8(line)))
}

/// The bytes of a tile's lines are the bytes of their character sequences.
pub proof fn lemma_tile_bytes_of_text(voxels: Seq<Vec<String>>)
    ensures
        tile_bytes(voxels) == text_bytes(text_views(voxels)),
{
    assert forall|z: int| 0 <= z < voxels.len() implies #[trigger] tile_bytes(voxels)[z] == text_bytes(text_views(voxels))[z] by {
        assert(tile_bytes(voxels)[z] =~= text_bytes(text_views(voxels))[z]);
    }
    assert(tile_bytes(voxels) =~= text_bytes(text_views(voxels)));
}

proof fn lemma_hex_char(d: int)
    requires
        0 <= d < 16,
    ensures
        '\0' <= hex_char(d) <= '\u{7f}',
        hex_value(hex_char(d) as u8) == Some(d as u16),
        hex_char(d) as u8 != 43,
{
}

proof fn lemma_code_pair(c: u8)
    ensures
        pair_value(hex_char(c as int / 16) as u8, hex_char(c as int % 16) as u8) == Some(c as u16),
{
    lemma_hex_char(c as int / 16);
    lemma_hex_char(c as int % 16);
}

/// A material code written as two hexadecimal digits reads back as the same code.
pub proof fn lemma_hex_code_reads_back(c: u8)
    ensures
        pair_value(code_text(c)[0] as u8, code_text(c)[1] as u8) == Some(c as u16),
{
    lemma_code_pair(c);
}

/// The written text of a row prefix: two ASCII hex digits per field, spelling each field's code.
proof fn lemma_row_text(a: VoxelArray, names: Seq<Seq<char>>, pal: Seq<Seq<char>>, y: int, z: int, k: int)
    requires
        k >= 0,
    ensures
        row_text(a, names, pal, y, z, k).len() == 2 * k,
        vstd::utf8::is_ascii_chars(row_text(a, names, pal, y, z, k)),
        forall|x: int| 0 <= x < k ==> {
            let c = voxel_code(pal, names, #[trigger] local_at(a, (x, y, z)));
            &&& row_text(a, names, pal, y, z, k)[2 * x] == hex_char(c as int / 16)
            &&& row_text(a, names, pal, y, z, k)[2 * x + 1] == hex_char(c as int % 16)
        },
    decreases k,
{
    if k > 0 {
        lemma_row_text(a, names, pal, y, z, k - 1);
        let c = voxel_code(pal, names, local_at(a, (k - 1, y, z)));
        lemma_hex_char(c as int / 16);
        lemma_hex_char(c as int % 16);
        let r = row_text(a, names, pal, y, z, k);
        let r0 = row_text(a, names, pal, y, z, k - 1);
        assert(r == r0 + code_text(c));
        assert forall|x: int| 0 <= x < k implies {
            let c = voxel_code(pal, names, #[trigger] local_at(a, (x, y, z)));
            &&& r[2 * x] == hex_char(c as int / 16)
            &&& r[2 * x + 1] == hex_char(c as int % 16)
        } by {
            if x < k - 1 {
                assert(r[2 * x] == r0[2 * x]);
                assert(r[2 * x + 1] == r0[2 * x + 1]);
            }
        }
    }
}

/// Every code written for the box is at most the palette size, and is 0 exactly for empty voxels.
proof fn lemma_voxel_code(a: VoxelArray, names: Seq<Seq<char>>, pal: Seq<Seq<char>>, lp: (int, int, int))
    requires
        first_use_palette(pal, a, names),
        pal.len() <= 255,
        in_local(a, lp),
    ensures
        voxel_code(pal, names, local_at(a, lp)) <= pal.len(),
        (voxel_code(pal, names, local_at(a, lp)) == 0) == (local_at(a, lp) == 0),
        local_at(a, lp) != 0 ==> pal[voxel_code(pal, names, local_at(a, lp)) - 1] == names[local_at(a, lp) - 1],
{
    let v = local_at(a, lp);
    if v != 0 {
        let n = names[v - 1];
        assert(pal.contains(n));
        let k = choose|k: int| 0 <= k < pal.len() && pal[k] == n;
        lemma_index_of_distinct(pal, k);
    }
}

/// A written line reads cleanly from field `x` on.
proof fn lemma_line_clean(
    a: VoxelArray,
    names: Seq<Seq<char>>,
    pal: Seq<Seq<char>>,
    y: int,
    z: int,
    x: nat,
)
    requires
        first_use_palette(pal, a, names),
        pal.len() <= 255,
        0 <= y < a.shape().1,
        0 <= z < a.shape().2,
        a.shape().0 >= 0,
    ensures
        scan_pairs_from(encode_utf8(row_text(a, names, pal, y, z, a.shape().0)), pal.len(), x) is Clean,
    decreases 2 * a.shape().0 - x,
{
    let text = row_text(a, names, pal, y, z, a.shape().0);
    let line = encode_utf8(text);
    lemma_row_text(a, names, pal, y, z, a.shape().0);
    vstd::utf8::is_ascii_chars_encode_utf8(text);
    if 2 * x < line.len() {
        let xi = x as int;
        let lp = (xi, y, z);
        assert(in_local(a, lp));
        let c = voxel_code(pal, names, local_at(a, lp));
        lemma_voxel_code(a, names, pal, lp);
        lemma_code_pair(c);
        lemma_hex_char(c as int / 16);
        if 2 * x + 2 < line.len() {
            let c2 = voxel_code(pal, names, local_at(a, (xi + 1, y, z)));
            lemma_hex_char(c2 as int / 16);
            assert(text[2 * (xi + 1)] == hex_char(c2 as int / 16));
        }
        assert(line[2 * xi] == text[2 * xi] as u8);
        assert(line[2 * xi + 1] == text[2 * xi + 1] as u8);
        assert(scan_pair(line, xi, pal.len()) == PairScan::Material(c as u16));
        lemma_line_clean(a, names, pal, y, z, x + 1);
    }
}

proof fn lemma_slice_clean(a: VoxelArray, names: Seq<Seq<char>>, pal: Seq<Seq<char>>, z: int, y: nat)
    requires
        first_use_palette(pal, a, names),
        pal.len() <= 255,
        0 <= z < a.shape().2,
        storable_box(a.min(), a.shape()),
    ensures
        first_bad_row(text_bytes(tile_text(a, names, pal))[z], pal.len(), y) is None,
    decreases a.shape().1 - y,
{
    let slice = text_bytes(tile_text(a, names, pal))[z];
    if y < slice.len() {
        lemma_row_text(a, names, pal, y as int, z, a.shape().0);
        assert(slice[y as int] == encode_utf8(row_text(a, names, pal, y as int, z, a.shape().0)));
        vstd::utf8::is_ascii_chars_encode_utf8(row_text(a, names, pal, y as int, z, a.shape().0));
        lemma_line_clean(a, names, pal, y as int, z, 0);
        assert(scan_line(slice[y as int], pal.len()) is Clean);
        lemma_slice_clean(a, names, pal, z, y + 1);
    }
}

proof fn lemma_tile_clean(a: VoxelArray, names: Seq<Seq<char>>, pal: Seq<Seq<char>>, z: nat)
    requires
        first_use_palette(pal, a, names),
        pal.len() <= 255,
        storable_box(a.min(), a.shape()),
    ensures
        first_bad_line(text_bytes(tile_text(a, names, pal)), pal.len(), z) is None,
    decreases a.shape().2 - z,
{
    let data = text_bytes(tile_text(a, names, pal));
    if z < data.len() {
        lemma_slice_clean(a, names, pal, z as int, 0);
        lemma_tile_clean(a, names, pal, z + 1);
    }
}

proof fn lemma_row_pairs_max_uniform(slice: Seq<Seq<u8>>, n: nat)
    requires
        slice.len() > 0,
        forall|y: int| 0 <= y < slice.len() ==> #[trigger] slice[y].len() == 2 * n,
    ensures
        row_pairs_max(slice) == n,
    decreases slice.len(),
{
    assert(slice.last().len() == 2 * n);
    assert((2 * n) / 2 == n);
    if slice.len() == 1 {
        assert(row_pairs_max(slice.drop_last()) == 0);
    } else {
        assert forall|y: int| 0 <= y < slice.drop_last().len() implies #[trigger] slice.drop_last()[y].len() == 2 * n by {
            assert(slice.drop_last()[y] == slice[y]);
        }
        lemma_row_pairs_max_uniform(slice.drop_last(), n);
    }
}

proof fn lemma_tile_maxima_uniform(data: Seq<Seq<Seq<u8>>>, n: nat, m: nat)
    requires
        data.len() > 0,
        m > 0,
        forall|z: int| 0 <= z < data.len() ==> #[trigger] data[z].len() == m,
        forall|z: int, y: int| 0 <= z < data.len() && 0 <= y < m ==> #[trigger] data[z][y].len() == 2 * n,
    ensures
        tile_pairs_max(data) == n,
        tile_rows_max(data) == m,
    decreases data.len(),
{
    let l = data.len() - 1;
    assert(data.last() == data[l]);
    assert forall|y: int| 0 <= y < data.last().len() implies #[trigger] data.last()[y].len() == 2 * n by {
        assert(data[l][y].len() == 2 * n);
    }
    lemma_row_pairs_max_uniform(data.last(), n);
    if data.len() == 1 {
        assert(tile_pairs_max(data.drop_last()) == 0);
        assert(tile_rows_max(data.drop_last()) == 0);
    } else {
        let d = data.drop_last();
        assert forall|z: int| 0 <= z < d.len() implies #[trigger] d[z].len() == m by {
            assert(d[z] == data[z]);
        }
        assert forall|z: int, y: int| 0 <= z < d.len() && 0 <= y < m implies #[trigger] d[z][y].len() == 2 * n by {
            assert(d[z] == data[z]);
        }
        lemma_tile_maxima_uniform(d, n, m);
    }
}

/// Loading what an export writes gives the exported voxels back: the text reads without error,
/// the loaded box has the exported box's shape, and each loaded voxel is empty exactly where the
/// exported one is and otherwise names, through the written palette, the same material.
/// (Codes are 8-bit, so this holds for palettes of at most 255 materials; a box with no rows or
/// no slices loads with size 0 along x.)
pub proof fn lemma_export_then_load(a: VoxelArray, names: Seq<Seq<char>>, pal: Seq<Seq<char>>)
    requires
        storable_box(a.min(), a.shape()),
        first_use_palette(pal, a, names),
        pal.len() <= 255,
        a.shape().1 > 0,
        a.shape().2 > 0,
    ensures
        ({
            let data = text_bytes(tile_text(a, names, pal));
            &&& first_bad_line(data, pal.len(), 0) is None
            &&& tile_shape(data) == a.shape()
            &&& forall|lp: (int, int, int)| #[trigger] in_local(a, lp) ==> {
                &&& (tile_voxel(data, lp) == 0) == (local_at(a, lp) == 0)
                &&& local_at(a, lp) != 0 ==> pal[tile_voxel(data, lp) - 1] == names[local_at(a, lp) - 1]
            }
        }),
{
    let data = text_bytes(tile_text(a, names, pal));
    lemma_tile_clean(a, names, pal, 0);
    assert forall|z: int, y: int| 0 <= z < data.len() && 0 <= y < a.shape().1 implies #[trigger] data[z][y].len() == 2 * a.shape().0 by {
        lemma_row_text(a, names, pal, y, z, a.shape().0);
        vstd::utf8::is_ascii_chars_encode_utf8(row_text(a, names, pal, y, z, a.shape().0));
    }
    lemma_tile_maxima_uniform(data, a.shape().0 as nat, a.shape().1 as nat);
    assert forall|lp: (int, int, int)| #[trigger] in_local(a, lp) implies {
        &&& (tile_voxel(data, lp) == 0) == (local_at(a, lp) == 0)
        &&& local_at(a, lp) != 0 ==> pal[tile_voxel(data, lp) - 1] == names[local_at(a, lp) - 1]
    } by {
        let text = row_text(a, names, pal, lp.1, lp.2, a.shape().0);
        lemma_row_text(a, names, pal, lp.1, lp.2, a.shape().0);
        vstd::utf8::is_ascii_chars_encode_utf8(text);
        let c = voxel_code(pal, names, local_at(a, lp));
        assert(local_at(a, (lp.0, lp.1, lp.2)) == local_at(a, lp));
        lemma_code_pair(c);
        lemma_voxel_code(a, names, pal, lp);
        assert(data[lp.2][lp.1] == encode_utf8(text));
        assert(tile_voxel(data, lp) == c as u16);
    }
}

} // verus!
