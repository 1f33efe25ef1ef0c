//! Chunk and region coordinates.
//!
//! A chunk spans 16 blocks per axis; a region tile holds 32 x 32 chunks and
//! is persisted as one `r.<x>.<z>.mca` file. Region coordinates come from
//! chunk coordinates by floored division, so negative chunks map to the
//! region just below zero.

use vstd::prelude::*;

verus! {

use crate::text::append_str;
use crate::text::dec_int;
use crate::text::dec_string_value;
use crate::text::is_dec_string;
use crate::text::lemma_dec_digits_value;
use crate::text::lemma_dec_int_value;
use crate::text::lemma_split_join;
use crate::text::parse_i32;
use crate::text::push_char;
use crate::text::push_dec_i64;
use crate::text::split_chars;
use crate::text::split_on;
use crate::text::str_eq;
use crate::text::join_with;
use crate::text::dec_digits;

/// Floored division of `x` by 32: the quotient rounded toward negative
/// infinity. On `int`, `/` is Euclidean division, which agrees with floored
/// division for a positive divisor.
pub open spec fn floor_div_32(x: int) -> int {
    x / 32
}

/// Euclidean remainder of `x` by 32, always in `[0, 32)`.
pub open spec fn mod_32(x: int) -> int {
    x % 32
}

/// Floored division of a signed chunk coordinate by 32.
pub fn div_32_floor(x: i32) -> (r: i32)
    ensures
        r as int == floor_div_32(x as int),
{
    if x >= 0 {
        x / 32
    } else {
        let m: i64 = -(x as i64);
        let q: i64 = (m + 31) / 32;
        proof {
            assert((-q) as int == (x as int) / 32) by (nonlinear_arith)
                requires
                    m == -(x as int),
                    x < 0,
                    q == (m + 31) / 32,
            {
            }
        }
        (-q) as i32
    }
}

/// Euclidean remainder of a signed chunk coordinate by 32.
pub fn rem_32_euclid(x: i32) -> (r: i32)
    ensures
        r as int == mod_32(x as int),
        0 <= r < 32,
{
    let q = div_32_floor(x);
    proof {
        assert(x as int - 32 * ((x as int) / 32) == (x as int) % 32) by (nonlinear_arith);
        assert(0 <= (x as int) % 32 < 32) by (nonlinear_arith);
    }
    x - 32 * q
}

/// The three vanilla dimensions; each stores its regions under its own
/// subdirectory of the world directory.
#[derive(Debug, Clone, PartialEq, Eq, Structural)]
pub enum McDimension {
    Overworld,
    Nether,
    TheEnd,
}

/// A chunk position together with the dimension it belongs to. The second
/// axis is named `y` to match the wire protocol, but it is the horizontal
/// `z` axis of the world.
#[derive(Debug, Clone, PartialEq, Eq, Structural)]
pub struct McChunkPos {
    pub x: i32,
    pub y: i32,
    pub dimension: McDimension,
}

/// An opaque game version identifier such as "1.21.7".
#[derive(Debug, Clone, PartialEq, Eq)]
pub struct McVersion {
    pub version: String,
}

/// A region position, in region units: one region covers 32 x 32 chunks.
#[derive(Debug, Clone, Copy, PartialEq, Eq, Hash, Structural)]
pub struct RegionPos {
    pub x: isize,
    pub z: isize,
}

/// A chunk position, in chunk units.
#[derive(Debug, Clone, Copy, PartialEq, Eq, Hash, Structural)]
pub struct ChunkPos {
    pub x: isize,
    pub z: isize,
}

/// Floored division of an `isize` coordinate by 32.
pub fn div_32_floor_isize(x: isize) -> (r: isize)
    ensures
        r as int == floor_div_32(x as int),
{
    if x >= 0 {
        x / 32
    } else {
        let m: i128 = -(x as i128);
        let q: i128 = (m + 31) / 32;
        proof {
            assert((-q) as int == (x as int) / 32) by (nonlinear_arith)
                requires
                    m == -(x as int),
                    x < 0,
                    q == (m + 31) / 32,
            {
            }
        }
        (-q) as isize
    }
}

/// Euclidean remainder of an `isize` coordinate by 32.
pub fn rem_32_euclid_isize(x: isize) -> (r: isize)
    ensures
        r as int == mod_32(x as int),
        0 <= r < 32,
{
    let q = div_32_floor_isize(x);
    proof {
        assert(x as int - 32 * ((x as int) / 32) == (x as int) % 32) by (nonlinear_arith);
        assert(0 <= (x as int) % 32 < 32) by (nonlinear_arith);
    }
    x - 32 * q
}

impl ChunkPos {
    pub fn new(x: isize, z: isize) -> (r: ChunkPos)
        ensures
            r.x == x,
            r.z == z,
    {
        ChunkPos { x, z }
    }

    /// The region that holds this chunk: floored division of both axes by 32,
    /// so chunk (-1, -1) lies in region (-1, -1) and (-33, -33) in (-2, -2).
    pub fn region(&self) -> (r: RegionPos)
        ensures
            r.x as int == floor_div_32(self.x as int),
            r.z as int == floor_div_32(self.z as int),
    {
        RegionPos { x: div_32_floor_isize(self.x), z: div_32_floor_isize(self.z) }
    }

    /// The chunk's offset within its region, on both axes in `[0, 32)`.
    pub fn region_offset(&self) -> (r: (usize, usize))
        ensures
            r.0 as int == mod_32(self.x as int),
            r.1 as int == mod_32(self.z as int),
            r.0 < 32,
            r.1 < 32,
    {
        let ox = rem_32_euclid_isize(self.x);
        let oz = rem_32_euclid_isize(self.z);
        (ox as usize, oz as usize)
    }
}

impl RegionPos {
    pub fn new(x: isize, z: isize) -> (r: RegionPos)
        ensures
            r.x == x,
            r.z == z,
    {
        RegionPos { x, z }
    }

    /// The chunk at local offset `(chunk_x, chunk_z)` inside this region.
    pub fn chunk_at(&self, chunk_x: isize, chunk_z: isize) -> (r: ChunkPos)
        requires
            0 <= chunk_x < 32,
            0 <= chunk_z < 32,
            -0x0200_0000 <= self.x < 0x0200_0000,
            -0x0200_0000 <= self.z < 0x0200_0000,
        ensures
            r.x as int == self.x * 32 + chunk_x,
            r.z as int == self.z * 32 + chunk_z,
    {
        ChunkPos { x: self.x * 32 + chunk_x, z: self.z * 32 + chunk_z }
    }
}

/// The region holding chunk `(chunk_x, chunk_z)`: floored division by 32 on
/// both axes.
pub fn chunk_to_region_coords(chunk_x: i32, chunk_z: i32) -> (r: (i32, i32))
    ensures
        r.0 as int == floor_div_32(chunk_x as int),
        r.1 as int == floor_div_32(chunk_z as int),
{
    (div_32_floor(chunk_x), div_32_floor(chunk_z))
}

/// All 32 x 32 chunk positions of region `(rx, rz)`, in row-major order:
/// entry `k` is chunk `(rx * 32 + k / 32, rz * 32 + k % 32)`.
pub fn region_to_chunk_coords(rx: i32, rz: i32) -> (r: Vec<(i32, i32)>)
    requires
        -0x0100_0000 <= rx < 0x0100_0000,
        -0x0100_0000 <= rz < 0x0100_0000,
    ensures
        r@.len() == 1024,
        forall|k: int|
            0 <= k < 1024 ==> #[trigger] r@[k] == ((rx * 32 + k / 32) as i32, (rz * 32 + k
                % 32) as i32),
{
    let mut out: Vec<(i32, i32)> = Vec::new();
    let mut cx: i32 = 0;
    while cx < 32
        invariant
            0 <= cx <= 32,
            -0x0100_0000 <= rx < 0x0100_0000,
            -0x0100_0000 <= rz < 0x0100_0000,
            out@.len() == 32 * cx,
            forall|k: int|
                0 <= k < 32 * cx ==> #[trigger] out@[k] == ((rx * 32 + k / 32) as i32, (rz * 32 + k
                    % 32) as i32),
        decreases 32 - cx,
    {
        let mut cz: i32 = 0;
        while cz < 32
            invariant
                0 <= cx < 32,
                0 <= cz <= 32,
                -0x0100_0000 <= rx < 0x0100_0000,
                -0x0100_0000 <= rz < 0x0100_0000,
                out@.len() == 32 * cx + cz,
                forall|k: int|
                    0 <= k < 32 * cx + cz ==> #[trigger] out@[k] == ((rx * 32 + k / 32) as i32, (rz
                        * 32 + k % 32) as i32),
            decreases 32 - cz,
        {
            out.push((rx * 32 + cx, rz * 32 + cz));
            proof {
                assert((32 * cx + cz) / 32 == cx as int && (32 * cx + cz) % 32 == cz as int)
                    by (nonlinear_arith)
                    requires
                        0 <= cx < 32,
                        0 <= cz < 32,
                {
                }
            }
            cz = cz + 1;
        }
        cx = cx + 1;
    }
    out
}

/// The canonical file name of region `(x, z)`: `r.<x>.<z>.mca`.
pub open spec fn region_file_name(x: int, z: int) -> Seq<char> {
    seq!['r', '.'] + dec_int(x) + seq!['.'] + dec_int(z) + seq!['.', 'm', 'c', 'a']
}

/// Reading a region file name: `Some((x, z))` exactly when the name splits on
/// `'.'` into `r`, a decimal `x`, a decimal `z` and `mca`, with both numbers
/// in `i32` range.
pub open spec fn spec_parse_region_filename(s: Seq<char>) -> Option<(i32, i32)> {
    let parts = split_on(s, '.');
    if parts.len() == 4 && parts[0] == seq!['r'] && parts[3] == seq!['m', 'c', 'a']
        && is_dec_string(parts[1]) && is_dec_string(parts[2]) && i32::MIN <= dec_string_value(
        parts[1],
    ) <= i32::MAX && i32::MIN <= dec_string_value(parts[2]) <= i32::MAX {
        Some(
            (
                dec_string_value(parts[1]) as i32,
                dec_string_value(parts[2]) as i32,
            ),
        )
    } else {
        None
    }
}

/// Reads and writes the header-and-sector layout of `.mca` region files and
/// their `r.<x>.<z>.mca` names.
#[derive(Debug, Clone)]
pub struct AnvilRegionHandler;

impl AnvilRegionHandler {
    pub fn new() -> (r: AnvilRegionHandler) {
        AnvilRegionHandler
    }

    /// Parses a region file name of the form `r.<x>.<z>.mca`; any other name
    /// yields `None`.
    pub fn parse_region_filename(filename: &str) -> (r: Option<(i32, i32)>)
        ensures
            r == spec_parse_region_filename(filename@),
    {
        let parts = split_chars(filename, '.');
        if parts.len() != 4 {
            return None;
        }
        proof {
            reveal_strlit("r");
            reveal_strlit("mca");
            assert("r"@ =~= seq!['r']);
            assert("mca"@ =~= seq!['m', 'c', 'a']);
        }
        if !str_eq(parts[0].as_str(), "r") {
            return None;
        }
        if !str_eq(parts[3].as_str(), "mca") {
            return None;
        }
        let rx = match parse_i32(parts[1].as_str()) {
            Some(v) => v,
            None => {
                return None;
            },
        };
        let rz = match parse_i32(parts[2].as_str()) {
            Some(v) => v,
            None => {
                return None;
            },
        };
        Some((rx, rz))
    }

    /// The region holding chunk `(chunk_x, chunk_z)`.
    pub fn chunk_to_region_coords(chunk_x: i32, chunk_z: i32) -> (r: (i32, i32))
        ensures
            r.0 as int == floor_div_32(chunk_x as int),
            r.1 as int == floor_div_32(chunk_z as int),
    {
        chunk_to_region_coords(chunk_x, chunk_z)
    }

    /// All 1024 chunk positions of region `(rx, rz)` in row-major order.
    pub fn region_to_chunk_coords(rx: i32, rz: i32) -> (r: Vec<(i32, i32)>)
        requires
            -0x0100_0000 <= rx < 0x0100_0000,
            -0x0100_0000 <= rz < 0x0100_0000,
        ensures
            r@.len() == 1024,
            forall|k: int|
                0 <= k < 1024 ==> #[trigger] r@[k] == ((rx * 32 + k / 32) as i32, (rz * 32 + k
                    % 32) as i32),
    {
        region_to_chunk_coords(rx, rz)
    }

    /// The path of region `(rx, rz)` inside `region_dir`.
    pub fn get_region_file_path(region_dir: &str, rx: i32, rz: i32) -> (s: String)
        ensures
            s@ == region_dir@ + seq!['/'] + region_file_name(rx as int, rz as int),
    {
        let mut s = String::from_str(region_dir);
        push_char(&mut s, '/');
        let name = RegionPos::new(rx as isize, rz as isize).to_file_name();
        append_str(&mut s, name.as_str());
        proof {
            assert(s@ =~= region_dir@ + seq!['/'] + region_file_name(rx as int, rz as int));
        }
        s
    }
}

impl RegionPos {
    /// The file name `r.<x>.<z>.mca` of this region.
    pub fn to_file_name(&self) -> (s: String)
        ensures
            s@ == region_file_name(self.x as int, self.z as int),
    {
        let mut s = String::new();
        push_char(&mut s, 'r');
        push_char(&mut s, '.');
        push_dec_i64(&mut s, self.x as i64);
        push_char(&mut s, '.');
        push_dec_i64(&mut s, self.z as i64);
        push_char(&mut s, '.');
        push_char(&mut s, 'm');
        push_char(&mut s, 'c');
        push_char(&mut s, 'a');
        proof {
            assert(s@ =~= region_file_name(self.x as int, self.z as int));
        }
        s
    }

    /// Parses a region file name back into a region position; names not of
    /// the form `r.<x>.<z>.mca` are rejected.
    pub fn try_parse_file_name(file_name: &str) -> (r: Result<RegionPos, String>)
        ensures
            match r {
                Ok(p) => {
                    &&& spec_parse_region_filename(file_name@) matches Some(v)
                    &&& p.x as int == v.0 as int
                    &&& p.z as int == v.1 as int
                },
                Err(_) => spec_parse_region_filename(file_name@) is None,
            },
    {
        match AnvilRegionHandler::parse_region_filename(file_name) {
            Some((x, z)) => Ok(RegionPos { x: x as isize, z: z as isize }),
            None => Err(String::from_str("Invalid region file name format")),
        }
    }
}

/// No character of the decimal rendering of an integer is a `'.'`.
proof fn lemma_dec_int_no_dot(n: int)
    ensures
        forall|i: int| 0 <= i < dec_int(n).len() ==> #[trigger] dec_int(n)[i] != '.',
{
    lemma_dec_int_value(n);
    let d = dec_int(n);
    assert forall|i: int| 0 <= i < d.len() implies #[trigger] d[i] != '.' by {
        if n < 0 {
            lemma_dec_digits_value(-n);
            if i == 0 {
                assert(d[i] == '-');
            } else {
                assert(d[i] == dec_int(n)[i]);
                assert(dec_int(n)[i] == dec_digits(-n)[i - 1]);
                assert(crate::text::is_digit(d[i]));
            }
        } else {
            lemma_dec_digits_value(n);
            assert(d == dec_digits(n));
            assert(crate::text::is_digit(d[i]));
        }
    }
}

/// Writing a region file name and parsing it back yields the same
/// coordinates.
pub proof fn lemma_region_file_name_roundtrip(x: int, z: int)
    requires
        i32::MIN <= x <= i32::MAX,
        i32::MIN <= z <= i32::MAX,
    ensures
        spec_parse_region_filename(region_file_name(x, z)) == Some((x as i32, z as i32)),
{
    let parts = seq![seq!['r'], dec_int(x), dec_int(z), seq!['m', 'c', 'a']];
    lemma_dec_int_no_dot(x);
    lemma_dec_int_no_dot(z);
    assert forall|i: int, j: int|
        0 <= i < parts.len() && 0 <= j < parts[i].len() implies #[trigger] parts[i][j]
        != '.' by {
        if i == 0 {
            assert(parts[0] =~= seq!['r']);
        } else if i == 1 {
            assert(parts[1][j] == dec_int(x)[j]);
        } else if i == 2 {
            assert(parts[2][j] == dec_int(z)[j]);
        } else {
            assert(parts[3] =~= seq!['m', 'c', 'a']);
        }
    }
    lemma_split_join(parts, '.');
    assert(join_with(parts, '.') =~= region_file_name(x, z)) by {
        let tail3 = parts.subrange(3, 4);
        let tail2 = parts.subrange(2, 4);
        let tail1 = parts.subrange(1, 4);
        assert(tail3 =~= seq![seq!['m', 'c', 'a']]);
        assert(join_with(tail3, '.') == seq!['m', 'c', 'a']);
        assert(tail2.subrange(1, 2) =~= tail3);
        assert(join_with(tail2, '.') == dec_int(z) + seq!['.'] + join_with(tail3, '.'));
        assert(tail1.subrange(1, 3) =~= tail2);
        assert(join_with(tail1, '.') == dec_int(x) + seq!['.'] + join_with(tail2, '.'));
        assert(parts.subrange(1, 4) =~= tail1);
        assert(join_with(parts, '.') == seq!['r'] + seq!['.'] + join_with(tail1, '.'));
    }
    lemma_dec_int_value(x);
    lemma_dec_int_value(z);
}

/// The region subdirectory of a dimension under the vanilla layout,
/// relative to the world directory: `region`, `DIM-1/region` or
/// `DIM1/region`.
pub open spec fn spec_dimension_subdir(dim: McDimension) -> Seq<char> {
    match dim {
        McDimension::Overworld => "region"@,
        McDimension::Nether => "DIM-1/region"@,
        McDimension::TheEnd => "DIM1/region"@,
    }
}

/// The region directory of a dimension below a world directory, under the
/// vanilla layout: `<world>/region`, `<world>/DIM-1/region` and
/// `<world>/DIM1/region`.
pub fn region_dir_path(world_dir: &str, dim: &McDimension) -> (s: String)
    ensures
        s@ == world_dir@ + seq!['/'] + spec_dimension_subdir(*dim),
{
    let mut s = String::from_str(world_dir);
    crate::text::push_char(&mut s, '/');
    match dim {
        McDimension::Overworld => {
            crate::text::append_str(&mut s, "region");
        },
        McDimension::Nether => {
            crate::text::append_str(&mut s, "DIM-1/region");
        },
        McDimension::TheEnd => {
            crate::text::append_str(&mut s, "DIM1/region");
        },
    }
    proof {
        assert(s@ =~= world_dir@ + seq!['/'] + spec_dimension_subdir(*dim));
    }
    s
}

} // verus!
