//! Region files in memory: the 1024-entry location header, sector-aligned
//! chunk records, and the palette bit-unpacking of block states.
//!
//! A region image is the byte content of one `r.<x>.<z>.mca` file. Writing
//! a chunk appends a record and patches the header; reading follows the
//! header. Writing then reading the same slot returns the same payload,
//! and slots never written read as absent.

use vstd::prelude::*;

verus! {

broadcast use {vstd::seq::group_seq_axioms, vstd::std_specs::vec::group_vec_axioms};

/// The byte index of the location entry of local chunk `(lx, lz)`.
pub open spec fn slot_index(lx: int, lz: int) -> int {
    4 * (lx + lz * 32)
}

/// The sector offset recorded for a slot: three big-endian bytes.
pub open spec fn slot_offset(img: Seq<u8>, lx: int, lz: int) -> u32 {
    let s = slot_index(lx, lz);
    ((img[s] as u32) << 16) | ((img[s + 1] as u32) << 8) | (img[s + 2] as u32)
}

/// The sector count recorded for a slot.
pub open spec fn slot_count(img: Seq<u8>, lx: int, lz: int) -> u8 {
    img[slot_index(lx, lz) + 3]
}

/// Whether the header marks the slot as present.
pub open spec fn chunk_present(img: Seq<u8>, lx: int, lz: int) -> bool {
    slot_offset(img, lx, lz) != 0 && slot_count(img, lx, lz) != 0
}

/// The bytes a zlib stream inflates to; inflation is a function of the
/// stream alone.
pub uninterp spec fn inflate_zlib_of(b: Seq<u8>) -> Seq<u8>;

/// The bytes a gzip stream inflates to; inflation is a function of the
/// stream alone.
pub uninterp spec fn inflate_gzip_of(b: Seq<u8>) -> Seq<u8>;

/// Relies on flate2's `ZlibDecoder` with `Read::read_to_end`: inflating a
/// zlib stream is deterministic in the stream bytes; invalid streams fail.
#[verifier::external_body]
fn inflate_zlib(b: &[u8]) -> (r: Result<Vec<u8>, String>)
    ensures
        r matches Ok(d) ==> d@ == inflate_zlib_of(b@),
{
    let mut decoder = flate2::read::ZlibDecoder::new(b);
    let mut out = Vec::new();
    match std::io::Read::read_to_end(&mut decoder, &mut out) {
        Ok(_) => Ok(out),
        Err(e) => Err(format!("Failed to inflate zlib record: {e}")),
    }
}

/// Relies on flate2's `GzDecoder` with `Read::read_to_end`: inflating a
/// gzip stream is deterministic in the stream bytes; invalid streams fail.
#[verifier::external_body]
fn inflate_gzip(b: &[u8]) -> (r: Result<Vec<u8>, String>)
    ensures
        r matches Ok(d) ==> d@ == inflate_gzip_of(b@),
{
    let mut decoder = flate2::read::GzDecoder::new(b);
    let mut out = Vec::new();
    match std::io::Read::read_to_end(&mut decoder, &mut out) {
        Ok(_) => Ok(out),
        Err(e) => Err(format!("Failed to inflate gzip record: {e}")),
    }
}

/// The compression byte of a present slot's record, or nothing when the
/// record head lies outside the image.
pub open spec fn chunk_record_type(img: Seq<u8>, lx: int, lz: int) -> Option<u8> {
    if !chunk_present(img, lx, lz) || (slot_offset(img, lx, lz) as int) * 4096 + 5 > img.len() {
        None
    } else {
        Some(img[(slot_offset(img, lx, lz) as int) * 4096 + 4])
    }
}

/// The payload of a present slot: at `offset * 4096` lie a four-byte
/// length, a compression byte, and `length - 1` record bytes within the
/// image; gzip and zlib records inflate, uncompressed records are taken
/// as they are.
pub open spec fn chunk_payload(img: Seq<u8>, lx: int, lz: int) -> Option<Seq<u8>> {
    if !chunk_present(img, lx, lz) {
        None
    } else {
        let p = (slot_offset(img, lx, lz) as int) * 4096;
        if p + 5 > img.len() {
            None
        } else {
            let l = crate::nbt::be32_decode(img.subrange(p, p + 4));
            let t = img[p + 4];
            if l < 1 || p + 4 + l > img.len() || !(t == 1 || t == 2 || t == 3) {
                None
            } else {
                let raw = img.subrange(p + 5, p + 4 + l);
                if t == 3 {
                    Some(raw)
                } else if t == 2 {
                    Some(inflate_zlib_of(raw))
                } else {
                    Some(inflate_gzip_of(raw))
                }
            }
        }
    }
}

/// One region file held in memory.
#[derive(Debug)]
pub struct RegionImage {
    data: Vec<u8>,
}

impl RegionImage {
    pub closed spec fn bytes(&self) -> Seq<u8> {
        self.data@
    }

    pub open spec fn wf(&self) -> bool {
        self.bytes().len() >= 8192
    }

    /// An empty region: two zeroed header sectors, every slot absent.
    pub fn new() -> (r: RegionImage)
        ensures
            r.wf(),
            r.bytes().len() == 8192,
            forall|lx: int, lz: int|
                0 <= lx < 32 && 0 <= lz < 32 ==> !#[trigger] chunk_present(r.bytes(), lx, lz),
    {
        let mut data: Vec<u8> = Vec::new();
        let mut i: usize = 0;
        while i < 8192
            invariant
                0 <= i <= 8192,
                data@.len() == i,
                forall|k: int| 0 <= k < i ==> #[trigger] data@[k] == 0,
            decreases 8192 - i,
        {
            data.push(0);
            i = i + 1;
        }
        let r = RegionImage { data };
        proof {
            assert forall|lx: int, lz: int|
                0 <= lx < 32 && 0 <= lz < 32 implies !#[trigger] chunk_present(
                r.bytes(),
                lx,
                lz,
            ) by {
                let s = slot_index(lx, lz);
                assert(0 <= s && s + 3 < 8192);
                assert(r.bytes()[s] == 0 && r.bytes()[s + 1] == 0 && r.bytes()[s + 2] == 0);
                assert(((0u8 as u32) << 16) | ((0u8 as u32) << 8) | (0u8 as u32) == 0)
                    by (bit_vector);
            }
        }
        r
    }

    /// Wraps existing file bytes; they must hold at least the header.
    pub fn from_bytes(data: Vec<u8>) -> (r: Result<RegionImage, String>)
        ensures
            match r {
                Ok(img) => img.wf() && img.bytes() == data@,
                Err(_) => data@.len() < 8192,
            },
    {
        if data.len() < 8192 {
            return Err(String::from_str("Region file shorter than its header"));
        }
        Ok(RegionImage { data })
    }

    /// The raw file bytes.
    pub fn into_bytes(self) -> (r: Vec<u8>)
        ensures
            r@ == self.bytes(),
    {
        self.data
    }

    /// Reads the payload of local chunk `(lx, lz)`: absent slots yield
    /// `None`; present slots yield their payload, or fail when the record
    /// is malformed.
    pub fn read_chunk(&self, lx: usize, lz: usize) -> (r: Result<Option<Vec<u8>>, String>)
        requires
            self.wf(),
            lx < 32,
            lz < 32,
        ensures
            match r {
                Ok(p) => match p {
                    Some(payload) => chunk_payload(self.bytes(), lx as int, lz as int) == Some(
                        payload@,
                    ),
                    None => !chunk_present(self.bytes(), lx as int, lz as int),
                },
                Err(_) => chunk_present(self.bytes(), lx as int, lz as int) && (chunk_payload(
                    self.bytes(),
                    lx as int,
                    lz as int,
                ) is None || chunk_record_type(self.bytes(), lx as int, lz as int) != Some(
                    3u8,
                )),
            },
    {
        let s: usize = 4 * (lx + lz * 32);
        let b0 = self.data[s];
        let b1 = self.data[s + 1];
        let b2 = self.data[s + 2];
        let count = self.data[s + 3];
        let off: u32 = ((b0 as u32) << 16) | ((b1 as u32) << 8) | (b2 as u32);
        if off == 0 || count == 0 {
            return Ok(None);
        }
        proof {
            assert(off < 0x100_0000) by (bit_vector)
                requires
                    off == ((b0 as u32) << 16) | ((b1 as u32) << 8) | (b2 as u32),
            {
            }
        }
        let p64: u64 = (off as u64) * 4096;
        if p64 >= self.data.len() as u64 || self.data.len() as u64 - p64 < 5 {
            return Err(String::from_str("Chunk record out of range"));
        }
        let p: usize = p64 as usize;
        let l0 = self.data[p];
        let l1 = self.data[p + 1];
        let l2 = self.data[p + 2];
        let l3 = self.data[p + 3];
        let l: u32 = ((l0 as u32) << 24) | ((l1 as u32) << 16) | ((l2 as u32) << 8) | (l3 as u32);
        proof {
            assert(crate::nbt::be32_decode(self.bytes().subrange(p as int, p + 4)) == l as int)
                by {
                assert(self.bytes().subrange(p as int, p + 4) =~= seq![l0, l1, l2, l3]);
                crate::nbt::lemma_be32_decode(l0, l1, l2, l3, l);
            }
        }
        if l < 1 {
            return Err(String::from_str("Chunk record has no compression byte"));
        }
        if (self.data.len() - p - 4) < l as usize {
            return Err(String::from_str("Chunk record out of range"));
        }
        let ctype = self.data[p + 4];
        if ctype != 1 && ctype != 2 && ctype != 3 {
            return Err(String::from_str("Unsupported compression type"));
        }
        let raw = crate::props::sub_bytes(&self.data, p + 5, p + 4 + l as usize);
        if ctype == 3 {
            proof {
                assert(chunk_payload(self.bytes(), lx as int, lz as int) == Some(raw@));
            }
            return Ok(Some(raw));
        }
        let inflated = if ctype == 2 {
            inflate_zlib(raw.as_slice())
        } else {
            inflate_gzip(raw.as_slice())
        };
        match inflated {
            Ok(payload) => {
                proof {
                    assert(chunk_payload(self.bytes(), lx as int, lz as int) == Some(
                        payload@,
                    ));
                }
                Ok(Some(payload))
            },
            Err(e) => {
                proof {
                    assert(chunk_record_type(self.bytes(), lx as int, lz as int) != Some(3u8));
                }
                Err(e)
            },
        }
    }

    /// Writes `payload` as the record of local chunk `(lx, lz)`: the image
    /// grows to a sector boundary, the record is appended, and the header
    /// entry is patched. Reading the slot afterwards yields exactly the
    /// payload; every other slot that read well before still reads the
    /// same.
    #[verifier::rlimit(100)]
    pub fn write_chunk(&mut self, lx: usize, lz: usize, payload: &[u8]) -> (r: Result<
        (),
        String,
    >)
        requires
            old(self).wf(),
            lx < 32,
            lz < 32,
            payload@.len() < 0x0010_0000,
            old(self).bytes().len() < 0x1000_0000,
        ensures
            final(self).wf(),
            r is Ok,
            chunk_payload(final(self).bytes(), lx as int, lz as int) == Some(payload@),
            forall|a: int, b: int|
                0 <= a < 32 && 0 <= b < 32 && !(a == lx as int && b == lz as int) && (
                #[trigger] chunk_payload(old(self).bytes(), a, b)) is Some ==> chunk_payload(
                    final(self).bytes(),
                    a,
                    b,
                ) == chunk_payload(old(self).bytes(), a, b),
    {
        let ghost img0 = self.bytes();
        // grow to the next sector boundary
        let rem = self.data.len() % 4096;
        let pad: usize = if rem == 0 {
            0
        } else {
            4096 - rem
        };
        let base = self.data.len() + pad;
        proof {
            let ghost len0 = img0.len() as int;
            assert(base % 4096 == 0) by (nonlinear_arith)
                requires
                    base == len0 + pad,
                    rem == len0 % 4096,
                    len0 >= 0,
                    pad == if rem == 0 {
                        0int
                    } else {
                        4096 - rem
                    },
            {
            }
        }
        let off_sectors = base / 4096;
        proof {
            assert(off_sectors < 0x100_0000) by (nonlinear_arith)
                requires
                    off_sectors == base / 4096,
                    base < 0x1000_0000 + 4096,
            {
            }
        }
        proof {
            assert(off_sectors >= 1) by (nonlinear_arith)
                requires
                    off_sectors == base / 4096,
                    base >= 8192,
            {
            }
            assert(off_sectors * 4096 == base) by (nonlinear_arith)
                requires
                    off_sectors == base / 4096,
                    base % 4096 == 0,
            {
            }
        }
        let len_field: u32 = payload.len() as u32 + 1;
        let mut k: usize = 0;
        while k < pad
            invariant
                0 <= k <= pad,
                self.data@ == img0 + Seq::new(k as nat, |j: int| 0u8),
            decreases pad - k,
        {
            self.data.push(0);
            proof {
                assert(self.data@ =~= img0 + Seq::new((k + 1) as nat, |j: int| 0u8));
            }
            k = k + 1;
        }
        proof {
            assert(self.data@.len() == base);
        }
        // the record: four length bytes, compression byte, payload
        self.data.push((len_field >> 24) as u8);
        self.data.push((len_field >> 16) as u8);
        self.data.push((len_field >> 8) as u8);
        self.data.push(len_field as u8);
        self.data.push(3);
        let ghost pre_payload = self.data@;
        let mut k2: usize = 0;
        while k2 < payload.len()
            invariant
                0 <= k2 <= payload@.len(),
                self.data@ == pre_payload + payload@.take(k2 as int),
            decreases payload@.len() - k2,
        {
            self.data.push(payload[k2]);
            proof {
                assert(self.data@ =~= pre_payload + payload@.take(k2 + 1));
            }
            k2 = k2 + 1;
        }
        proof {
            assert(payload@.take(payload@.len() as int) =~= payload@);
        }
        // patch the header entry
        let s: usize = 4 * (lx + lz * 32);
        let ghost before_patch = self.data@;
        let off32 = off_sectors as u32;
        set_byte(&mut self.data, s, (off32 >> 16) as u8);
        set_byte(&mut self.data, s + 1, (off32 >> 8) as u8);
        set_byte(&mut self.data, s + 2, off32 as u8);
        set_byte(&mut self.data, s + 3, 1);
        proof {
            let img1 = self.bytes();
            let si = slot_index(lx as int, lz as int);
            assert(si == s);
            assert(img1.len() == before_patch.len());
            assert(forall|j: int|
                0 <= j < img1.len() && !(s <= j < s + 4) ==> #[trigger] img1[j]
                    == before_patch[j]);
            assert(img1[si] == (off32 >> 16) as u8 && img1[si + 1] == (off32 >> 8) as u8 && img1[
                si + 2
            ] == off32 as u8 && img1[si + 3] == 1);
            let x0 = (off32 >> 16) as u8;
            let x1 = (off32 >> 8) as u8;
            let x2 = off32 as u8;
            assert(((x0 as u32) << 16) | ((x1 as u32) << 8) | (x2 as u32) == off32)
                by (bit_vector)
                requires
                    off32 < 0x100_0000,
                    x0 == (off32 >> 16) as u8,
                    x1 == (off32 >> 8) as u8,
                    x2 == off32 as u8,
            {
            }
            assert(slot_offset(img1, lx as int, lz as int) == off32);
            assert(chunk_present(img1, lx as int, lz as int));
            let p = (off32 as int) * 4096;
            assert(p == base);
            assert(img1.subrange(p, p + 4) =~= seq![
                (len_field >> 24) as u8,
                (len_field >> 16) as u8,
                (len_field >> 8) as u8,
                len_field as u8,
            ]);
            let y0 = (len_field >> 24) as u8;
            let y1 = (len_field >> 16) as u8;
            let y2 = (len_field >> 8) as u8;
            let y3 = len_field as u8;
            assert(len_field == ((y0 as u32) << 24) | ((y1 as u32) << 16) | ((y2 as u32) << 8) | (
            y3 as u32)) by (bit_vector)
                requires
                    y0 == (len_field >> 24) as u8,
                    y1 == (len_field >> 16) as u8,
                    y2 == (len_field >> 8) as u8,
                    y3 == len_field as u8,
            {
            }
            crate::nbt::lemma_be32_decode(
                (len_field >> 24) as u8,
                (len_field >> 16) as u8,
                (len_field >> 8) as u8,
                len_field as u8,
                len_field,
            );
            assert(crate::nbt::be32_decode(img1.subrange(p, p + 4)) == len_field as int);
            assert(img1[p + 4] == 3);
            assert(img1.subrange(p + 5, p + 4 + len_field as int) =~= payload@);
            assert(chunk_payload(img1, lx as int, lz as int) == Some(payload@));
            assert forall|a: int, b: int|
                0 <= a < 32 && 0 <= b < 32 && !(a == lx as int && b == lz as int) && (
                #[trigger] chunk_payload(img0, a, b)) is Some implies chunk_payload(img1, a, b)
                == chunk_payload(img0, a, b) by {
                let sab = slot_index(a, b);
                assert(0 <= sab && sab + 3 < 8192);
                assert(sab + 3 < s || s + 3 < sab) by (nonlinear_arith)
                    requires
                        sab == 4 * (a + b * 32),
                        s == 4 * (lx as int + (lz as int) * 32),
                        0 <= a < 32,
                        0 <= b < 32,
                        0 <= lx < 32,
                        0 <= lz < 32,
                        !(a == lx as int && b == lz as int),
                {
                }
                assert(img1[sab] == img0[sab] && img1[sab + 1] == img0[sab + 1] && img1[sab + 2]
                    == img0[sab + 2] && img1[sab + 3] == img0[sab + 3]);
                assert(slot_offset(img1, a, b) == slot_offset(img0, a, b));
                assert(slot_count(img1, a, b) == slot_count(img0, a, b));
                let pab = (slot_offset(img0, a, b) as int) * 4096;
                assert(chunk_present(img0, a, b));
                assert(pab + 5 <= img0.len());
                let lab = crate::nbt::be32_decode(img0.subrange(pab, pab + 4));
                assert(pab + 4 + lab <= img0.len());
                assert(pab + 4 < img0.len());
                assert(forall|j: int|
                    0 <= j < img0.len() && !(s <= j < s + 4) ==> #[trigger] img1[j] == img0[j]);
                assert(pab >= 4096) by (nonlinear_arith)
                    requires
                        pab == (slot_offset(img0, a, b) as int) * 4096,
                        slot_offset(img0, a, b) != 0,
                {
                }
                assert(s + 4 <= 4096);
                assert(img1.subrange(pab, pab + 4) =~= img0.subrange(pab, pab + 4));
                assert(img1[pab + 4] == img0[pab + 4]);
                assert(img1.subrange(pab + 5, pab + 4 + lab) =~= img0.subrange(
                    pab + 5,
                    pab + 4 + lab,
                ));
            }
        }
        Ok(())
    }
}

/// Overwrites one byte of a vector.
fn set_byte(v: &mut Vec<u8>, i: usize, b: u8)
    requires
        i < old(v)@.len(),
    ensures
        final(v)@ == old(v)@.update(i as int, b),
{
    let ghost v0 = v@;
    v.remove(i);
    proof {
        assert(v@ =~= v0.remove(i as int));
    }
    v.insert(i, b);
    proof {
        assert(v@ =~= v0.update(i as int, b));
    }
}

/// The smallest number of bits that can index `n` distinct entries: the
/// ceiling of the base-two logarithm.
pub open spec fn ceil_log2(n: int) -> int
    decreases n,
{
    if n <= 1 {
        0
    } else {
        1 + ceil_log2((n + 1) / 2)
    }
}

/// The bit width of a palette of size `p`: at least four bits, and enough
/// bits to index every entry.
pub open spec fn spec_palette_bits(p: int) -> int {
    if ceil_log2(p) < 4 {
        4
    } else {
        ceil_log2(p)
    }
}

fn ceil_log2_exec(n: usize) -> (r: u32)
    requires
        n <= 0x1000_0000,
    ensures
        r as int == ceil_log2(n as int),
        r <= 33,
    decreases n,
{
    if n <= 1 {
        0
    } else {
        let r = 1 + ceil_log2_exec((n + 1) / 2);
        proof {
            lemma_ceil_log2_bound(n as int);
        }
        r
    }
}

/// Two to the power `k`.
pub open spec fn pow2(k: int) -> int
    decreases k,
{
    if k <= 0 {
        1
    } else {
        2 * pow2(k - 1)
    }
}

/// `ceil_log2(n)` is at most any `k` whose power of two covers `n`.
proof fn lemma_clog2_le(n: int, k: int)
    requires
        k >= 0,
        n <= pow2(k),
    ensures
        ceil_log2(n) <= k,
    decreases n,
{
    if n > 1 {
        assert(k >= 1) by {
            if k == 0 {
                assert(pow2(0) == 1);
            }
        }
        assert((n + 1) / 2 <= pow2(k - 1)) by (nonlinear_arith)
            requires
                n <= pow2(k),
                pow2(k) == 2 * pow2(k - 1),
                n > 1,
        {
        }
        lemma_clog2_le((n + 1) / 2, k - 1);
    }
}

proof fn lemma_ceil_log2_bound(n: int)
    requires
        n <= 0x1_0000_0000,
    ensures
        ceil_log2(n) <= 33,
{
    reveal_with_fuel(pow2, 40);
    assert(pow2(33) >= 0x1_0000_0000);
    if n <= 1 {
    } else {
        lemma_clog2_le(n, 33);
    }
}

/// The bit width used for a palette of size `p`: `max(4, ceil_log2(p))`.
pub fn palette_bits(p: usize) -> (r: u32)
    requires
        p <= 0x1000_0000,
    ensures
        r as int == spec_palette_bits(p as int),
        4 <= r <= 33,
{
    let c = ceil_log2_exec(p);
    if c < 4 {
        4
    } else {
        c
    }
}

/// The palette index stored for `cell` in the packed long array: indices
/// never cross a long boundary; each long holds `64 / bits` of them.
pub open spec fn spec_palette_index(data: Seq<u64>, bits: int, cell: int) -> Option<int> {
    let per_long = 64int / bits;
    let di = cell / per_long;
    let off = cell % per_long;
    if 0 <= di < data.len() {
        Some((((data[di] as u64) >> ((off * bits) as u64)) & (sub_mask(bits) as u64)) as int)
    } else {
        None
    }
}

/// The low-bits mask for a field of the given width.
pub open spec fn sub_mask(bits: int) -> u64 {
    ((1u64 << (bits as u64)) - 1) as u64
}

/// Extracts the palette index of `cell` from the packed long array.
pub fn palette_index(data: &Vec<u64>, bits: u32, cell: usize) -> (r: Result<u64, String>)
    requires
        4 <= bits <= 33,
        cell < 4096,
    ensures
        match r {
            Ok(v) => spec_palette_index(data@, bits as int, cell as int) == Some(v as int)
                && v <= 0xffff_ffff_ffff_ffffu64,
            Err(_) => spec_palette_index(data@, bits as int, cell as int) is None,
        },
{
    let per_long: usize = (64 / bits) as usize;
    proof {
        assert(per_long >= 1) by (nonlinear_arith)
            requires
                per_long == 64 as int / bits as int,
                4 <= bits <= 33,
        {
        }
    }
    let di = cell / per_long;
    let off = cell % per_long;
    if di >= data.len() {
        return Err(String::from_str("Block index out of packed data"));
    }
    proof {
        assert(off < per_long) by (nonlinear_arith)
            requires
                off == cell as int % (per_long as int),
                per_long as int >= 1,
                cell >= 0,
        {
        }
        assert(off * bits + bits <= 64) by (nonlinear_arith)
            requires
                off < per_long,
                per_long == 64 as int / bits as int,
                4 <= bits <= 33,
                off >= 0,
        {
        }
    }
    let shift: u32 = (off as u32) * bits;
    proof {
        assert(1u64 << (bits as u64) >= 1) by (bit_vector)
            requires
                4 <= bits <= 33,
        {
        }
    }
    let mask: u64 = (1u64 << (bits as u64)) - 1;
    let v = (data[di] >> (shift as u64)) & mask;
    Ok(v)
}

/// Unpacking a zero-filled long array always yields the palette's first
/// entry: every stored index is zero.
pub proof fn lemma_zero_data_unpacks_first(data: Seq<u64>, bits: int, cell: int)
    requires
        forall|k: int| 0 <= k < data.len() ==> #[trigger] data[k] == 0,
        4 <= bits <= 33,
        0 <= cell,
        spec_palette_index(data, bits, cell) is Some,
    ensures
        spec_palette_index(data, bits, cell) == Some(0int),
{
    let per_long = 64int / bits;
    let di = cell / per_long;
    let off = cell % per_long;
    assert(data[di] == 0);
    let sh = (off * bits) as u64;
    let m = sub_mask(bits);
    assert(((0u64 >> sh) & m) == 0) by (bit_vector);
}

/// One block state of a palette.
#[derive(Debug, Clone, PartialEq, Eq)]
pub struct Block {
    pub name: String,
}

/// The palette-indexed packed block storage of one section.
#[derive(Debug)]
pub struct Blockstates {
    pub palette: Vec<Block>,
    pub data: Option<Vec<u64>>,
}

impl Blockstates {
    /// The palette index the section stores for `(x, y, z)`: index zero
    /// without packed data, and the unpacked index otherwise. Nothing,
    /// exactly when a coordinate is out of range, the palette is empty,
    /// the cell lies outside the packed data, or the stored index is
    /// beyond the palette.
    pub open spec fn spec_block_lookup(&self, x: int, y: int, z: int) -> Option<int> {
        if !(0 <= x < 16 && 0 <= y < 16 && 0 <= z < 16) || self.palette@.len() == 0 {
            None
        } else {
            match self.data {
                None => Some(0int),
                Some(d) => {
                    let idx = spec_palette_index(
                        d@,
                        spec_palette_bits(self.palette@.len() as int),
                        (y * 16 + z) * 16 + x,
                    );
                    if idx is Some && idx->Some_0 < self.palette@.len() {
                        Some(idx->Some_0)
                    } else {
                        None
                    }
                },
            }
        }
    }

    /// The block at `(x, y, z)` within the section: the palette entry the
    /// stored index picks, failing exactly when the lookup stores none.
    pub fn get_block(&self, x: usize, y: usize, z: usize) -> (r: Result<&Block, String>)
        requires
            self.palette@.len() <= 0x1000_0000,
        ensures
            r is Ok <==> self.spec_block_lookup(x as int, y as int, z as int) is Some,
            r matches Ok(b) ==> *b == self.palette@[self.spec_block_lookup(
                x as int,
                y as int,
                z as int,
            )->Some_0],
    {
        if x >= 16 || y >= 16 || z >= 16 {
            return Err(String::from_str("Block coordinate out of range"));
        }
        if self.palette.len() == 0 {
            return Err(String::from_str("Empty palette"));
        }
        match &self.data {
            None => Ok(&self.palette[0]),
            Some(d) => {
                let cell = (y * 16 + z) * 16 + x;
                let bits = palette_bits(self.palette.len());
                let idx = match palette_index(d, bits, cell) {
                    Ok(v) => v,
                    Err(e) => {
                        return Err(e);
                    },
                };
                if idx >= self.palette.len() as u64 {
                    return Err(String::from_str("Palette index out of range"));
                }
                Ok(&self.palette[idx as usize])
            },
        }
    }
}

/// A sixteen-block-tall slab of a chunk.
#[derive(Debug)]
pub struct Section {
    pub block_states: Blockstates,
}

impl Section {
    /// The palette entry for `(x, y, z)` within this section; the same
    /// lookup as `Blockstates::get_block`.
    pub fn get_palette_item(&self, x: usize, y: usize, z: usize) -> (r: Result<&Block, String>)
        requires
            self.block_states.palette@.len() <= 0x1000_0000,
        ensures
            r is Ok <==> self.block_states.spec_block_lookup(
                x as int,
                y as int,
                z as int,
            ) is Some,
            r matches Ok(b) ==> *b == self.block_states.palette@[self.block_states.spec_block_lookup(
                x as int,
                y as int,
                z as int,
            )->Some_0],
    {
        self.block_states.get_block(x, y, z)
    }
}

/// A parsed chunk: its sections, bottom first.
#[derive(Debug)]
pub struct Chunk {
    pub sections: Vec<Section>,
}

impl Chunk {
    /// The section index and palette index for world-local `(x, y, z)`:
    /// the section at `y / 16`, the cell at `y % 16`. Nothing, exactly
    /// when the horizontal coordinates leave the chunk, the height leaves
    /// the stored sections, or that section's own lookup stores none.
    pub open spec fn spec_chunk_lookup(&self, x: int, y: int, z: int) -> Option<(int, int)> {
        if !(0 <= x < 16 && 0 <= z < 16) || y < 0 || y / 16 >= self.sections@.len() {
            None
        } else {
            match self.sections@[y / 16].block_states.spec_block_lookup(x, y % 16, z) {
                Some(pi) => Some((y / 16, pi)),
                None => None,
            }
        }
    }

    /// The block at world-local `(x, y, z)`: the palette entry of the
    /// section the height selects, failing exactly when the lookup stores
    /// none.
    pub fn get_block(&self, x: usize, y: usize, z: usize) -> (r: Result<&Block, String>)
        requires
            forall|k: int|
                0 <= k < self.sections@.len()
                    ==> (#[trigger] self.sections@[k]).block_states.palette@.len()
                    <= 0x1000_0000,
        ensures
            r is Ok <==> self.spec_chunk_lookup(x as int, y as int, z as int) is Some,
            r matches Ok(b) ==> ({
                let si = self.spec_chunk_lookup(x as int, y as int, z as int)->Some_0.0;
                let pi = self.spec_chunk_lookup(x as int, y as int, z as int)->Some_0.1;
                *b == self.sections@[si].block_states.palette@[pi]
            }),
    {
        if x >= 16 || z >= 16 {
            return Err(String::from_str("Block coordinate out of range"));
        }
        let si = y / 16;
        let sy = y % 16;
        if si >= self.sections.len() {
            return Err(String::from_str("Y coordinate out of range"));
        }
        proof {
            assert(sy < 16 && si == y as int / 16 && sy == y as int % 16) by (nonlinear_arith)
                requires
                    si == y as int / 16,
                    sy == y as int % 16,
                    y >= 0,
            {
            }
        }
        self.sections[si].block_states.get_block(x, sy, z)
    }
}

} // verus!
