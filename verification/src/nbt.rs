//! The tagged binary record format of chunk payloads.
//!
//! Values carry a one-byte tag id, big-endian scalars, length-prefixed
//! strings and arrays, and end-marked compounds. The writer is verified
//! to produce exactly the encoding of the value; the reader is verified
//! to return a value whose encoding is exactly the bytes it consumed.
//! Floating-point payloads are carried as their raw big-endian bit
//! patterns, which keeps the codec byte-faithful.

use vstd::prelude::*;

verus! {

broadcast use {vstd::seq::group_seq_axioms, vstd::std_specs::vec::group_vec_axioms};

/// One value of the record format. `Float` and `Double` hold the raw bit
/// patterns of the four- and eight-byte payloads.
#[derive(Debug, PartialEq)]
pub enum NbtValue {
    Byte(i8),
    Short(i16),
    Int(i32),
    Long(i64),
    Float(u32),
    Double(u64),
    ByteArray(Vec<i8>),
    String(String),
    List(Vec<NbtValue>),
    Compound(Vec<(String, NbtValue)>),
    IntArray(Vec<i32>),
    LongArray(Vec<i64>),
}

/// A named root value.
#[derive(Debug, PartialEq)]
pub struct NbtTag {
    pub name: String,
    pub value: NbtValue,
}

/// The tag id of a value.
pub open spec fn tag_type(v: NbtValue) -> u8 {
    match v {
        NbtValue::Byte(_) => 1,
        NbtValue::Short(_) => 2,
        NbtValue::Int(_) => 3,
        NbtValue::Long(_) => 4,
        NbtValue::Float(_) => 5,
        NbtValue::Double(_) => 6,
        NbtValue::ByteArray(_) => 7,
        NbtValue::String(_) => 8,
        NbtValue::List(_) => 9,
        NbtValue::Compound(_) => 10,
        NbtValue::IntArray(_) => 11,
        NbtValue::LongArray(_) => 12,
    }
}

/// Big-endian bytes of a 16-bit quantity.
pub open spec fn be16(n: u16) -> Seq<u8> {
    seq![(n >> 8) as u8, n as u8]
}

/// Big-endian bytes of a 32-bit quantity.
pub open spec fn be32(n: u32) -> Seq<u8> {
    seq![(n >> 24) as u8, (n >> 16) as u8, (n >> 8) as u8, n as u8]
}

/// Big-endian bytes of a 64-bit quantity.
pub open spec fn be64(n: u64) -> Seq<u8> {
    seq![
        (n >> 56) as u8,
        (n >> 48) as u8,
        (n >> 40) as u8,
        (n >> 32) as u8,
        (n >> 24) as u8,
        (n >> 16) as u8,
        (n >> 8) as u8,
        n as u8,
    ]
}

/// The 32-bit big-endian value held in four bytes.
pub open spec fn be32_decode(b: Seq<u8>) -> int {
    ((((b[0] as u32) << 24) | ((b[1] as u32) << 16) | ((b[2] as u32) << 8) | (b[3] as u32))) as int
}

/// Decoding four big-endian bytes recovers the value they encode.
pub proof fn lemma_be32_decode(b0: u8, b1: u8, b2: u8, b3: u8, n: u32)
    requires
        n == ((b0 as u32) << 24) | ((b1 as u32) << 16) | ((b2 as u32) << 8) | (b3 as u32),
    ensures
        be32_decode(seq![b0, b1, b2, b3]) == n as int,
{
}

/// The encoded bytes of a string payload: two length bytes, then the
/// UTF-8 bytes.
pub open spec fn enc_string(s: Seq<char>) -> Seq<u8> {
    be16(vstd::utf8::encode_utf8(s).len() as u16) + vstd::utf8::encode_utf8(s)
}

/// The encoded payload of a value, without its tag id.
pub open spec fn enc_value(v: NbtValue) -> Seq<u8>
    decreases v,
{
    match v {
        NbtValue::Byte(b) => seq![b as u8],
        NbtValue::Short(n) => be16(n as u16),
        NbtValue::Int(n) => be32(n as u32),
        NbtValue::Long(n) => be64(n as u64),
        NbtValue::Float(n) => be32(n),
        NbtValue::Double(n) => be64(n),
        NbtValue::ByteArray(a) => be32(a@.len() as u32) + Seq::new(
            a@.len(),
            |i: int| a@[i] as u8,
        ),
        NbtValue::String(s) => enc_string(s@),
        NbtValue::List(items) => seq![
            if items@.len() == 0 {
                0u8
            } else {
                tag_type(items@[0])
            },
        ] + be32(items@.len() as u32) + enc_items(items@),
        NbtValue::Compound(pairs) => enc_pairs(pairs@) + seq![0u8],
        NbtValue::IntArray(a) => be32(a@.len() as u32) + enc_ints(a@),
        NbtValue::LongArray(a) => be32(a@.len() as u32) + enc_longs(a@),
    }
}

/// The concatenated payloads of list items.
pub open spec fn enc_items(items: Seq<NbtValue>) -> Seq<u8>
    decreases items,
{
    if items.len() == 0 {
        Seq::<u8>::empty()
    } else {
        enc_value(items[0]) + enc_items(items.drop_first())
    }
}

/// The concatenated entries of a compound: tag id, name, payload each.
pub open spec fn enc_pairs(pairs: Seq<(String, NbtValue)>) -> Seq<u8>
    decreases pairs,
{
    if pairs.len() == 0 {
        Seq::<u8>::empty()
    } else {
        seq![tag_type(pairs[0].1)] + enc_string(pairs[0].0@) + enc_value(pairs[0].1) + enc_pairs(
            pairs.drop_first(),
        )
    }
}

/// The encoded 32-bit payloads of an integer array.
pub open spec fn enc_ints(a: Seq<i32>) -> Seq<u8>
    decreases a.len(),
{
    if a.len() == 0 {
        Seq::<u8>::empty()
    } else {
        be32(a[0] as u32) + enc_ints(a.drop_first())
    }
}

/// The encoded 64-bit payloads of a long array.
pub open spec fn enc_longs(a: Seq<i64>) -> Seq<u8>
    decreases a.len(),
{
    if a.len() == 0 {
        Seq::<u8>::empty()
    } else {
        be64(a[0] as u64) + enc_longs(a.drop_first())
    }
}

/// The encoded bytes of a named root value: tag id, name, payload.
pub open spec fn enc_tag(t: NbtTag) -> Seq<u8> {
    seq![tag_type(t.value)] + enc_string(t.name@) + enc_value(t.value)
}

/// Relies on `String::from_utf8`: it succeeds exactly on valid UTF-8,
/// and the returned string's UTF-8 encoding is the input bytes.
#[verifier::external_body]
pub fn utf8_to_string(b: Vec<u8>) -> (r: Result<String, String>)
    ensures
        r is Ok <==> vstd::utf8::valid_utf8(b@),
        r matches Ok(s) ==> vstd::utf8::encode_utf8(s@) == b@,
{
    match String::from_utf8(b) {
        Ok(s) => Ok(s),
        Err(_) => Err(String::from_str("Invalid UTF-8")),
    }
}

/// Writes values into a growing byte buffer.
pub struct NbtWriter {
    out: Vec<u8>,
}

impl NbtWriter {
    pub closed spec fn bytes(&self) -> Seq<u8> {
        self.out@
    }

    pub fn new() -> (r: NbtWriter)
        ensures
            r.bytes() =~= Seq::<u8>::empty(),
    {
        NbtWriter { out: Vec::new() }
    }

    /// The bytes written so far.
    pub fn into_bytes(self) -> (r: Vec<u8>)
        ensures
            r@ == self.bytes(),
    {
        self.out
    }

    fn write_u8(&mut self, b: u8)
        ensures
            final(self).bytes() == old(self).bytes().push(b),
    {
        self.out.push(b);
    }

    fn write_be16(&mut self, n: u16)
        ensures
            final(self).bytes() == old(self).bytes() + be16(n),
    {
        self.out.push((n >> 8) as u8);
        self.out.push(n as u8);
        proof {
            assert(self.out@ =~= old(self).out@ + be16(n));
        }
    }

    fn write_be32(&mut self, n: u32)
        ensures
            final(self).bytes() == old(self).bytes() + be32(n),
    {
        self.out.push((n >> 24) as u8);
        self.out.push((n >> 16) as u8);
        self.out.push((n >> 8) as u8);
        self.out.push(n as u8);
        proof {
            assert(self.out@ =~= old(self).out@ + be32(n));
        }
    }

    fn write_be64(&mut self, n: u64)
        ensures
            final(self).bytes() == old(self).bytes() + be64(n),
    {
        self.out.push((n >> 56) as u8);
        self.out.push((n >> 48) as u8);
        self.out.push((n >> 40) as u8);
        self.out.push((n >> 32) as u8);
        self.out.push((n >> 24) as u8);
        self.out.push((n >> 16) as u8);
        self.out.push((n >> 8) as u8);
        self.out.push(n as u8);
        proof {
            assert(self.out@ =~= old(self).out@ + be64(n));
        }
    }

    fn push_str_bytes(&mut self, s: &str)
        ensures
            final(self).bytes() == old(self).bytes() + vstd::utf8::encode_utf8(s@),
    {
        let b = s.as_bytes_vec();
        let ghost bv = b@;
        let mut i: usize = 0;
        proof {
            assert(self.out@ =~= old(self).out@ + bv.take(0));
        }
        while i < b.len()
            invariant
                b@ == bv,
                bv == vstd::utf8::encode_utf8(s@),
                0 <= i <= bv.len(),
                self.out@ == old(self).out@ + bv.take(i as int),
            decreases bv.len() - i,
        {
            self.out.push(b[i]);
            proof {
                assert(self.out@ =~= old(self).out@ + bv.take(i + 1));
            }
            i = i + 1;
        }
        proof {
            assert(bv.take(bv.len() as int) =~= bv);
        }
    }

    fn write_string(&mut self, s: &str)
        requires
            vstd::utf8::encode_utf8(s@).len() <= 0xffff,
        ensures
            final(self).bytes() == old(self).bytes() + enc_string(s@),
    {
        let b = s.as_bytes_vec();
        proof {
            vstd::string::is_ascii_spec_bytes(s);
        }
        if b.len() > 0xffff {
            proof {
                assert(false);
            }
        }
        self.write_be16(b.len() as u16);
        self.push_str_bytes(s);
        proof {
            assert(self.bytes() =~= old(self).bytes() + enc_string(s@));
        }
    }

    /// Writes the payload of a value; the name and tag id of the root are
    /// written by `write_tag`. Succeeds whenever the value is well formed
    /// and its encoding fits the buffer budget; whatever happens, the
    /// bytes already written stay in place.
    pub fn write_value(&mut self, value: &NbtValue) -> (r: Result<(), String>)
        requires
            old(self).bytes().len() < 0x2000_0000,
        ensures
            (write_fits(old(self).bytes().len() as int, *value) ==> r is Ok),
            final(self).bytes().len() >= old(self).bytes().len(),
            final(self).bytes().subrange(0, old(self).bytes().len() as int) == old(self).bytes(),
            match r {
                Ok(_) => final(self).bytes() == old(self).bytes() + enc_value(*value),
                Err(_) => true,
            },
        decreases *value,
    {
        match value {
            NbtValue::Byte(b) => {
                self.write_u8(*b as u8);
                proof {
                    assert(self.bytes() =~= old(self).bytes() + enc_value(*value));
                    lemma_prefix_extends(old(self).bytes(), enc_value(*value));
                }
                Ok(())
            },
            NbtValue::Short(n) => {
                self.write_be16(*n as u16);
                proof {
                    lemma_prefix_extends(old(self).bytes(), enc_value(*value));
                }
                Ok(())
            },
            NbtValue::Int(n) => {
                self.write_be32(*n as u32);
                proof {
                    lemma_prefix_extends(old(self).bytes(), enc_value(*value));
                }
                Ok(())
            },
            NbtValue::Long(n) => {
                self.write_be64(*n as u64);
                proof {
                    lemma_prefix_extends(old(self).bytes(), enc_value(*value));
                }
                Ok(())
            },
            NbtValue::Float(n) => {
                self.write_be32(*n);
                proof {
                    lemma_prefix_extends(old(self).bytes(), enc_value(*value));
                }
                Ok(())
            },
            NbtValue::Double(n) => {
                self.write_be64(*n);
                proof {
                    lemma_prefix_extends(old(self).bytes(), enc_value(*value));
                }
                Ok(())
            },
            NbtValue::ByteArray(a) => {
                if a.len() > 0x7fff_ffff {
                    proof {
                        assert(self.bytes().subrange(0, old(self).bytes().len() as int)
                            =~= old(self).bytes());
                    }
                    return Err(String::from_str("Array too long"));
                }
                self.write_be32(a.len() as u32);
                let ghost mid = self.bytes();
                let ghost av = a@;
                let mut i: usize = 0;
                while i < a.len()
                    invariant
                        a@ == av,
                        0 <= i <= av.len(),
                        self.bytes() =~= mid + Seq::new(i as nat, |k: int| av[k] as u8),
                    decreases av.len() - i,
                {
                    self.write_u8(a[i] as u8);
                    proof {
                        assert(self.bytes() =~= mid + Seq::new(
                            (i + 1) as nat,
                            |k: int| av[k] as u8,
                        ));
                    }
                    i = i + 1;
                }
                proof {
                    assert(self.bytes() =~= old(self).bytes() + enc_value(*value));
                    lemma_prefix_extends(old(self).bytes(), enc_value(*value));
                }
                Ok(())
            },
            NbtValue::String(s) => {
                let b = s.as_str().as_bytes_vec();
                proof {
                    assert(b@ == vstd::utf8::encode_utf8(s@));
                }
                if b.len() > 0xffff {
                    proof {
                        assert(self.bytes().subrange(0, old(self).bytes().len() as int)
                            =~= old(self).bytes());
                    }
                    return Err(String::from_str("String too long"));
                }
                self.write_string(s.as_str());
                proof {
                    assert(self.bytes() =~= old(self).bytes() + enc_value(*value));
                    lemma_prefix_extends(old(self).bytes(), enc_value(*value));
                }
                Ok(())
            },
            NbtValue::List(items) => {
                if items.len() > 0x7fff_ffff {
                    proof {
                        assert(self.bytes().subrange(0, old(self).bytes().len() as int)
                            =~= old(self).bytes());
                    }
                    return Err(String::from_str("List too long"));
                }
                let elem_type = if items.len() == 0 {
                    0
                } else {
                    tag_type_exec(&items[0])
                };
                self.write_u8(elem_type);
                self.write_be32(items.len() as u32);
                let ghost mid = self.bytes();
                let ghost iv = items@;
                let ghost header = enc_value(*value).subrange(0, 5);
                proof {
                    assert(enc_value(*value) =~= header + enc_items(iv));
                    assert(mid =~= old(self).bytes() + header);
                }
                let mut i: usize = 0;
                while i < items.len()
                    invariant
                        *value == NbtValue::List(*items),
                        items@ == iv,
                        0 <= i <= iv.len(),
                        mid == old(self).bytes() + header,
                        enc_value(*value) == header + enc_items(iv),
                        old(self).bytes().len() < 0x2000_0000,
                        self.bytes() =~= mid + enc_items(iv.take(i as int)),
                    decreases iv.len() - i,
                {
                    proof {
                        lemma_enc_items_split_at(iv, i as int);
                    }
                    if self.out.len() >= 0x1000_0000 {
                        proof {
                            assert(self.bytes().subrange(
                                0,
                                old(self).bytes().len() as int,
                            ) =~= old(self).bytes());
                            if write_fits(old(self).bytes().len() as int, *value) {
                                assert(false);
                            }
                        }
                        return Err(String::from_str("Buffer too large"));
                    }
                    proof {
                        assert(decreases_to!(*value => value->List_0));
                        assert(value->List_0 == *items);
                        assert(decreases_to!(*items => items@));
                        assert(decreases_to!(items@ => items@[i as int]));
                    }
                    let ghost pre_call = self.bytes();
                    let rr = self.write_value(&items[i]);
                    match rr {
                        Ok(_) => {},
                        Err(e) => {
                            proof {
                                assert(self.bytes().subrange(0, pre_call.len() as int)
                                    == pre_call);
                                assert(self.bytes().subrange(
                                    0,
                                    old(self).bytes().len() as int,
                                ) =~= old(self).bytes());
                                if write_fits(old(self).bytes().len() as int, *value) {
                                    assert(wf_nbt(iv[i as int]));
                                    assert(write_fits(pre_call.len() as int, iv[i as int]));
                                    assert(false);
                                }
                            }
                            return Err(e);
                        },
                    }
                    proof {
                        lemma_enc_items_snoc(iv, i as int);
                        assert(self.bytes() =~= mid + enc_items(iv.take(i + 1)));
                    }
                    i = i + 1;
                }
                proof {
                    assert(iv.take(iv.len() as int) =~= iv);
                    assert(self.bytes() =~= old(self).bytes() + enc_value(*value));
                    lemma_prefix_extends(old(self).bytes(), enc_value(*value));
                }
                Ok(())
            },
            NbtValue::Compound(pairs) => {
                let ghost mid = self.bytes();
                let ghost pv = pairs@;
                let mut i: usize = 0;
                while i < pairs.len()
                    invariant
                        *value == NbtValue::Compound(*pairs),
                        pairs@ == pv,
                        0 <= i <= pv.len(),
                        mid == old(self).bytes(),
                        old(self).bytes().len() < 0x2000_0000,
                        self.bytes() =~= mid + enc_pairs(pv.take(i as int)),
                    decreases pv.len() - i,
                {
                    proof {
                        lemma_enc_pairs_split_at(pv, i as int);
                        assert(enc_value(*value) == enc_pairs(pv) + seq![0u8]);
                    }
                    if self.out.len() >= 0x1000_0000 {
                        proof {
                            assert(self.bytes().subrange(
                                0,
                                old(self).bytes().len() as int,
                            ) =~= old(self).bytes());
                            if write_fits(old(self).bytes().len() as int, *value) {
                                assert(false);
                            }
                        }
                        return Err(String::from_str("Buffer too large"));
                    }
                    let b = pairs[i].0.as_str().as_bytes_vec();
                    proof {
                        assert(b@ == vstd::utf8::encode_utf8(pv[i as int].0@));
                    }
                    if b.len() > 0xffff {
                        proof {
                            assert(self.bytes().subrange(
                                0,
                                old(self).bytes().len() as int,
                            ) =~= old(self).bytes());
                        }
                        return Err(String::from_str("Name too long"));
                    }
                    self.write_u8(tag_type_exec(&pairs[i].1));
                    self.write_string(pairs[i].0.as_str());
                    proof {
                        assert(decreases_to!(*value => value->Compound_0));
                        assert(value->Compound_0 == *pairs);
                        assert(decreases_to!(*pairs => pairs@));
                        assert(decreases_to!(pairs@ => pairs@[i as int]));
                        assert(decreases_to!(pairs@[i as int] => pairs@[i as int].1));
                    }
                    let ghost pre_call = self.bytes();
                    proof {
                        assert(pre_call =~= mid + (enc_pairs(pv.take(i as int)) + (seq![
                            tag_type(pv[i as int].1),
                        ] + enc_string(pv[i as int].0@))));
                    }
                    let rr = self.write_value(&pairs[i].1);
                    match rr {
                        Ok(_) => {},
                        Err(e) => {
                            proof {
                                assert(self.bytes().subrange(0, pre_call.len() as int)
                                    == pre_call);
                                assert(self.bytes().subrange(
                                    0,
                                    old(self).bytes().len() as int,
                                ) =~= old(self).bytes());
                                if write_fits(old(self).bytes().len() as int, *value) {
                                    assert(wf_nbt(pv[i as int].1));
                                    assert(write_fits(pre_call.len() as int, pv[i as int].1));
                                    assert(false);
                                }
                            }
                            return Err(e);
                        },
                    }
                    proof {
                        lemma_enc_pairs_snoc(pv, i as int);
                        assert(self.bytes() =~= mid + enc_pairs(pv.take(i + 1)));
                    }
                    i = i + 1;
                }
                self.write_u8(0);
                proof {
                    assert(pv.take(pv.len() as int) =~= pv);
                    assert(self.bytes() =~= old(self).bytes() + enc_value(*value));
                    lemma_prefix_extends(old(self).bytes(), enc_value(*value));
                }
                Ok(())
            },
            NbtValue::IntArray(a) => {
                if a.len() > 0x7fff_ffff {
                    proof {
                        assert(self.bytes().subrange(0, old(self).bytes().len() as int)
                            =~= old(self).bytes());
                    }
                    return Err(String::from_str("Array too long"));
                }
                self.write_be32(a.len() as u32);
                let ghost mid = self.bytes();
                let ghost av = a@;
                let mut i: usize = 0;
                while i < a.len()
                    invariant
                        a@ == av,
                        0 <= i <= av.len(),
                        self.bytes() =~= mid + enc_ints(av.take(i as int)),
                    decreases av.len() - i,
                {
                    self.write_be32(a[i] as u32);
                    proof {
                        lemma_enc_ints_snoc(av, i as int);
                        assert(self.bytes() =~= mid + enc_ints(av.take(i + 1)));
                    }
                    i = i + 1;
                }
                proof {
                    assert(av.take(av.len() as int) =~= av);
                    assert(self.bytes() =~= old(self).bytes() + enc_value(*value));
                    lemma_prefix_extends(old(self).bytes(), enc_value(*value));
                }
                Ok(())
            },
            NbtValue::LongArray(a) => {
                if a.len() > 0x7fff_ffff {
                    proof {
                        assert(self.bytes().subrange(0, old(self).bytes().len() as int)
                            =~= old(self).bytes());
                    }
                    return Err(String::from_str("Array too long"));
                }
                self.write_be32(a.len() as u32);
                let ghost mid = self.bytes();
                let ghost av = a@;
                let mut i: usize = 0;
                while i < a.len()
                    invariant
                        a@ == av,
                        0 <= i <= av.len(),
                        self.bytes() =~= mid + enc_longs(av.take(i as int)),
                    decreases av.len() - i,
                {
                    self.write_be64(a[i] as u64);
                    proof {
                        lemma_enc_longs_snoc(av, i as int);
                        assert(self.bytes() =~= mid + enc_longs(av.take(i + 1)));
                    }
                    i = i + 1;
                }
                proof {
                    assert(av.take(av.len() as int) =~= av);
                    assert(self.bytes() =~= old(self).bytes() + enc_value(*value));
                    lemma_prefix_extends(old(self).bytes(), enc_value(*value));
                }
                Ok(())
            },
        }
    }

    /// Writes a named root value: tag id, name, payload. Succeeds
    /// whenever the tag is well formed and its encoding fits the buffer
    /// budget; whatever happens, the bytes already written stay in place.
    pub fn write_tag(&mut self, tag: &NbtTag) -> (r: Result<(), String>)
        requires
            old(self).bytes().len() < 0x1000_0000,
        ensures
            (wf_nbt_tag(*tag) && old(self).bytes().len() + enc_tag(*tag).len() < 0x1000_0000
                ==> r is Ok),
            final(self).bytes().len() >= old(self).bytes().len(),
            final(self).bytes().subrange(0, old(self).bytes().len() as int) == old(self).bytes(),
            match r {
                Ok(_) => final(self).bytes() == old(self).bytes() + enc_tag(*tag),
                Err(_) => true,
            },
    {
        let b = tag.name.as_str().as_bytes_vec();
        proof {
            assert(b@ == vstd::utf8::encode_utf8(tag.name@));
        }
        if b.len() > 0xffff {
            proof {
                assert(self.bytes().subrange(0, old(self).bytes().len() as int)
                    =~= old(self).bytes());
            }
            return Err(String::from_str("Name too long"));
        }
        self.write_u8(tag_type_exec(&tag.value));
        self.write_string(tag.name.as_str());
        let ghost pre_call = self.bytes();
        proof {
            assert(pre_call =~= old(self).bytes() + (seq![tag_type(tag.value)] + enc_string(
                tag.name@,
            )));
        }
        let rr = self.write_value(&tag.value);
        match rr {
            Ok(_) => {
                proof {
                    assert(self.bytes() =~= old(self).bytes() + enc_tag(*tag));
                    lemma_prefix_extends(old(self).bytes(), enc_tag(*tag));
                }
                Ok(())
            },
            Err(e) => {
                proof {
                    assert(self.bytes().subrange(0, pre_call.len() as int) == pre_call);
                    assert(self.bytes().subrange(0, old(self).bytes().len() as int)
                        =~= old(self).bytes());
                    if wf_nbt_tag(*tag) && old(self).bytes().len() + enc_tag(*tag).len()
                        < 0x1000_0000 {
                        assert(write_fits(pre_call.len() as int, tag.value));
                        assert(false);
                    }
                }
                Err(e)
            },
        }
    }
}

/// The tag id of a value.
pub fn tag_type_exec(v: &NbtValue) -> (r: u8)
    ensures
        r == tag_type(*v),
{
    match v {
        NbtValue::Byte(_) => 1,
        NbtValue::Short(_) => 2,
        NbtValue::Int(_) => 3,
        NbtValue::Long(_) => 4,
        NbtValue::Float(_) => 5,
        NbtValue::Double(_) => 6,
        NbtValue::ByteArray(_) => 7,
        NbtValue::String(_) => 8,
        NbtValue::List(_) => 9,
        NbtValue::Compound(_) => 10,
        NbtValue::IntArray(_) => 11,
        NbtValue::LongArray(_) => 12,
    }
}


/// Whether a value is well formed and its encoding fits the writer's
/// budget when writing starts at `pos`: the writer then owes success.
pub open spec fn write_fits(pos: int, v: NbtValue) -> bool {
    wf_nbt(v) && pos + enc_value(v).len() < 0x1000_0000
}

/// Whatever is appended, the old bytes stay as the prefix.
proof fn lemma_prefix_extends(a: Seq<u8>, e: Seq<u8>)
    ensures
        (a + e).subrange(0, a.len() as int) == a,
        (a + e).len() >= a.len(),
{
    assert((a + e).subrange(0, a.len() as int) =~= a);
}

/// The length header of a long array.
pub open spec fn be64_header(a: Seq<i64>) -> Seq<u8> {
    be32(a.len() as u32)
}

/// The encoding of a list splits around any item.
proof fn lemma_enc_items_split_at(s: Seq<NbtValue>, i: int)
    requires
        0 <= i < s.len(),
    ensures
        enc_items(s) == enc_items(s.take(i)) + (enc_value(s[i]) + enc_items(s.skip(i + 1))),
    decreases i,
{
    if i == 0 {
        assert(s.take(0) =~= Seq::<NbtValue>::empty());
        assert(s.skip(1) =~= s.drop_first());
        assert(enc_items(s) =~= enc_items(s.take(0)) + (enc_value(s[0]) + enc_items(s.skip(1))));
    } else {
        let shifted = s.drop_first();
        lemma_enc_items_split_at(shifted, i - 1);
        assert(s.take(i).drop_first() =~= shifted.take(i - 1));
        assert(s.take(i)[0] == s[0]);
        assert(shifted[i - 1] == s[i]);
        assert(shifted.skip(i) =~= s.skip(i + 1));
        assert(enc_items(s) =~= enc_items(s.take(i)) + (enc_value(s[i]) + enc_items(
            s.skip(i + 1),
        )));
    }
}

/// The encoding of compound entries splits around any entry.
proof fn lemma_enc_pairs_split_at(s: Seq<(String, NbtValue)>, i: int)
    requires
        0 <= i < s.len(),
    ensures
        enc_pairs(s) == enc_pairs(s.take(i)) + (seq![tag_type(s[i].1)] + enc_string(s[i].0@) + (
        enc_value(s[i].1) + enc_pairs(s.skip(i + 1)))),
    decreases i,
{
    if i == 0 {
        assert(s.take(0) =~= Seq::<(String, NbtValue)>::empty());
        assert(s.skip(1) =~= s.drop_first());
        assert(enc_pairs(s) =~= enc_pairs(s.take(0)) + (seq![tag_type(s[0].1)] + enc_string(
            s[0].0@,
        ) + (enc_value(s[0].1) + enc_pairs(s.skip(1)))));
    } else {
        let shifted = s.drop_first();
        lemma_enc_pairs_split_at(shifted, i - 1);
        assert(s.take(i).drop_first() =~= shifted.take(i - 1));
        assert(s.take(i)[0] == s[0]);
        assert(shifted[i - 1] == s[i]);
        assert(shifted.skip(i) =~= s.skip(i + 1));
        assert(enc_pairs(s) =~= enc_pairs(s.take(i)) + (seq![tag_type(s[i].1)] + enc_string(
            s[i].0@,
        ) + (enc_value(s[i].1) + enc_pairs(s.skip(i + 1)))));
    }
}

proof fn lemma_enc_items_snoc(items: Seq<NbtValue>, i: int)
    requires
        0 <= i < items.len(),
    ensures
        enc_items(items.take(i + 1)) == enc_items(items.take(i)) + enc_value(items[i]),
    decreases i,
{
    if i == 0 {
        assert(items.take(1) =~= seq![items[0]]);
        assert(items.take(0) =~= Seq::<NbtValue>::empty());
        assert(seq![items[0]].drop_first() =~= Seq::<NbtValue>::empty());
        assert(enc_items(items.take(1)) =~= enc_items(items.take(0)) + enc_value(items[0]));
    } else {
        let shifted = items.drop_first();
        lemma_enc_items_snoc(shifted, i - 1);
        assert(items.take(i + 1).drop_first() =~= shifted.take(i));
        assert(items.take(i).drop_first() =~= shifted.take(i - 1));
        assert(items.take(i + 1)[0] == items[0]);
        assert(items.take(i)[0] == items[0]);
        assert(shifted[i - 1] == items[i]);
        assert(enc_items(items.take(i + 1)) =~= enc_items(items.take(i)) + enc_value(items[i]));
    }
}

proof fn lemma_enc_pairs_snoc(pairs: Seq<(String, NbtValue)>, i: int)
    requires
        0 <= i < pairs.len(),
    ensures
        enc_pairs(pairs.take(i + 1)) == enc_pairs(pairs.take(i)) + (seq![tag_type(pairs[i].1)]
            + enc_string(pairs[i].0@) + enc_value(pairs[i].1)),
    decreases i,
{
    if i == 0 {
        assert(pairs.take(1) =~= seq![pairs[0]]);
        assert(pairs.take(0) =~= Seq::<(String, NbtValue)>::empty());
        assert(seq![pairs[0]].drop_first() =~= Seq::<(String, NbtValue)>::empty());
        assert(enc_pairs(pairs.take(1)) =~= enc_pairs(pairs.take(0)) + (seq![
            tag_type(pairs[0].1),
        ] + enc_string(pairs[0].0@) + enc_value(pairs[0].1)));
    } else {
        let shifted = pairs.drop_first();
        lemma_enc_pairs_snoc(shifted, i - 1);
        assert(pairs.take(i + 1).drop_first() =~= shifted.take(i));
        assert(pairs.take(i).drop_first() =~= shifted.take(i - 1));
        assert(pairs.take(i + 1)[0] == pairs[0]);
        assert(pairs.take(i)[0] == pairs[0]);
        assert(shifted[i - 1] == pairs[i]);
        assert(enc_pairs(pairs.take(i + 1)) =~= enc_pairs(pairs.take(i)) + (seq![
            tag_type(pairs[i].1),
        ] + enc_string(pairs[i].0@) + enc_value(pairs[i].1)));
    }
}

proof fn lemma_enc_ints_snoc(a: Seq<i32>, i: int)
    requires
        0 <= i < a.len(),
    ensures
        enc_ints(a.take(i + 1)) == enc_ints(a.take(i)) + be32(a[i] as u32),
    decreases i,
{
    if i == 0 {
        assert(a.take(1) =~= seq![a[0]]);
        assert(a.take(0) =~= Seq::<i32>::empty());
        assert(seq![a[0]].drop_first() =~= Seq::<i32>::empty());
        assert(enc_ints(a.take(1)) =~= enc_ints(a.take(0)) + be32(a[0] as u32));
    } else {
        let shifted = a.drop_first();
        lemma_enc_ints_snoc(shifted, i - 1);
        assert(a.take(i + 1).drop_first() =~= shifted.take(i));
        assert(a.take(i).drop_first() =~= shifted.take(i - 1));
        assert(a.take(i + 1)[0] == a[0]);
        assert(a.take(i)[0] == a[0]);
        assert(shifted[i - 1] == a[i]);
        assert(enc_ints(a.take(i + 1)) =~= enc_ints(a.take(i)) + be32(a[i] as u32));
    }
}

proof fn lemma_enc_longs_snoc(a: Seq<i64>, i: int)
    requires
        0 <= i < a.len(),
    ensures
        enc_longs(a.take(i + 1)) == enc_longs(a.take(i)) + be64(a[i] as u64),
    decreases i,
{
    if i == 0 {
        assert(a.take(1) =~= seq![a[0]]);
        assert(a.take(0) =~= Seq::<i64>::empty());
        assert(seq![a[0]].drop_first() =~= Seq::<i64>::empty());
        assert(enc_longs(a.take(1)) =~= enc_longs(a.take(0)) + be64(a[0] as u64));
    } else {
        let shifted = a.drop_first();
        lemma_enc_longs_snoc(shifted, i - 1);
        assert(a.take(i + 1).drop_first() =~= shifted.take(i));
        assert(a.take(i).drop_first() =~= shifted.take(i - 1));
        assert(a.take(i + 1)[0] == a[0]);
        assert(a.take(i)[0] == a[0]);
        assert(shifted[i - 1] == a[i]);
        assert(enc_longs(a.take(i + 1)) =~= enc_longs(a.take(i)) + be64(a[i] as u64));
    }
}

/// Encodes a named root value into bytes.
pub fn write_nbt(tag: &NbtTag) -> (r: Result<Vec<u8>, String>)
    ensures
        (wf_nbt_tag(*tag) && enc_tag(*tag).len() < 0x1000_0000 ==> r is Ok),
        match r {
            Ok(b) => b@ == enc_tag(*tag),
            Err(_) => true,
        },
{
    let mut w = NbtWriter::new();
    match w.write_tag(tag) {
        Ok(_) => {
            let b = w.into_bytes();
            proof {
                assert(b@ =~= enc_tag(*tag));
            }
            Ok(b)
        },
        Err(e) => Err(e),
    }
}

proof fn lemma_enc_ints_len(a: Seq<i32>)
    ensures
        enc_ints(a).len() == 4 * a.len(),
    decreases a.len(),
{
    if a.len() > 0 {
        lemma_enc_ints_len(a.drop_first());
    }
}

proof fn lemma_enc_longs_len(a: Seq<i64>)
    ensures
        enc_longs(a).len() == 8 * a.len(),
    decreases a.len(),
{
    if a.len() > 0 {
        lemma_enc_longs_len(a.drop_first());
    }
}

proof fn lemma_enc_items_push(s: Seq<NbtValue>, v: NbtValue)
    ensures
        enc_items(s.push(v)) == enc_items(s) + enc_value(v),
    decreases s.len(),
{
    if s.len() == 0 {
        assert(s.push(v).drop_first() =~= s);
        assert(enc_items(s.push(v)) =~= enc_items(s) + enc_value(v));
    } else {
        assert(s.push(v).drop_first() =~= s.drop_first().push(v));
        lemma_enc_items_push(s.drop_first(), v);
        assert(s.push(v)[0] == s[0]);
        assert(enc_items(s.push(v)) =~= enc_items(s) + enc_value(v));
    }
}

proof fn lemma_enc_pairs_push(s: Seq<(String, NbtValue)>, name: String, v: NbtValue)
    ensures
        enc_pairs(s.push((name, v))) == enc_pairs(s) + (seq![tag_type(v)] + enc_string(name@)
            + enc_value(v)),
    decreases s.len(),
{
    if s.len() == 0 {
        assert(s.push((name, v)).drop_first() =~= s);
        assert(enc_pairs(s.push((name, v))) =~= enc_pairs(s) + (seq![tag_type(v)] + enc_string(
            name@,
        ) + enc_value(v)));
    } else {
        assert(s.push((name, v)).drop_first() =~= s.drop_first().push((name, v)));
        lemma_enc_pairs_push(s.drop_first(), name, v);
        assert(s.push((name, v))[0] == s[0]);
        assert(enc_pairs(s.push((name, v))) =~= enc_pairs(s) + (seq![tag_type(v)] + enc_string(
            name@,
        ) + enc_value(v)));
    }
}

proof fn lemma_enc_ints_push(s: Seq<i32>, v: i32)
    ensures
        enc_ints(s.push(v)) == enc_ints(s) + be32(v as u32),
    decreases s.len(),
{
    if s.len() == 0 {
        assert(s.push(v).drop_first() =~= s);
        assert(enc_ints(s.push(v)) =~= enc_ints(s) + be32(v as u32));
    } else {
        assert(s.push(v).drop_first() =~= s.drop_first().push(v));
        lemma_enc_ints_push(s.drop_first(), v);
        assert(s.push(v)[0] == s[0]);
        assert(enc_ints(s.push(v)) =~= enc_ints(s) + be32(v as u32));
    }
}

proof fn lemma_enc_longs_push(s: Seq<i64>, v: i64)
    ensures
        enc_longs(s.push(v)) == enc_longs(s) + be64(v as u64),
    decreases s.len(),
{
    if s.len() == 0 {
        assert(s.push(v).drop_first() =~= s);
        assert(enc_longs(s.push(v)) =~= enc_longs(s) + be64(v as u64));
    } else {
        assert(s.push(v).drop_first() =~= s.drop_first().push(v));
        lemma_enc_longs_push(s.drop_first(), v);
        assert(s.push(v)[0] == s[0]);
        assert(enc_longs(s.push(v)) =~= enc_longs(s) + be64(v as u64));
    }
}

/// Reads values back out of a byte buffer.
pub struct NbtReader {
    data: Vec<u8>,
    pos: usize,
}

impl NbtReader {
    pub closed spec fn bytes(&self) -> Seq<u8> {
        self.data@
    }

    pub closed spec fn position(&self) -> int {
        self.pos as int
    }

    pub closed spec fn wf(&self) -> bool {
        self.pos <= self.data@.len()
    }

    pub fn new(data: Vec<u8>) -> (r: NbtReader)
        ensures
            r.bytes() == data@,
            r.position() == 0,
            r.wf(),
    {
        NbtReader { data, pos: 0 }
    }

    fn read_u8(&mut self) -> (r: Result<u8, String>)
        requires
            old(self).wf(),
        ensures
            final(self).wf(),
            final(self).bytes() == old(self).bytes(),
            match r {
                Ok(b) => final(self).position() == old(self).position() + 1 && old(self).bytes()[
                    old(self).position()
                ] == b,
                Err(_) => final(self).position() == old(self).position() && old(self).position()
                    + 1 > old(self).bytes().len(),
            },
    {
        if self.pos >= self.data.len() {
            return Err(String::from_str("Unexpected end of data"));
        }
        let b = self.data[self.pos];
        self.pos = self.pos + 1;
        Ok(b)
    }

    fn read_be16(&mut self) -> (r: Result<u16, String>)
        requires
            old(self).wf(),
        ensures
            final(self).wf(),
            final(self).bytes() == old(self).bytes(),
            match r {
                Ok(n) => final(self).position() == old(self).position() + 2 && be16(n) == old(
                    self,
                ).bytes().subrange(old(self).position(), final(self).position()),
                Err(_) => final(self).position() == old(self).position() && old(self).position()
                    + 2 > old(self).bytes().len(),
            },
    {
        if self.pos >= self.data.len() || self.data.len() - self.pos < 2 {
            return Err(String::from_str("Unexpected end of data"));
        }
        let b0 = self.data[self.pos];
        let b1 = self.data[self.pos + 1];
        self.pos = self.pos + 2;
        let n: u16 = ((b0 as u16) << 8) | (b1 as u16);
        proof {
            assert((n >> 8) as u8 == b0 && n as u8 == b1) by (bit_vector)
                requires
                    n == ((b0 as u16) << 8) | (b1 as u16),
            {
            }
            assert(be16(n) =~= old(self).bytes().subrange(
                old(self).position(),
                old(self).position() + 2,
            ));
        }
        Ok(n)
    }

    fn read_be32(&mut self) -> (r: Result<u32, String>)
        requires
            old(self).wf(),
        ensures
            final(self).wf(),
            final(self).bytes() == old(self).bytes(),
            match r {
                Ok(n) => final(self).position() == old(self).position() + 4 && be32(n) == old(
                    self,
                ).bytes().subrange(old(self).position(), final(self).position()),
                Err(_) => final(self).position() == old(self).position() && old(self).position()
                    + 4 > old(self).bytes().len(),
            },
    {
        if self.pos >= self.data.len() || self.data.len() - self.pos < 4 {
            return Err(String::from_str("Unexpected end of data"));
        }
        let b0 = self.data[self.pos];
        let b1 = self.data[self.pos + 1];
        let b2 = self.data[self.pos + 2];
        let b3 = self.data[self.pos + 3];
        self.pos = self.pos + 4;
        let n: u32 = ((b0 as u32) << 24) | ((b1 as u32) << 16) | ((b2 as u32) << 8) | (
        b3 as u32);
        proof {
            assert((n >> 24) as u8 == b0 && (n >> 16) as u8 == b1 && (n >> 8) as u8 == b2 && n
                as u8 == b3) by (bit_vector)
                requires
                    n == ((b0 as u32) << 24) | ((b1 as u32) << 16) | ((b2 as u32) << 8) | (
                    b3 as u32),
            {
            }
            assert(be32(n) =~= old(self).bytes().subrange(
                old(self).position(),
                old(self).position() + 4,
            ));
        }
        Ok(n)
    }

    fn read_be64(&mut self) -> (r: Result<u64, String>)
        requires
            old(self).wf(),
        ensures
            final(self).wf(),
            final(self).bytes() == old(self).bytes(),
            match r {
                Ok(n) => final(self).position() == old(self).position() + 8 && be64(n) == old(
                    self,
                ).bytes().subrange(old(self).position(), final(self).position()),
                Err(_) => final(self).position() >= old(self).position() && old(self).position()
                    + 8 > old(self).bytes().len(),
            },
    {
        let hi = match self.read_be32() {
            Ok(v) => v,
            Err(e) => {
                return Err(e);
            },
        };
        let lo = match self.read_be32() {
            Ok(v) => v,
            Err(e) => {
                return Err(e);
            },
        };
        let n: u64 = ((hi as u64) << 32) | (lo as u64);
        proof {
            assert((n >> 56) as u8 == (hi >> 24) as u8 && (n >> 48) as u8 == (hi >> 16) as u8 && (
                n >> 40) as u8 == (hi >> 8) as u8 && (n >> 32) as u8 == hi as u8 && (n >> 24) as u8
                == (lo >> 24) as u8 && (n >> 16) as u8 == (lo >> 16) as u8 && (n >> 8) as u8 == (lo
                >> 8) as u8 && n as u8 == lo as u8) by (bit_vector)
                requires
                    n == ((hi as u64) << 32) | (lo as u64),
            {
            }
            assert(be64(n) =~= old(self).bytes().subrange(
                old(self).position(),
                old(self).position() + 8,
            ));
        }
        Ok(n)
    }

    fn read_string(&mut self) -> (r: Result<String, String>)
        requires
            old(self).wf(),
        ensures
            final(self).wf(),
            final(self).bytes() == old(self).bytes(),
            (some_string_at(old(self).bytes(), old(self).position()) ==> r is Ok),
            match r {
                Ok(s) => old(self).position() < final(self).position() <= old(
                    self,
                ).bytes().len() && enc_string(s@) == old(self).bytes().subrange(
                    old(self).position(),
                    final(self).position(),
                ) && vstd::utf8::encode_utf8(s@).len() <= 0xffff,
                Err(_) => true,
            },
    {
        let ghost p0 = self.position();
        let ghost has_w = some_string_at(old(self).bytes(), p0);
        let ghost w = choose|s: Seq<char>| string_present(old(self).bytes(), p0, s);
        proof {
            if has_w {
                assert(string_present(old(self).bytes(), p0, w));
            }
        }
        let len = match self.read_be16() {
            Ok(v) => v,
            Err(e) => {
                proof {
                    if has_w {
                        assert(enc_string(w).len() >= 2);
                        assert(false);
                    }
                }
                return Err(e);
            },
        };
        proof {
            if has_w {
                let ulen = vstd::utf8::encode_utf8(w).len() as int;
                assert(be16(len) =~= enc_string(w).subrange(0, 2)) by {
                    assert(forall|k: int|
                        0 <= k < 2 ==> #[trigger] enc_string(w)[k] == old(self).bytes()[p0 + k]);
                }
                lemma_be16_prefix(
                    len,
                    ulen as u16,
                    Seq::<u8>::empty(),
                    Seq::<u8>::empty(),
                );
                assert(len as int == ulen);
            }
        }
        if self.data.len() - self.pos < len as usize {
            proof {
                if has_w {
                    assert(false);
                }
            }
            return Err(String::from_str("Unexpected end of data"));
        }
        proof {
            assert(p0 + 2 + len as usize <= self.bytes().len());
        }
        let mut buf: Vec<u8> = Vec::new();
        let mut i: usize = 0;
        proof {
            assert(buf@ =~= self.bytes().subrange(p0 + 2, p0 + 2));
        }
        while i < len as usize
            invariant
                self.wf(),
                self.bytes() == old(self).bytes(),
                self.position() == p0 + 2 + i,
                0 <= p0,
                0 <= i <= len as usize,
                p0 + 2 + len as usize <= self.bytes().len(),
                buf@ == self.bytes().subrange(p0 + 2, p0 + 2 + i),
            decreases len as usize - i,
        {
            let ghost bpre = buf@;
            let b = match self.read_u8() {
                Ok(v) => v,
                Err(e) => {
                    return Err(e);
                },
            };
            buf.push(b);
            proof {
                assert(buf@ == bpre.push(b));
                assert(b == self.bytes()[p0 + 2 + i]);
                assert(buf@ =~= self.bytes().subrange(p0 + 2, p0 + 2 + i + 1));
            }
            i = i + 1;
        }
        let ghost bufv = buf@;
        proof {
            if has_w {
                assert(bufv =~= vstd::utf8::encode_utf8(w)) by {
                    assert(forall|k: int|
                        0 <= k < len as int ==> #[trigger] vstd::utf8::encode_utf8(w)[k]
                            == enc_string(w)[2 + k]);
                    assert(forall|k: int|
                        0 <= k < len as int ==> #[trigger] enc_string(w)[2 + k] == old(
                            self,
                        ).bytes()[p0 + 2 + k]);
                }
                vstd::utf8::encode_utf8_valid_utf8(w);
            }
        }
        let s = match utf8_to_string(buf) {
            Ok(v) => v,
            Err(e) => {
                proof {
                    if has_w {
                        assert(false);
                    }
                }
                return Err(e);
            },
        };
        proof {
            assert(vstd::utf8::encode_utf8(s@) == bufv);
            assert(vstd::utf8::encode_utf8(s@).len() == len as int);
            assert(enc_string(s@) =~= old(self).bytes().subrange(p0, self.position()));
        }
        Ok(s)
    }

    /// Reads the payload of a value of the given tag id. On success the
    /// value's own encoding is exactly the consumed byte range.
    #[verifier::rlimit(100)]
    pub fn read_value(&mut self, tag: u8) -> (r: Result<NbtValue, String>)
        requires
            old(self).wf(),
        ensures
            final(self).wf(),
            final(self).bytes() == old(self).bytes(),
            (some_value_at(old(self).bytes(), old(self).position(), tag) ==> r is Ok),
            match r {
                Ok(v) => old(self).position() < final(self).position() <= old(
                    self,
                ).bytes().len() && tag_type(v) == tag && wf_nbt(v) && enc_value(v) == old(
                    self,
                ).bytes().subrange(old(self).position(), final(self).position()),
                Err(_) => true,
            },
        decreases old(self).bytes().len() - old(self).position(), 12int,
    {
        let ghost p0 = self.position();
        let ghost has_w = some_value_at(old(self).bytes(), p0, tag);
        let ghost w = choose|v: NbtValue| value_present(old(self).bytes(), p0, tag, v);
        proof {
            if has_w {
                assert(value_present(old(self).bytes(), p0, tag, w));
            }
        }
        if tag == 1 {
            let b = match self.read_u8() {
                Ok(v) => v,
                Err(e) => {
                    proof {
                        if has_w {
                            assert(enc_value(w).len() >= 1);
                            assert(false);
                        }
                    }
                    return Err(e);
                },
            };
            let v = NbtValue::Byte(b as i8);
            proof {
                assert(b as i8 as u8 == b) by (bit_vector);
                assert(enc_value(v) =~= old(self).bytes().subrange(p0, self.position()));
            }
            Ok(v)
        } else if tag == 2 {
            let n = match self.read_be16() {
                Ok(v) => v,
                Err(e) => {
                    proof {
                        if has_w {
                            assert(enc_value(w).len() >= 2);
                            assert(false);
                        }
                    }
                    return Err(e);
                },
            };
            let v = NbtValue::Short(n as i16);
            proof {
                assert(n as i16 as u16 == n) by (bit_vector);
                assert(enc_value(v) == be16(n));
            }
            Ok(v)
        } else if tag == 3 {
            let n = match self.read_be32() {
                Ok(v) => v,
                Err(e) => {
                    proof {
                        if has_w {
                            assert(enc_value(w).len() >= 4);
                            assert(false);
                        }
                    }
                    return Err(e);
                },
            };
            let v = NbtValue::Int(n as i32);
            proof {
                assert(n as i32 as u32 == n) by (bit_vector);
                assert(enc_value(v) == be32(n));
            }
            Ok(v)
        } else if tag == 4 {
            let n = match self.read_be64() {
                Ok(v) => v,
                Err(e) => {
                    proof {
                        if has_w {
                            assert(enc_value(w).len() >= 8);
                            assert(false);
                        }
                    }
                    return Err(e);
                },
            };
            let v = NbtValue::Long(n as i64);
            proof {
                assert(n as i64 as u64 == n) by (bit_vector);
                assert(enc_value(v) == be64(n));
            }
            Ok(v)
        } else if tag == 5 {
            let n = match self.read_be32() {
                Ok(v) => v,
                Err(e) => {
                    proof {
                        if has_w {
                            assert(enc_value(w).len() >= 4);
                            assert(false);
                        }
                    }
                    return Err(e);
                },
            };
            Ok(NbtValue::Float(n))
        } else if tag == 6 {
            let n = match self.read_be64() {
                Ok(v) => v,
                Err(e) => {
                    proof {
                        if has_w {
                            assert(enc_value(w).len() >= 8);
                            assert(false);
                        }
                    }
                    return Err(e);
                },
            };
            Ok(NbtValue::Double(n))
        } else if tag == 7 {
            let ghost wa = w->ByteArray_0@;
            let n = match self.read_be32() {
                Ok(v) => v,
                Err(e) => {
                    proof {
                        if has_w {
                            assert(enc_value(w).len() >= 4);
                            assert(false);
                        }
                    }
                    return Err(e);
                },
            };
            proof {
                if has_w {
                    assert(enc_value(w).len() == 4 + wa.len());
                    assert(be32(wa.len() as u32) =~= be32(n)) by {
                        assert(be32(n) == old(self).bytes().subrange(p0, p0 + 4));
                        assert(forall|j: int|
                            0 <= j < 4 ==> #[trigger] enc_value(w)[j] == old(self).bytes()[p0
                                + j]);
                    }
                    lemma_be32_prefix(wa.len() as u32, n, Seq::<u8>::empty(), Seq::<u8>::empty());
                    assert(n == wa.len());
                }
            }
            if n > 0x7fff_ffff {
                proof {
                    if has_w {
                        assert(false);
                    }
                }
                return Err(String::from_str("Negative array length"));
            }
            if self.data.len() - self.pos < n as usize {
                proof {
                    if has_w {
                        assert(false);
                    }
                }
                return Err(String::from_str("Unexpected end of data"));
            }
            let ghost pa = self.position();
            proof {
                assert(pa + n as usize <= self.bytes().len());
            }
            let mut out: Vec<i8> = Vec::new();
            let mut i: usize = 0;
            proof {
                assert(Seq::new(out@.len(), |k: int| out@[k] as u8) =~= self.bytes().subrange(
                    pa,
                    pa,
                ));
            }
            while i < n as usize
                invariant
                    self.wf(),
                    self.bytes() == old(self).bytes(),
                    self.position() == pa + i,
                    0 <= p0 <= pa,
                    0 <= i <= n as usize,
                    pa + n as usize <= self.bytes().len(),
                    out@.len() == i,
                    Seq::new(out@.len(), |k: int| out@[k] as u8) == self.bytes().subrange(
                        pa,
                        pa + i,
                    ),
                decreases n as usize - i,
            {
                let ghost outv = out@;
                let b = match self.read_u8() {
                    Ok(v) => v,
                    Err(e) => {
                        proof {
                            assert(false);
                        }
                        return Err(e);
                    },
                };
                out.push(b as i8);
                proof {
                    assert(b as i8 as u8 == b) by (bit_vector);
                    assert(out@ == outv.push(b as i8));
                    assert(b == self.bytes()[pa + i]);
                    assert(Seq::new(out@.len(), |k: int| out@[k] as u8) =~= self.bytes().subrange(
                        pa,
                        pa + i + 1,
                    ));
                }
                i = i + 1;
            }
            let v = NbtValue::ByteArray(out);
            proof {
                assert(enc_value(v) =~= old(self).bytes().subrange(p0, self.position()));
            }
            Ok(v)
        } else if tag == 8 {
            proof {
                if has_w {
                    assert(string_present(old(self).bytes(), p0, w->String_0@));
                }
            }
            let s = match self.read_string() {
                Ok(v) => v,
                Err(e) => {
                    proof {
                        if has_w {
                            assert(false);
                        }
                    }
                    return Err(e);
                },
            };
            Ok(NbtValue::String(s))
        } else if tag == 9 {
            let ghost wi = w->List_0@;
            let elem_type = match self.read_u8() {
                Ok(v) => v,
                Err(e) => {
                    proof {
                        if has_w {
                            assert(enc_value(w).len() >= 5);
                            assert(false);
                        }
                    }
                    return Err(e);
                },
            };
            let n = match self.read_be32() {
                Ok(v) => v,
                Err(e) => {
                    proof {
                        if has_w {
                            assert(enc_value(w).len() >= 5);
                            assert(false);
                        }
                    }
                    return Err(e);
                },
            };
            proof {
                if has_w {
                    assert(enc_value(w).len() == 5 + enc_items(wi).len());
                    assert(forall|j: int|
                        0 <= j < 5 ==> #[trigger] enc_value(w)[j] == old(self).bytes()[p0 + j]);
                    assert(elem_type == enc_value(w)[0]);
                    assert(be32(wi.len() as u32) =~= be32(n)) by {
                        assert(be32(n) == old(self).bytes().subrange(p0 + 1, p0 + 5));
                        assert(forall|j: int|
                            0 <= j < 4 ==> #[trigger] be32(wi.len() as u32)[j] == enc_value(w)[1
                                + j]);
                    }
                    lemma_be32_prefix(wi.len() as u32, n, Seq::<u8>::empty(), Seq::<u8>::empty());
                    assert(n == wi.len());
                }
            }
            if n > 0x7fff_ffff {
                proof {
                    if has_w {
                        assert(false);
                    }
                }
                return Err(String::from_str("Negative list length"));
            }
            if n == 0 && elem_type != 0 {
                proof {
                    if has_w {
                        assert(false);
                    }
                }
                return Err(String::from_str("Empty list with a nonzero element type"));
            }
            if n > 0 && elem_type == 0 {
                proof {
                    if has_w {
                        assert(tag_type(wi[0]) != 0);
                        assert(false);
                    }
                }
                return Err(String::from_str("List of end markers"));
            }
            let ghost pa = self.position();
            let mut out: Vec<NbtValue> = Vec::new();
            let mut i: usize = 0;
            proof {
                assert(enc_items(out@) =~= self.bytes().subrange(pa, pa));
                if has_w {
                    assert(wi.take(0) =~= Seq::<NbtValue>::empty());
                }
            }
            while i < n as usize
                invariant
                    self.wf(),
                    self.bytes() == old(self).bytes(),
                    p0 == old(self).position(),
                    0 <= p0 < pa,
                    pa == p0 + 5,
                    pa <= self.position() <= self.bytes().len(),
                    0 <= i <= n as usize,
                    out@.len() == i,
                    forall|k: int| 0 <= k < i ==> tag_type(#[trigger] out@[k]) == elem_type,
                    forall|k: int| 0 <= k < i ==> wf_nbt(#[trigger] out@[k]),
                    enc_items(out@) == self.bytes().subrange(pa, self.position()),
                    tag == 9,
                    has_w == some_value_at(old(self).bytes(), p0, tag),
                    wi == w->List_0@,
                    has_w ==> value_present(old(self).bytes(), p0, tag, w),
                    has_w ==> n as int == wi.len(),
                    has_w ==> (wi.len() > 0 ==> elem_type == tag_type(wi[0])),
                    has_w ==> enc_items(out@) == enc_items(wi.take(i as int)),
                decreases n as usize - i,
            {
                let ghost outv = out@;
                let ghost pb = self.position();
                proof {
                    if has_w {
                        let ii = i as int;
                        lemma_enc_items_split_at(wi, ii);
                        let off = enc_items(wi.take(ii)).len() as int;
                        let kk = enc_value(wi[ii]).len() as int;
                        assert(pb == pa + off);
                        assert(off + kk <= enc_items(wi).len());
                        assert(enc_value(w) == seq![elem_type] + be32(n) + enc_items(wi));
                        assert(forall|m: int|
                            0 <= m < enc_items(wi).len() ==> #[trigger] enc_items(wi)[m] == old(
                                self,
                            ).bytes()[p0 + 5 + m]) by {
                            assert(forall|m: int|
                                0 <= m < enc_value(w).len() ==> #[trigger] enc_value(w)[m] == old(
                                    self,
                                ).bytes()[p0 + m]);
                            assert(forall|m: int|
                                0 <= m < enc_items(wi).len() ==> #[trigger] enc_items(wi)[m]
                                    == enc_value(w)[5 + m]);
                        }
                        assert(enc_value(wi[ii]) =~= self.bytes().subrange(pb, pb + kk)) by {
                            assert(forall|j: int|
                                0 <= j < kk ==> #[trigger] enc_value(wi[ii])[j] == enc_items(
                                    wi,
                                )[off + j]);
                        }
                        assert(value_present(self.bytes(), pb, elem_type, wi[ii]));
                    }
                }
                let elem = match self.read_value(elem_type) {
                    Ok(v) => v,
                    Err(e) => {
                        proof {
                            if has_w {
                                assert(false);
                            }
                        }
                        return Err(e);
                    },
                };
                out.push(elem);
                proof {
                    assert(out@ == outv.push(out@.last()));
                    lemma_enc_items_push(outv, out@.last());
                    assert(enc_value(out@.last()) == self.bytes().subrange(
                        pb,
                        self.position(),
                    ));
                    assert(enc_items(out@) =~= self.bytes().subrange(pa, self.position()));
                    if has_w {
                        let ii = i as int;
                        let bl = self.bytes().len() as int;
                        let kk = enc_value(wi[ii]).len() as int;
                        let rest1 = self.bytes().subrange(self.position(), bl);
                        let rest2 = self.bytes().subrange(pb + kk, bl);
                        assert(enc_value(out@.last()) + rest1 =~= self.bytes().subrange(pb, bl));
                        assert(enc_value(wi[ii]) + rest2 =~= self.bytes().subrange(pb, bl));
                        lemma_enc_value_prefix(out@.last(), wi[ii], rest1, rest2);
                        lemma_enc_items_snoc(wi, ii);
                        assert(enc_items(out@) == enc_items(wi.take(ii + 1)));
                    }
                }
                i = i + 1;
            }
            let v = NbtValue::List(out);
            proof {
                if n as usize > 0 {
                    assert(tag_type(v->List_0@[0]) == elem_type);
                }
                assert(enc_value(v) =~= old(self).bytes().subrange(p0, self.position()));
                assert(wf_nbt(v)) by {
                    assert(forall|k: int| 0 <= k < out@.len() ==> wf_nbt(#[trigger] out@[k]));
                    assert(forall|k: int|
                        0 <= k < out@.len() ==> tag_type(#[trigger] out@[k]) == tag_type(
                            out@[0],
                        ));
                }
            }
            Ok(v)
        } else if tag == 10 {
            let ghost pa = self.position();
            let ghost wp = w->Compound_0@;
            let ghost mut wj: int = 0;
            let mut out: Vec<(String, NbtValue)> = Vec::new();
            let mut done = false;
            proof {
                assert(enc_pairs(out@) =~= self.bytes().subrange(pa, pa));
                if has_w {
                    assert(wp.take(0) =~= Seq::<(String, NbtValue)>::empty());
                }
            }
            while !done
                invariant
                    self.wf(),
                    self.bytes() == old(self).bytes(),
                    p0 == old(self).position(),
                    0 <= p0 <= pa,
                    pa == p0,
                    pa <= self.position() <= self.bytes().len(),
                    forall|k: int|
                        0 <= k < out@.len() ==> wf_nbt((#[trigger] out@[k]).1)
                            && vstd::utf8::encode_utf8(out@[k].0@).len() <= 0xffff,
                    tag == 10,
                    has_w == some_value_at(old(self).bytes(), p0, tag),
                    wp == w->Compound_0@,
                    has_w ==> value_present(old(self).bytes(), p0, tag, w),
                    has_w ==> 0 <= wj <= wp.len(),
                    has_w && !done ==> enc_pairs(out@) == enc_pairs(wp.take(wj)),
                    !done ==> enc_pairs(out@) == self.bytes().subrange(pa, self.position()),
                    done ==> enc_pairs(out@).push(0u8) == self.bytes().subrange(
                        pa,
                        self.position(),
                    ),
                decreases self.bytes().len() - self.position() + (if done {
                    0int
                } else {
                    1int
                }),
            {
                let ghost pb0 = self.position();
                proof {
                    if has_w {
                        assert(enc_value(w) == enc_pairs(wp) + seq![0u8]);
                        if wj < wp.len() {
                            lemma_enc_pairs_split_at(wp, wj);
                        } else {
                            assert(wp.take(wj) =~= wp);
                        }
                        assert(pb0 == pa + enc_pairs(wp.take(wj)).len());
                        assert(pb0 + 1 <= self.bytes().len());
                        assert(forall|m: int|
                            0 <= m < enc_pairs(wp).len() ==> #[trigger] enc_pairs(wp)[m] == old(
                                self,
                            ).bytes()[p0 + m]) by {
                            assert(forall|m: int|
                                0 <= m < enc_value(w).len() ==> #[trigger] enc_value(w)[m] == old(
                                    self,
                                ).bytes()[p0 + m]);
                            assert(forall|m: int|
                                0 <= m < enc_pairs(wp).len() ==> #[trigger] enc_pairs(wp)[m]
                                    == enc_value(w)[m]);
                        }
                        assert(old(self).bytes()[p0 + enc_pairs(wp).len()] == 0) by {
                            assert(enc_value(w)[enc_pairs(wp).len() as int] == 0);
                            assert(forall|m: int|
                                0 <= m < enc_value(w).len() ==> #[trigger] enc_value(w)[m] == old(
                                    self,
                                ).bytes()[p0 + m]);
                        }
                    }
                }
                let tt = match self.read_u8() {
                    Ok(v) => v,
                    Err(e) => {
                        proof {
                            if has_w {
                                assert(false);
                            }
                        }
                        return Err(e);
                    },
                };
                if tt == 0 {
                    done = true;
                    proof {
                        assert(self.bytes()[pb0] == 0);
                        assert(enc_pairs(out@).push(0u8) =~= self.bytes().subrange(
                            pa,
                            self.position(),
                        ));
                    }
                } else {
                    proof {
                        if has_w {
                            if wj == wp.len() {
                                assert(tt == old(self).bytes()[pb0]);
                                assert(false);
                            }
                            assert(string_present(old(self).bytes(), pb0 + 1, wp[wj].0@)) by {
                                let es = enc_string(wp[wj].0@);
                                assert(forall|j: int|
                                    0 <= j < es.len() ==> #[trigger] es[j] == enc_pairs(
                                        wp,
                                    )[enc_pairs(wp.take(wj)).len() + 1 + j]);
                                assert(es =~= old(self).bytes().subrange(
                                    pb0 + 1,
                                    pb0 + 1 + es.len() as int,
                                ));
                            }
                        }
                    }
                    let name = match self.read_string() {
                        Ok(v) => v,
                        Err(e) => {
                            proof {
                                if has_w {
                                    assert(false);
                                }
                            }
                            return Err(e);
                        },
                    };
                    let ghost pn = self.position();
                    let ghost namev = name@;
                    let ghost outv = out@;
                    proof {
                        if has_w {
                            let wname = wp[wj].0@;
                            let bl = self.bytes().len() as int;
                            let esw = enc_string(wname);
                            assert(enc_string(namev) + self.bytes().subrange(pn, bl)
                                =~= self.bytes().subrange(pb0 + 1, bl));
                            assert(esw + self.bytes().subrange(pb0 + 1 + esw.len() as int, bl)
                                =~= self.bytes().subrange(pb0 + 1, bl));
                            lemma_enc_string_prefix(
                                namev,
                                wname,
                                self.bytes().subrange(pn, bl),
                                self.bytes().subrange(pb0 + 1 + esw.len() as int, bl),
                            );
                            assert(pn == pb0 + 1 + esw.len());
                            assert(tt == tag_type(wp[wj].1)) by {
                                assert(old(self).bytes()[pb0] == enc_pairs(wp)[enc_pairs(
                                    wp.take(wj),
                                ).len() as int]);
                            }
                            assert(value_present(self.bytes(), pn, tt, wp[wj].1)) by {
                                let ev = enc_value(wp[wj].1);
                                assert(forall|j: int|
                                    0 <= j < ev.len() ==> #[trigger] ev[j] == enc_pairs(
                                        wp,
                                    )[enc_pairs(wp.take(wj)).len() + 1 + esw.len() + j]);
                                assert(ev =~= self.bytes().subrange(pn, pn + ev.len() as int));
                            }
                        }
                    }
                    let elem = match self.read_value(tt) {
                        Ok(v) => v,
                        Err(e) => {
                            proof {
                                if has_w {
                                    assert(false);
                                }
                            }
                            return Err(e);
                        },
                    };
                    out.push((name, elem));
                    proof {
                        assert(out@ == outv.push(out@.last()));
                        lemma_enc_pairs_push(outv, out@.last().0, out@.last().1);
                        assert(out@.last().0@ == namev);
                        assert(self.bytes()[pb0] == tt);
                        assert(enc_string(namev) == self.bytes().subrange(pb0 + 1, pn));
                        assert(enc_value(out@.last().1) == self.bytes().subrange(
                            pn,
                            self.position(),
                        ));
                        assert(enc_pairs(out@) =~= self.bytes().subrange(
                            pa,
                            self.position(),
                        ));
                        if has_w {
                            let bl = self.bytes().len() as int;
                            let ev = enc_value(wp[wj].1);
                            assert(enc_value(out@.last().1) + self.bytes().subrange(
                                self.position(),
                                bl,
                            ) =~= self.bytes().subrange(pn, bl));
                            assert(ev + self.bytes().subrange(pn + ev.len() as int, bl)
                                =~= self.bytes().subrange(pn, bl));
                            lemma_enc_value_prefix(
                                out@.last().1,
                                wp[wj].1,
                                self.bytes().subrange(self.position(), bl),
                                self.bytes().subrange(pn + ev.len() as int, bl),
                            );
                            assert(wp.take(wj + 1) =~= wp.take(wj).push(wp[wj]));
                            lemma_enc_pairs_push(wp.take(wj), wp[wj].0, wp[wj].1);
                            assert((wp[wj].0, wp[wj].1) == wp[wj]);
                            assert(enc_pairs(out@) == enc_pairs(wp.take(wj + 1)));
                            wj = wj + 1;
                        }
                    }
                }
            }
            let v = NbtValue::Compound(out);
            proof {
                assert(enc_pairs(v->Compound_0@).push(0u8) =~= enc_pairs(v->Compound_0@) + seq![
                    0u8,
                ]);
                assert(enc_value(v) =~= old(self).bytes().subrange(p0, self.position()));
                assert(wf_nbt(v)) by {
                    assert(forall|k: int|
                        0 <= k < out@.len() ==> wf_nbt((#[trigger] out@[k]).1)
                            && vstd::utf8::encode_utf8(out@[k].0@).len() <= 0xffff);
                }
            }
            Ok(v)
        } else if tag == 11 {
            let ghost wa = w->IntArray_0@;
            let n = match self.read_be32() {
                Ok(v) => v,
                Err(e) => {
                    proof {
                        if has_w {
                            assert(enc_value(w).len() >= 4);
                            assert(false);
                        }
                    }
                    return Err(e);
                },
            };
            proof {
                if has_w {
                    lemma_enc_ints_len(wa);
                    assert(enc_value(w).len() == 4 + 4 * wa.len());
                    assert(be32(wa.len() as u32) =~= be32(n)) by {
                        assert(be32(n) == old(self).bytes().subrange(p0, p0 + 4));
                        assert(forall|j: int|
                            0 <= j < 4 ==> #[trigger] enc_value(w)[j] == old(self).bytes()[p0
                                + j]);
                    }
                    lemma_be32_prefix(wa.len() as u32, n, Seq::<u8>::empty(), Seq::<u8>::empty());
                    assert(n == wa.len());
                }
            }
            if n > 0x7fff_ffff {
                proof {
                    if has_w {
                        assert(false);
                    }
                }
                return Err(String::from_str("Negative array length"));
            }
            let ghost pa = self.position();
            let mut out: Vec<i32> = Vec::new();
            let mut i: usize = 0;
            proof {
                assert(enc_ints(out@) =~= self.bytes().subrange(pa, pa));
            }
            while i < n as usize
                invariant
                    self.wf(),
                    self.bytes() == old(self).bytes(),
                    0 <= p0 <= pa,
                    pa == p0 + 4,
                    tag == 11,
                    p0 == old(self).position(),
                    has_w == some_value_at(old(self).bytes(), p0, tag),
                    wa == w->IntArray_0@,
                    has_w ==> value_present(old(self).bytes(), p0, tag, w) && n as int == wa.len(),
                    pa <= self.position() <= self.bytes().len(),
                    self.position() == pa + 4 * i,
                    0 <= i <= n as usize,
                    out@.len() == i,
                    enc_ints(out@) == self.bytes().subrange(pa, self.position()),
                decreases n as usize - i,
            {
                let ghost outv = out@;
                let ghost pb = self.position();
                let m = match self.read_be32() {
                    Ok(v) => v,
                    Err(e) => {
                        proof {
                            if has_w {
                                lemma_enc_ints_len(wa);
                                assert(false);
                            }
                        }
                        return Err(e);
                    },
                };
                out.push(m as i32);
                proof {
                    assert(m as i32 as u32 == m) by (bit_vector);
                    assert(out@ == outv.push(out@.last()));
                    lemma_enc_ints_push(outv, out@.last());
                    assert(be32(m) == self.bytes().subrange(pb, self.position()));
                    assert(enc_ints(out@) =~= self.bytes().subrange(pa, self.position()));
                }
                i = i + 1;
            }
            let v = NbtValue::IntArray(out);
            proof {
                assert(enc_value(v) =~= old(self).bytes().subrange(p0, self.position()));
            }
            Ok(v)
        } else if tag == 12 {
            let ghost wa = w->LongArray_0@;
            let n = match self.read_be32() {
                Ok(v) => v,
                Err(e) => {
                    proof {
                        if has_w {
                            assert(enc_value(w).len() >= 4);
                            assert(false);
                        }
                    }
                    return Err(e);
                },
            };
            proof {
                if has_w {
                    lemma_enc_longs_len(wa);
                    assert(enc_value(w).len() == 4 + 8 * wa.len());
                    assert(be32(wa.len() as u32) =~= be32(n)) by {
                        assert(be32(n) == old(self).bytes().subrange(p0, p0 + 4));
                        assert(forall|j: int|
                            0 <= j < 4 ==> #[trigger] enc_value(w)[j] == old(self).bytes()[p0
                                + j]);
                    }
                    lemma_be32_prefix(wa.len() as u32, n, Seq::<u8>::empty(), Seq::<u8>::empty());
                    assert(n == wa.len());
                }
            }
            if n > 0x7fff_ffff {
                proof {
                    if has_w {
                        assert(false);
                    }
                }
                return Err(String::from_str("Negative array length"));
            }
            let ghost pa = self.position();
            let mut out: Vec<i64> = Vec::new();
            let mut i: usize = 0;
            proof {
                assert(enc_longs(out@) =~= self.bytes().subrange(pa, pa));
            }
            while i < n as usize
                invariant
                    self.wf(),
                    self.bytes() == old(self).bytes(),
                    0 <= p0 <= pa,
                    pa == p0 + 4,
                    tag == 12,
                    p0 == old(self).position(),
                    has_w == some_value_at(old(self).bytes(), p0, tag),
                    wa == w->LongArray_0@,
                    has_w ==> value_present(old(self).bytes(), p0, tag, w) && n as int == wa.len(),
                    pa <= self.position() <= self.bytes().len(),
                    self.position() == pa + 8 * i,
                    0 <= i <= n as usize,
                    out@.len() == i,
                    enc_longs(out@) == self.bytes().subrange(pa, self.position()),
                decreases n as usize - i,
            {
                let ghost outv = out@;
                let ghost pb = self.position();
                let m = match self.read_be64() {
                    Ok(v) => v,
                    Err(e) => {
                        proof {
                            if has_w {
                                lemma_enc_longs_len(wa);
                                assert(false);
                            }
                        }
                        return Err(e);
                    },
                };
                out.push(m as i64);
                proof {
                    assert(m as i64 as u64 == m) by (bit_vector);
                    assert(out@ == outv.push(out@.last()));
                    lemma_enc_longs_push(outv, out@.last());
                    assert(be64(m) == self.bytes().subrange(pb, self.position()));
                    assert(enc_longs(out@) =~= self.bytes().subrange(pa, self.position()));
                }
                i = i + 1;
            }
            let v = NbtValue::LongArray(out);
            proof {
                assert(enc_value(v) =~= old(self).bytes().subrange(p0, self.position()));
            }
            Ok(v)
        } else {
            proof {
                if has_w {
                    assert(false);
                }
            }
            Err(String::from_str("Unknown tag type"))
        }
    }

    /// Reads one named root value, or `None` at an end marker. On success
    /// the tag's encoding is exactly the consumed byte range.
    pub fn read_tag(&mut self) -> (r: Result<Option<NbtTag>, String>)
        requires
            old(self).wf(),
        ensures
            final(self).wf(),
            final(self).bytes() == old(self).bytes(),
            (some_tag_at(old(self).bytes(), old(self).position()) ==> r is Ok),
            match r {
                Ok(t) => match t {
                    Some(tag) => old(self).position() < final(self).position() <= old(
                        self,
                    ).bytes().len() && wf_nbt_tag(tag) && enc_tag(tag) == old(
                        self,
                    ).bytes().subrange(old(self).position(), final(self).position()),
                    None => final(self).position() == old(self).position() + 1 && old(
                        self,
                    ).bytes()[old(self).position()] == 0,
                },
                Err(_) => true,
            },
    {
        let ghost p0 = self.position();
        let ghost has_w = some_tag_at(old(self).bytes(), p0);
        let ghost w = choose|t: NbtTag| tag_present(old(self).bytes(), p0, t);
        proof {
            if has_w {
                assert(tag_present(old(self).bytes(), p0, w));
            }
        }
        let tt = match self.read_u8() {
            Ok(v) => v,
            Err(e) => {
                proof {
                    if has_w {
                        assert(enc_tag(w).len() >= 1);
                        assert(false);
                    }
                }
                return Err(e);
            },
        };
        if tt == 0 {
            return Ok(None);
        }
        proof {
            if has_w {
                assert(forall|m: int|
                    0 <= m < enc_tag(w).len() ==> #[trigger] enc_tag(w)[m] == old(
                        self,
                    ).bytes()[p0 + m]);
                assert(tt == tag_type(w.value)) by {
                    assert(enc_tag(w)[0] == old(self).bytes()[p0]);
                }
                assert(string_present(old(self).bytes(), p0 + 1, w.name@)) by {
                    let es = enc_string(w.name@);
                    assert(forall|j: int|
                        0 <= j < es.len() ==> #[trigger] es[j] == enc_tag(w)[1 + j]);
                    assert(es =~= old(self).bytes().subrange(p0 + 1, p0 + 1 + es.len() as int));
                }
            }
        }
        let name = match self.read_string() {
            Ok(v) => v,
            Err(e) => {
                proof {
                    if has_w {
                        assert(false);
                    }
                }
                return Err(e);
            },
        };
        let ghost pn = self.position();
        let ghost namev = name@;
        proof {
            if has_w {
                let bl = self.bytes().len() as int;
                let esw = enc_string(w.name@);
                assert(enc_string(namev) + self.bytes().subrange(pn, bl) =~= self.bytes().subrange(
                    p0 + 1,
                    bl,
                ));
                assert(esw + self.bytes().subrange(p0 + 1 + esw.len() as int, bl)
                    =~= self.bytes().subrange(p0 + 1, bl));
                lemma_enc_string_prefix(
                    namev,
                    w.name@,
                    self.bytes().subrange(pn, bl),
                    self.bytes().subrange(p0 + 1 + esw.len() as int, bl),
                );
                assert(pn == p0 + 1 + esw.len());
                assert(value_present(self.bytes(), pn, tt, w.value)) by {
                    let ev = enc_value(w.value);
                    assert(forall|j: int|
                        0 <= j < ev.len() ==> #[trigger] ev[j] == enc_tag(w)[1 + esw.len() + j]);
                    assert(ev =~= self.bytes().subrange(pn, pn + ev.len() as int));
                }
            }
        }
        let value = match self.read_value(tt) {
            Ok(v) => v,
            Err(e) => {
                proof {
                    if has_w {
                        assert(false);
                    }
                }
                return Err(e);
            },
        };
        let t = NbtTag { name, value };
        proof {
            assert(enc_tag(t) =~= old(self).bytes().subrange(p0, self.position()));
            assert(wf_nbt_tag(t));
        }
        Ok(Some(t))
    }
}

/// Decodes one named root value from the start of `data`.
pub fn parse_nbt(data: Vec<u8>) -> (r: Result<Option<NbtTag>, String>)
    ensures
        (some_tag_at(data@, 0) ==> r is Ok),
        match r {
            Ok(t) => match t {
                Some(tag) => wf_nbt_tag(tag) && enc_tag(tag) == data@.subrange(
                    0,
                    enc_tag(tag).len() as int,
                ),
                None => data@.len() >= 1 && data@[0] == 0,
            },
            Err(_) => true,
        },
{
    let ghost dv = data@;
    let mut reader = NbtReader::new(data);
    let r = reader.read_tag();
    proof {
        if r is Ok && r->Ok_0 is Some {
            let tag = r->Ok_0->Some_0;
            assert(enc_tag(tag) == dv.subrange(0, reader.position()));
            assert(enc_tag(tag).len() == reader.position());
        }
    }
    r
}


/// A well-formed named root's own encoding always parses: bytes that
/// begin with the root's encoding carry a root at their start, so
/// `parse_nbt` owes success on them.
pub proof fn lemma_encoding_parses(t: NbtTag, bytes: Seq<u8>)
    requires
        wf_nbt_tag(t),
        enc_tag(t).len() <= bytes.len(),
        bytes.subrange(0, enc_tag(t).len() as int) == enc_tag(t),
    ensures
        some_tag_at(bytes, 0),
{
    assert(tag_present(bytes, 0, t));
}

/// The values the codec is faithful for: array and list lengths fit the
/// length fields, strings fit their two length bytes, and lists are
/// homogeneous.
pub open spec fn wf_nbt(v: NbtValue) -> bool
    decreases v,
{
    match v {
        NbtValue::Byte(_) => true,
        NbtValue::Short(_) => true,
        NbtValue::Int(_) => true,
        NbtValue::Long(_) => true,
        NbtValue::Float(_) => true,
        NbtValue::Double(_) => true,
        NbtValue::ByteArray(a) => a@.len() <= 0x7fff_ffff,
        NbtValue::String(s) => vstd::utf8::encode_utf8(s@).len() <= 0xffff,
        NbtValue::List(items) => {
            &&& items@.len() <= 0x7fff_ffff
            &&& (forall|i: int| 0 <= i < items@.len() ==> wf_nbt(#[trigger] items@[i]))
            &&& (forall|i: int|
                0 <= i < items@.len() ==> tag_type(#[trigger] items@[i]) == tag_type(items@[0]))
        },
        NbtValue::Compound(pairs) => forall|i: int|
            0 <= i < pairs@.len() ==> wf_nbt((#[trigger] pairs@[i]).1) && vstd::utf8::encode_utf8(
                pairs@[i].0@,
            ).len() <= 0xffff,
        NbtValue::IntArray(a) => a@.len() <= 0x7fff_ffff,
        NbtValue::LongArray(a) => a@.len() <= 0x7fff_ffff,
    }
}

pub open spec fn wf_nbt_tag(t: NbtTag) -> bool {
    wf_nbt(t.value) && vstd::utf8::encode_utf8(t.name@).len() <= 0xffff
}

/// A well-formed value of tag id `tag` whose encoding lies at `pos`.
pub open spec fn value_present(bytes: Seq<u8>, pos: int, tag: u8, v: NbtValue) -> bool {
    &&& wf_nbt(v)
    &&& tag_type(v) == tag
    &&& 0 <= pos
    &&& pos + enc_value(v).len() <= bytes.len()
    &&& enc_value(v) == bytes.subrange(pos, pos + enc_value(v).len() as int)
}

/// Whether some well-formed value of tag id `tag` is encoded at `pos`.
pub open spec fn some_value_at(bytes: Seq<u8>, pos: int, tag: u8) -> bool {
    exists|v: NbtValue| #[trigger] value_present(bytes, pos, tag, v)
}

/// A string that fits its length field, encoded at `pos`.
pub open spec fn string_present(bytes: Seq<u8>, pos: int, s: Seq<char>) -> bool {
    &&& vstd::utf8::encode_utf8(s).len() <= 0xffff
    &&& 0 <= pos
    &&& pos + enc_string(s).len() <= bytes.len()
    &&& enc_string(s) == bytes.subrange(pos, pos + enc_string(s).len() as int)
}

/// Whether some string is encoded at `pos`.
pub open spec fn some_string_at(bytes: Seq<u8>, pos: int) -> bool {
    exists|s: Seq<char>| #[trigger] string_present(bytes, pos, s)
}

/// A well-formed named root whose encoding lies at `pos`.
pub open spec fn tag_present(bytes: Seq<u8>, pos: int, t: NbtTag) -> bool {
    &&& wf_nbt_tag(t)
    &&& 0 <= pos
    &&& pos + enc_tag(t).len() <= bytes.len()
    &&& enc_tag(t) == bytes.subrange(pos, pos + enc_tag(t).len() as int)
}

/// Whether some well-formed named root is encoded at `pos`.
pub open spec fn some_tag_at(bytes: Seq<u8>, pos: int) -> bool {
    exists|t: NbtTag| #[trigger] tag_present(bytes, pos, t)
}

/// Structural equality of two values, comparing strings and byte buffers
/// by their contents.
pub open spec fn nbt_value_eq(v1: NbtValue, v2: NbtValue) -> bool
    decreases v1,
{
    match v1 {
        NbtValue::Byte(b1) => v2 matches NbtValue::Byte(b2) && b1 == b2,
        NbtValue::Short(n1) => v2 matches NbtValue::Short(n2) && n1 == n2,
        NbtValue::Int(n1) => v2 matches NbtValue::Int(n2) && n1 == n2,
        NbtValue::Long(n1) => v2 matches NbtValue::Long(n2) && n1 == n2,
        NbtValue::Float(n1) => v2 matches NbtValue::Float(n2) && n1 == n2,
        NbtValue::Double(n1) => v2 matches NbtValue::Double(n2) && n1 == n2,
        NbtValue::ByteArray(a1) => v2 matches NbtValue::ByteArray(a2) && a1@ == a2@,
        NbtValue::String(s1) => v2 matches NbtValue::String(s2) && s1@ == s2@,
        NbtValue::List(items1) => v2 matches NbtValue::List(items2) && items1@.len()
            == items2@.len() && (forall|i: int|
            0 <= i < items1@.len() ==> nbt_value_eq(#[trigger] items1@[i], items2@[i])),
        NbtValue::Compound(p1) => v2 matches NbtValue::Compound(p2) && p1@.len() == p2@.len() && (
        forall|i: int|
            0 <= i < p1@.len() ==> (#[trigger] p1@[i]).0@ == p2@[i].0@ && nbt_value_eq(
                p1@[i].1,
                p2@[i].1,
            )),
        NbtValue::IntArray(a1) => v2 matches NbtValue::IntArray(a2) && a1@ == a2@,
        NbtValue::LongArray(a1) => v2 matches NbtValue::LongArray(a2) && a1@ == a2@,
    }
}

/// Structural equality of two named roots.
pub open spec fn nbt_tag_eq(t1: NbtTag, t2: NbtTag) -> bool {
    t1.name@ == t2.name@ && nbt_value_eq(t1.value, t2.value)
}

/// Two concatenations being equal makes overlapping head positions agree.
proof fn lemma_concat_index(a: Seq<u8>, r1: Seq<u8>, b: Seq<u8>, r2: Seq<u8>, i: int)
    requires
        a + r1 == b + r2,
        0 <= i < a.len(),
        i < b.len(),
    ensures
        a[i] == b[i],
{
    assert((a + r1)[i] == a[i]);
    assert((b + r2)[i] == b[i]);
}

/// Equal concatenations with equal heads have equal tails.
proof fn lemma_concat_cancel(a: Seq<u8>, r1: Seq<u8>, b: Seq<u8>, r2: Seq<u8>)
    requires
        a + r1 == b + r2,
        a == b,
    ensures
        r1 == r2,
{
    assert((a + r1).len() == a.len() + r1.len());
    assert((b + r2).len() == b.len() + r2.len());
    assert(r1.len() == r2.len());
    assert(r1 =~= r2) by {
        assert forall|i: int| 0 <= i < r1.len() implies #[trigger] r1[i] == r2[i] by {
            assert((a + r1)[a.len() + i] == r1[i]);
            assert((b + r2)[b.len() + i] == r2[i]);
        }
    }
}

/// Rearranges `(x + y) + r` as `x + (y + r)`.
proof fn lemma_concat_assoc(x: Seq<u8>, y: Seq<u8>, r: Seq<u8>)
    ensures
        (x + y) + r == x + (y + r),
{
    assert((x + y) + r =~= x + (y + r));
}

/// A two-byte field followed by anything determines the field.
proof fn lemma_be16_prefix(n1: u16, n2: u16, r1: Seq<u8>, r2: Seq<u8>)
    requires
        be16(n1) + r1 == be16(n2) + r2,
    ensures
        n1 == n2,
        r1 == r2,
{
    lemma_concat_index(be16(n1), r1, be16(n2), r2, 0);
    lemma_concat_index(be16(n1), r1, be16(n2), r2, 1);
    assert(n1 == n2) by (bit_vector)
        requires
            (n1 >> 8) as u8 == (n2 >> 8) as u8,
            n1 as u8 == n2 as u8,
    {
    }
    lemma_concat_cancel(be16(n1), r1, be16(n2), r2);
}

/// A four-byte field followed by anything determines the field.
proof fn lemma_be32_prefix(n1: u32, n2: u32, r1: Seq<u8>, r2: Seq<u8>)
    requires
        be32(n1) + r1 == be32(n2) + r2,
    ensures
        n1 == n2,
        r1 == r2,
{
    lemma_concat_index(be32(n1), r1, be32(n2), r2, 0);
    lemma_concat_index(be32(n1), r1, be32(n2), r2, 1);
    lemma_concat_index(be32(n1), r1, be32(n2), r2, 2);
    lemma_concat_index(be32(n1), r1, be32(n2), r2, 3);
    assert(n1 == n2) by (bit_vector)
        requires
            (n1 >> 24) as u8 == (n2 >> 24) as u8,
            (n1 >> 16) as u8 == (n2 >> 16) as u8,
            (n1 >> 8) as u8 == (n2 >> 8) as u8,
            n1 as u8 == n2 as u8,
    {
    }
    lemma_concat_cancel(be32(n1), r1, be32(n2), r2);
}

/// An eight-byte field followed by anything determines the field.
proof fn lemma_be64_prefix(n1: u64, n2: u64, r1: Seq<u8>, r2: Seq<u8>)
    requires
        be64(n1) + r1 == be64(n2) + r2,
    ensures
        n1 == n2,
        r1 == r2,
{
    lemma_concat_index(be64(n1), r1, be64(n2), r2, 0);
    lemma_concat_index(be64(n1), r1, be64(n2), r2, 1);
    lemma_concat_index(be64(n1), r1, be64(n2), r2, 2);
    lemma_concat_index(be64(n1), r1, be64(n2), r2, 3);
    lemma_concat_index(be64(n1), r1, be64(n2), r2, 4);
    lemma_concat_index(be64(n1), r1, be64(n2), r2, 5);
    lemma_concat_index(be64(n1), r1, be64(n2), r2, 6);
    lemma_concat_index(be64(n1), r1, be64(n2), r2, 7);
    assert(n1 == n2) by (bit_vector)
        requires
            (n1 >> 56) as u8 == (n2 >> 56) as u8,
            (n1 >> 48) as u8 == (n2 >> 48) as u8,
            (n1 >> 40) as u8 == (n2 >> 40) as u8,
            (n1 >> 32) as u8 == (n2 >> 32) as u8,
            (n1 >> 24) as u8 == (n2 >> 24) as u8,
            (n1 >> 16) as u8 == (n2 >> 16) as u8,
            (n1 >> 8) as u8 == (n2 >> 8) as u8,
            n1 as u8 == n2 as u8,
    {
    }
    lemma_concat_cancel(be64(n1), r1, be64(n2), r2);
}

/// An encoded string followed by anything determines the characters.
proof fn lemma_enc_string_prefix(s1: Seq<char>, s2: Seq<char>, r1: Seq<u8>, r2: Seq<u8>)
    requires
        vstd::utf8::encode_utf8(s1).len() <= 0xffff,
        vstd::utf8::encode_utf8(s2).len() <= 0xffff,
        enc_string(s1) + r1 == enc_string(s2) + r2,
    ensures
        s1 == s2,
        r1 == r2,
{
    let u1 = vstd::utf8::encode_utf8(s1);
    let u2 = vstd::utf8::encode_utf8(s2);
    lemma_concat_assoc(be16(u1.len() as u16), u1, r1);
    lemma_concat_assoc(be16(u2.len() as u16), u2, r2);
    lemma_be16_prefix(u1.len() as u16, u2.len() as u16, u1 + r1, u2 + r2);
    assert(u1.len() == u2.len());
    assert(u1 =~= u2) by {
        assert(forall|i: int|
            0 <= i < u1.len() ==> #[trigger] u1[i] == (u1 + r1)[i] && u2[i] == (u2 + r2)[i]);
    }
    vstd::utf8::encode_utf8_decode_utf8(s1);
    vstd::utf8::encode_utf8_decode_utf8(s2);
    lemma_concat_cancel(u1, r1, u2, r2);
}

/// An encoded payload followed by anything determines the value, up to
/// structural equality, for well-formed values of the same tag id.
proof fn lemma_enc_value_prefix(v1: NbtValue, v2: NbtValue, r1: Seq<u8>, r2: Seq<u8>)
    requires
        wf_nbt(v1),
        wf_nbt(v2),
        tag_type(v1) == tag_type(v2),
        enc_value(v1) + r1 == enc_value(v2) + r2,
    ensures
        nbt_value_eq(v1, v2),
        enc_value(v1) == enc_value(v2),
        r1 == r2,
    decreases v1,
{
    match v1 {
        NbtValue::Byte(b1) => {
            let b2 = v2->Byte_0;
            lemma_concat_index(enc_value(v1), r1, enc_value(v2), r2, 0);
            assert(b1 == b2) by (bit_vector)
                requires
                    b1 as u8 == b2 as u8,
            {
            }
            lemma_concat_cancel(enc_value(v1), r1, enc_value(v2), r2);
        },
        NbtValue::Short(n1) => {
            let n2 = v2->Short_0;
            lemma_be16_prefix(n1 as u16, n2 as u16, r1, r2);
            assert(n1 == n2) by (bit_vector)
                requires
                    n1 as u16 == n2 as u16,
            {
            }
        },
        NbtValue::Int(n1) => {
            let n2 = v2->Int_0;
            lemma_be32_prefix(n1 as u32, n2 as u32, r1, r2);
            assert(n1 == n2) by (bit_vector)
                requires
                    n1 as u32 == n2 as u32,
            {
            }
        },
        NbtValue::Long(n1) => {
            let n2 = v2->Long_0;
            lemma_be64_prefix(n1 as u64, n2 as u64, r1, r2);
            assert(n1 == n2) by (bit_vector)
                requires
                    n1 as u64 == n2 as u64,
            {
            }
        },
        NbtValue::Float(n1) => {
            lemma_be32_prefix(n1, v2->Float_0, r1, r2);
        },
        NbtValue::Double(n1) => {
            lemma_be64_prefix(n1, v2->Double_0, r1, r2);
        },
        NbtValue::ByteArray(a1) => {
            let a2 = v2->ByteArray_0;
            let p1 = Seq::new(a1@.len(), |i: int| a1@[i] as u8);
            let p2 = Seq::new(a2@.len(), |i: int| a2@[i] as u8);
            lemma_concat_assoc(be32(a1@.len() as u32), p1, r1);
            lemma_concat_assoc(be32(a2@.len() as u32), p2, r2);
            lemma_be32_prefix(a1@.len() as u32, a2@.len() as u32, p1 + r1, p2 + r2);
            assert(a1@.len() == a2@.len());
            assert(a1@ =~= a2@) by {
                assert forall|i: int| 0 <= i < a1@.len() implies a1@[i] == a2@[i] by {
                    lemma_concat_index(p1, r1, p2, r2, i);
                    let x1 = a1@[i];
                    let x2 = a2@[i];
                    assert(x1 == x2) by (bit_vector)
                        requires
                            x1 as u8 == x2 as u8,
                    {
                    }
                }
            }
            assert(p1 =~= p2);
            lemma_concat_cancel(p1, r1, p2, r2);
        },
        NbtValue::String(s1) => {
            lemma_enc_string_prefix(s1@, v2->String_0@, r1, r2);
        },
        NbtValue::List(items1) => {
            let items2 = v2->List_0;
            let h1 = seq![
                if items1@.len() == 0 {
                    0u8
                } else {
                    tag_type(items1@[0])
                },
            ];
            let h2 = seq![
                if items2@.len() == 0 {
                    0u8
                } else {
                    tag_type(items2@[0])
                },
            ];
            let t1 = be32(items1@.len() as u32) + (enc_items(items1@) + r1);
            let t2 = be32(items2@.len() as u32) + (enc_items(items2@) + r2);
            assert(h1 + t1 == h2 + t2) by {
                assert(h1 + t1 =~= enc_value(v1) + r1);
                assert(h2 + t2 =~= enc_value(v2) + r2);
            }
            lemma_concat_index(h1, t1, h2, t2, 0);
            assert(h1 =~= h2);
            lemma_concat_cancel(h1, t1, h2, t2);
            lemma_be32_prefix(
                items1@.len() as u32,
                items2@.len() as u32,
                enc_items(items1@) + r1,
                enc_items(items2@) + r2,
            );
            assert(items1@.len() == items2@.len());
            assert(forall|i: int|
                0 <= i < items1@.len() ==> tag_type(#[trigger] items1@[i]) == tag_type(
                    items2@[i],
                )) by {
                if items1@.len() > 0 {
                    assert(h1[0] == h2[0]);
                    assert(tag_type(items1@[0]) == tag_type(items2@[0]));
                }
            }
            lemma_enc_items_prefix(items1@, items2@, r1, r2);
        },
        NbtValue::Compound(pairs1) => {
            let pairs2 = v2->Compound_0;
            lemma_concat_assoc(enc_pairs(pairs1@), seq![0u8], r1);
            lemma_concat_assoc(enc_pairs(pairs2@), seq![0u8], r2);
            lemma_enc_pairs_prefix(pairs1@, pairs2@, seq![0u8] + r1, seq![0u8] + r2);
            lemma_concat_cancel(seq![0u8], r1, seq![0u8], r2);
        },
        NbtValue::IntArray(a1) => {
            let a2 = v2->IntArray_0;
            lemma_concat_assoc(be32(a1@.len() as u32), enc_ints(a1@), r1);
            lemma_concat_assoc(be32(a2@.len() as u32), enc_ints(a2@), r2);
            lemma_be32_prefix(
                a1@.len() as u32,
                a2@.len() as u32,
                enc_ints(a1@) + r1,
                enc_ints(a2@) + r2,
            );
            assert(a1@.len() == a2@.len());
            lemma_enc_ints_prefix(a1@, a2@, r1, r2);
        },
        NbtValue::LongArray(a1) => {
            let a2 = v2->LongArray_0;
            lemma_concat_assoc(be32(a1@.len() as u32), enc_longs(a1@), r1);
            lemma_concat_assoc(be32(a2@.len() as u32), enc_longs(a2@), r2);
            lemma_be32_prefix(
                a1@.len() as u32,
                a2@.len() as u32,
                enc_longs(a1@) + r1,
                enc_longs(a2@) + r2,
            );
            assert(a1@.len() == a2@.len());
            lemma_enc_longs_prefix(a1@, a2@, r1, r2);
        },
    }
}

/// Equally many encoded items of matching tags, followed by anything,
/// determine the items.
proof fn lemma_enc_items_prefix(s1: Seq<NbtValue>, s2: Seq<NbtValue>, r1: Seq<u8>, r2: Seq<u8>)
    requires
        s1.len() == s2.len(),
        forall|i: int| 0 <= i < s1.len() ==> wf_nbt(#[trigger] s1[i]),
        forall|i: int| 0 <= i < s2.len() ==> wf_nbt(#[trigger] s2[i]),
        forall|i: int|
            0 <= i < s1.len() ==> tag_type(#[trigger] s1[i]) == tag_type(s2[i]),
        enc_items(s1) + r1 == enc_items(s2) + r2,
    ensures
        forall|i: int| 0 <= i < s1.len() ==> nbt_value_eq(#[trigger] s1[i], s2[i]),
        enc_items(s1) == enc_items(s2),
        r1 == r2,
    decreases s1,
{
    if s1.len() == 0 {
        lemma_concat_cancel(enc_items(s1), r1, enc_items(s2), r2);
    } else {
        lemma_concat_assoc(enc_value(s1[0]), enc_items(s1.drop_first()), r1);
        lemma_concat_assoc(enc_value(s2[0]), enc_items(s2.drop_first()), r2);
        lemma_enc_value_prefix(
            s1[0],
            s2[0],
            enc_items(s1.drop_first()) + r1,
            enc_items(s2.drop_first()) + r2,
        );
        assert(forall|i: int|
            0 <= i < s1.drop_first().len() ==> #[trigger] s1.drop_first()[i] == s1[i + 1]);
        assert(forall|i: int|
            0 <= i < s2.drop_first().len() ==> #[trigger] s2.drop_first()[i] == s2[i + 1]);
        lemma_enc_items_prefix(s1.drop_first(), s2.drop_first(), r1, r2);
        assert forall|i: int| 0 <= i < s1.len() implies nbt_value_eq(
            #[trigger] s1[i],
            s2[i],
        ) by {
            if i > 0 {
                assert(nbt_value_eq(s1.drop_first()[i - 1], s2.drop_first()[i - 1]));
            }
        }
    }
}

proof fn lemma_enc_ints_prefix(a1: Seq<i32>, a2: Seq<i32>, r1: Seq<u8>, r2: Seq<u8>)
    requires
        a1.len() == a2.len(),
        enc_ints(a1) + r1 == enc_ints(a2) + r2,
    ensures
        a1 == a2,
        enc_ints(a1) == enc_ints(a2),
        r1 == r2,
    decreases a1.len(),
{
    if a1.len() == 0 {
        assert(a1 =~= a2);
        lemma_concat_cancel(enc_ints(a1), r1, enc_ints(a2), r2);
    } else {
        lemma_concat_assoc(be32(a1[0] as u32), enc_ints(a1.drop_first()), r1);
        lemma_concat_assoc(be32(a2[0] as u32), enc_ints(a2.drop_first()), r2);
        lemma_be32_prefix(
            a1[0] as u32,
            a2[0] as u32,
            enc_ints(a1.drop_first()) + r1,
            enc_ints(a2.drop_first()) + r2,
        );
        let x1 = a1[0];
        let x2 = a2[0];
        assert(x1 == x2) by (bit_vector)
            requires
                x1 as u32 == x2 as u32,
        {
        }
        lemma_enc_ints_prefix(a1.drop_first(), a2.drop_first(), r1, r2);
        assert(a1 =~= a2) by {
            assert forall|i: int| 0 <= i < a1.len() implies a1[i] == a2[i] by {
                if i > 0 {
                    assert(a1.drop_first()[i - 1] == a2.drop_first()[i - 1]);
                }
            }
        }
        assert(enc_ints(a1) =~= enc_ints(a2));
    }
}

proof fn lemma_enc_longs_prefix(a1: Seq<i64>, a2: Seq<i64>, r1: Seq<u8>, r2: Seq<u8>)
    requires
        a1.len() == a2.len(),
        enc_longs(a1) + r1 == enc_longs(a2) + r2,
    ensures
        a1 == a2,
        enc_longs(a1) == enc_longs(a2),
        r1 == r2,
    decreases a1.len(),
{
    if a1.len() == 0 {
        assert(a1 =~= a2);
        lemma_concat_cancel(enc_longs(a1), r1, enc_longs(a2), r2);
    } else {
        lemma_concat_assoc(be64(a1[0] as u64), enc_longs(a1.drop_first()), r1);
        lemma_concat_assoc(be64(a2[0] as u64), enc_longs(a2.drop_first()), r2);
        lemma_be64_prefix(
            a1[0] as u64,
            a2[0] as u64,
            enc_longs(a1.drop_first()) + r1,
            enc_longs(a2.drop_first()) + r2,
        );
        let x1 = a1[0];
        let x2 = a2[0];
        assert(x1 == x2) by (bit_vector)
            requires
                x1 as u64 == x2 as u64,
        {
        }
        lemma_enc_longs_prefix(a1.drop_first(), a2.drop_first(), r1, r2);
        assert(a1 =~= a2) by {
            assert forall|i: int| 0 <= i < a1.len() implies a1[i] == a2[i] by {
                if i > 0 {
                    assert(a1.drop_first()[i - 1] == a2.drop_first()[i - 1]);
                }
            }
        }
        assert(enc_longs(a1) =~= enc_longs(a2));
    }
}

/// Encoded compound entries, each list closed by an end marker, determine
/// the entries.
proof fn lemma_enc_pairs_prefix(
    p1: Seq<(String, NbtValue)>,
    p2: Seq<(String, NbtValue)>,
    r1: Seq<u8>,
    r2: Seq<u8>,
)
    requires
        forall|i: int|
            0 <= i < p1.len() ==> wf_nbt((#[trigger] p1[i]).1) && vstd::utf8::encode_utf8(
                p1[i].0@,
            ).len() <= 0xffff,
        forall|i: int|
            0 <= i < p2.len() ==> wf_nbt((#[trigger] p2[i]).1) && vstd::utf8::encode_utf8(
                p2[i].0@,
            ).len() <= 0xffff,
        r1.len() >= 1 && r1[0] == 0,
        r2.len() >= 1 && r2[0] == 0,
        enc_pairs(p1) + r1 == enc_pairs(p2) + r2,
    ensures
        p1.len() == p2.len(),
        forall|i: int|
            0 <= i < p1.len() ==> (#[trigger] p1[i]).0@ == p2[i].0@ && nbt_value_eq(
                p1[i].1,
                p2[i].1,
            ),
        enc_pairs(p1) == enc_pairs(p2),
        r1 == r2,
    decreases p1,
{
    if p1.len() == 0 && p2.len() == 0 {
        lemma_concat_cancel(enc_pairs(p1), r1, enc_pairs(p2), r2);
    } else if p1.len() == 0 {
        assert((enc_pairs(p1) + r1)[0] == r1[0]);
        assert((enc_pairs(p2) + r2)[0] == tag_type(p2[0].1)) by {
            assert(enc_pairs(p2)[0] == tag_type(p2[0].1));
        }
        assert(false);
    } else if p2.len() == 0 {
        assert((enc_pairs(p2) + r2)[0] == r2[0]);
        assert((enc_pairs(p1) + r1)[0] == tag_type(p1[0].1)) by {
            assert(enc_pairs(p1)[0] == tag_type(p1[0].1));
        }
        assert(false);
    } else {
        let h1 = seq![tag_type(p1[0].1)];
        let h2 = seq![tag_type(p2[0].1)];
        let u1 = enc_string(p1[0].0@) + (enc_value(p1[0].1) + (enc_pairs(p1.drop_first()) + r1));
        let u2 = enc_string(p2[0].0@) + (enc_value(p2[0].1) + (enc_pairs(p2.drop_first()) + r2));
        assert(h1 + u1 == h2 + u2) by {
            assert(h1 + u1 =~= enc_pairs(p1) + r1);
            assert(h2 + u2 =~= enc_pairs(p2) + r2);
        }
        lemma_concat_index(h1, u1, h2, u2, 0);
        assert(h1 =~= h2);
        lemma_concat_cancel(h1, u1, h2, u2);
        lemma_enc_string_prefix(
            p1[0].0@,
            p2[0].0@,
            enc_value(p1[0].1) + (enc_pairs(p1.drop_first()) + r1),
            enc_value(p2[0].1) + (enc_pairs(p2.drop_first()) + r2),
        );
        lemma_enc_value_prefix(
            p1[0].1,
            p2[0].1,
            enc_pairs(p1.drop_first()) + r1,
            enc_pairs(p2.drop_first()) + r2,
        );
        assert(forall|i: int|
            0 <= i < p1.drop_first().len() ==> #[trigger] p1.drop_first()[i] == p1[i + 1]);
        assert(forall|i: int|
            0 <= i < p2.drop_first().len() ==> #[trigger] p2.drop_first()[i] == p2[i + 1]);
        lemma_enc_pairs_prefix(p1.drop_first(), p2.drop_first(), r1, r2);
        assert forall|i: int|
            0 <= i < p1.len() implies (#[trigger] p1[i]).0@ == p2[i].0@ && nbt_value_eq(
            p1[i].1,
            p2[i].1,
        ) by {
            if i > 0 {
                assert(p1.drop_first()[i - 1].0@ == p2.drop_first()[i - 1].0@ && nbt_value_eq(
                    p1.drop_first()[i - 1].1,
                    p2.drop_first()[i - 1].1,
                ));
            }
        }
        assert(enc_pairs(p1) =~= enc_pairs(p2));
    }
}

/// Decoding is unambiguous: when a well-formed tag's encoding lies at the
/// start of another well-formed tag's encoding, the two tags are
/// structurally equal and nothing follows. Writing a tag and reading the
/// bytes back therefore yields the written tag.
pub proof fn lemma_enc_tag_unambiguous(t1: NbtTag, t2: NbtTag, rest: Seq<u8>)
    requires
        wf_nbt_tag(t1),
        wf_nbt_tag(t2),
        enc_tag(t1) + rest == enc_tag(t2),
    ensures
        nbt_tag_eq(t1, t2),
        rest == Seq::<u8>::empty(),
{
    let h1 = seq![tag_type(t1.value)];
    let h2 = seq![tag_type(t2.value)];
    let u1 = enc_string(t1.name@) + (enc_value(t1.value) + rest);
    let u2 = enc_string(t2.name@) + (enc_value(t2.value) + Seq::<u8>::empty());
    assert(h1 + u1 == h2 + u2) by {
        assert(h1 + u1 =~= enc_tag(t1) + rest);
        assert(h2 + u2 =~= enc_tag(t2));
    }
    lemma_concat_index(h1, u1, h2, u2, 0);
    assert(h1 =~= h2);
    lemma_concat_cancel(h1, u1, h2, u2);
    lemma_enc_string_prefix(
        t1.name@,
        t2.name@,
        enc_value(t1.value) + rest,
        enc_value(t2.value) + Seq::<u8>::empty(),
    );
    lemma_enc_value_prefix(t1.value, t2.value, rest, Seq::<u8>::empty());
}

} // verus!
