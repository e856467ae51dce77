//! Decoding fixed-size little-endian records from a byte dump. The dump is
//! read back to front: each block of it is consumed from its end, three
//! bytes per field.
use vstd::prelude::*;

verus! {

/// A value record: a type tag, the bits of an `f32` reading and a
/// timestamp.
#[derive(Debug, PartialEq, Eq, Structural, Clone, Copy)]
pub struct ValueStructT {
    pub t: i32,
    pub val_bits: u32,
    pub timestamp: i32,
}

/// What a block of the dump holds, by its leading type field.
#[derive(Debug, PartialEq, Eq, Structural, Clone, Copy)]
pub enum CData {
    /// Type 0: a value record.
    ValueStruct(ValueStructT),
    /// Type 1: a record of several values, not decoded further.
    MValueStruct,
    /// Type 2: a text message, not decoded further.
    MessageStruct,
    /// Any other type.
    Unknown(i32),
}

/// The field taken from the end of `s`: its last byte is the least
/// significant, the two before it follow, and the top byte is zero.
pub open spec fn last_field(s: Seq<u8>) -> int {
    s[s.len() - 1] + 256 * s[s.len() - 2] + 65536 * s[s.len() - 3]
}

/// `s` without its last field.
pub open spec fn without_field(s: Seq<u8>) -> Seq<u8> {
    s.subrange(0, s.len() - 3)
}

/// The fields of the block `s`, consumed from its end: the first is the
/// type; for type 0 three more follow.
pub open spec fn decode(s: Seq<u8>) -> CData {
    let kind = last_field(s);
    if kind == 0 {
        let s1 = without_field(s);
        let s2 = without_field(s1);
        let s3 = without_field(s2);
        CData::ValueStruct(ValueStructT {
            t: last_field(s1) as i32,
            val_bits: last_field(s2) as u32,
            timestamp: last_field(s3) as i32,
        })
    } else if kind == 1 {
        CData::MValueStruct
    } else if kind == 2 {
        CData::MessageStruct
    } else {
        CData::Unknown(kind as i32)
    }
}

/// Whether the block `s` holds every field that `decode` takes from it.
pub open spec fn decodable(s: Seq<u8>) -> bool {
    s.len() >= 3 && (last_field(s) == 0 ==> s.len() >= 12)
}

/// Block `k`, of `size` bytes, of the dump `raw` read back to front.
pub open spec fn block_of(raw: Seq<u8>, k: int, size: int) -> Seq<u8> {
    raw.reverse().subrange(k * size, (k + 1) * size)
}

/// Takes the last field off `sub`, as a signed value.
fn byte_4_i32(sub: &mut Vec<u8>) -> (r: i32)
    requires
        old(sub)@.len() >= 3,
    ensures
        r as int == last_field(old(sub)@),
        final(sub)@ == without_field(old(sub)@),
{
    let b0 = sub.pop().unwrap();
    let b1 = sub.pop().unwrap();
    let b2 = sub.pop().unwrap();
    (b0 as i32) + (b1 as i32) * 256 + (b2 as i32) * 65536
}

/// Takes the last field off `sub`, as the bits of an `f32`.
fn byte_4_f32_bits(sub: &mut Vec<u8>) -> (r: u32)
    requires
        old(sub)@.len() >= 3,
    ensures
        r as int == last_field(old(sub)@),
        final(sub)@ == without_field(old(sub)@),
{
    let b0 = sub.pop().unwrap();
    let b1 = sub.pop().unwrap();
    let b2 = sub.pop().unwrap();
    (b0 as u32) + (b1 as u32) * 256 + (b2 as u32) * 65536
}

/// Decodes one block.
pub fn decode_block(block: Vec<u8>) -> (r: CData)
    requires
        decodable(block@),
    ensures
        r == decode(block@),
{
    let mut sub = block;
    let ghost s0 = sub@;
    let type_var = byte_4_i32(&mut sub);
    if type_var == 0 {
        let ghost s1 = sub@;
        let t = byte_4_i32(&mut sub);
        let ghost s2 = sub@;
        let val_bits = byte_4_f32_bits(&mut sub);
        let ghost s3 = sub@;
        let timestamp = byte_4_i32(&mut sub);
        assert(s1 == without_field(s0) && s2 == without_field(s1) && s3 == without_field(s2));
        CData::ValueStruct(ValueStructT { t, val_bits, timestamp })
    } else if type_var == 1 {
        CData::MValueStruct
    } else if type_var == 2 {
        CData::MessageStruct
    } else {
        CData::Unknown(type_var)
    }
}

/// The dump in reading order: back to front.
pub fn reversed(raw: &Vec<u8>) -> (r: Vec<u8>)
    ensures
        r@ == raw@.reverse(),
{
    let mut r: Vec<u8> = Vec::with_capacity(raw.len());
    let mut i = raw.len();
    while i > 0
        invariant
            i <= raw@.len(),
            r@ == raw@.subrange(i as int, raw@.len() as int).reverse(),
        decreases i,
    {
        i = i - 1;
        r.push(raw[i]);
        assert(r@ =~= raw@.subrange(i as int, raw@.len() as int).reverse());
    }
    assert(raw@.subrange(0, raw@.len() as int) =~= raw@);
    r
}

/// Whether the dump `raw` holds `num` blocks of `size` bytes, each of which
/// holds every field that `decode` takes from it, as `decode_dump` needs.
pub fn dump_decodable(raw: &Vec<u8>, num: usize, size: usize) -> (r: bool)
    ensures
        r == (num * size <= raw@.len() && forall|k: int| 0 <= k < num ==> decodable(#[trigger] block_of(raw@, k, size as int))),
{
    let total = match num.checked_mul(size) {
        Some(t) => t,
        None => {
            assert(raw@.len() == raw.len());
            return false;
        },
    };
    if total > raw.len() {
        return false;
    }
    if size < 3 {
        if num > 0 {
            assert(size <= num * size) by (nonlinear_arith)
                requires
                    num > 0,
            ;
            assert(block_of(raw@, 0, size as int).len() == size);
            assert(!decodable(block_of(raw@, 0, size as int)));
        }
        return num == 0;
    }
    let bytes = reversed(raw);
    assert(raw@.len() == raw.len());
    let mut k: usize = 0;
    while k < num
        invariant
            bytes@ == raw@.reverse(),
            raw@.len() <= usize::MAX,
            num * size <= raw@.len(),
            size >= 3,
            k <= num,
            forall|j: int| 0 <= j < k ==> decodable(#[trigger] block_of(raw@, j, size as int)),
        decreases num - k,
    {
        assert(k * size + size <= num * size) by (nonlinear_arith)
            requires
                k < num,
        ;
        assert((k + 1) * size == k * size + size) by (nonlinear_arith);
        let end = k * size + size;
        let ghost b = block_of(raw@, k as int, size as int);
        assert(b.len() == size);
        assert(b[size - 1] == bytes@[end - 1]);
        assert(b[size - 2] == bytes@[end - 2]);
        assert(b[size - 3] == bytes@[end - 3]);
        let kind: u32 = (bytes[end - 1] as u32) + (bytes[end - 2] as u32) * 256 + (bytes[end - 3] as u32) * 65536;
        if kind == 0 && size < 12 {
            return false;
        }
        k = k + 1;
    }
    true
}

/// Decodes the first `num` blocks of `size` bytes of the dump `raw`, read
/// back to front.
pub fn decode_dump(raw: &Vec<u8>, num: usize, size: usize) -> (r: Vec<CData>)
    requires
        num * size <= raw@.len(),
        forall|k: int| 0 <= k < num ==> decodable(#[trigger] block_of(raw@, k, size as int)),
    ensures
        r@.len() == num,
        forall|k: int| 0 <= k < num ==> #[trigger] r@[k] == decode(block_of(raw@, k, size as int)),
{
    let bytes = reversed(raw);
    assert(raw@.len() == raw.len());
    let mut r: Vec<CData> = Vec::with_capacity(num);
    let mut block: usize = 0;
    while block < num
        invariant
            bytes@ == raw@.reverse(),
            raw@.len() <= usize::MAX,
            num * size <= raw@.len(),
            forall|k: int| 0 <= k < num ==> decodable(#[trigger] block_of(raw@, k, size as int)),
            block <= num,
            r@.len() == block,
            forall|k: int| 0 <= k < block ==> #[trigger] r@[k] == decode(block_of(raw@, k, size as int)),
        decreases num - block,
    {
        assert(block * size + size <= num * size) by (nonlinear_arith)
            requires
                block < num,
        ;
        let offset = block * size;
        let mut sub: Vec<u8> = Vec::with_capacity(size);
        let mut j: usize = 0;
        assert(sub@ =~= bytes@.subrange(offset as int, offset as int));
        while j < size
            invariant
                bytes@ == raw@.reverse(),
                offset == block * size,
                offset + size <= raw@.len(),
                raw@.len() <= usize::MAX,
                j <= size,
                sub@ == bytes@.subrange(offset as int, offset + j),
            decreases size - j,
        {
            sub.push(bytes[offset + j]);
            j = j + 1;
            assert(sub@ =~= bytes@.subrange(offset as int, offset + j));
        }
        assert((block + 1) * size == offset + size) by (nonlinear_arith)
            requires
                offset == block * size,
        ;
        assert(sub@ == block_of(raw@, block as int, size as int));
        let d = decode_block(sub);
        r.push(d);
        block = block + 1;
    }
    r
}

} // verus!
