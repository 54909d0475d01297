//! Turning codes into a flat bit sequence, and bit sequences into bytes and
//! back. Bits fill each byte from its least significant bit up; the last
//! byte is padded with zero bits.
use crate::codes::{enc_view, table_view, HuffmanEncoding};
use crate::error::HuffmanError;
use vstd::prelude::*;

verus! {

/// Bit `i` of a byte sequence, counting from the least significant bit of
/// the first byte.
pub open spec fn bit_of(bytes: Seq<u8>, i: int) -> bool {
    (bytes[i / 8] >> ((i % 8) as u8)) & 1 == 1
}

/// All bits of a byte sequence, in order.
pub open spec fn unpack(bytes: Seq<u8>) -> Seq<bool> {
    Seq::new(8 * bytes.len(), |i: int| bit_of(bytes, i))
}

/// `bytes` holds `bits` in order, followed by zero bits up to the end of
/// the last byte, with no byte to spare.
pub open spec fn packed(bits: Seq<bool>, bytes: Seq<u8>) -> bool {
    &&& bytes.len() == (bits.len() + 7) / 8
    &&& forall|i: int| 0 <= i < 8 * bytes.len() ==> #[trigger] bit_of(bytes, i) == (i < bits.len() && bits[i])
}

/// The code of an entry, or nothing where the entry is empty.
pub open spec fn code_or_empty(e: Option<Seq<bool>>) -> Seq<bool> {
    match e {
        Some(c) => c,
        None => Seq::empty(),
    }
}

/// The codes of the bytes of `d`, one after the other.
pub open spec fn encode_spec(tbl: Seq<Option<Seq<bool>>>, d: Seq<u8>) -> Seq<bool>
    decreases d.len(),
{
    if d.len() == 0 {
        Seq::empty()
    } else {
        encode_spec(tbl, d.drop_last()) + code_or_empty(tbl[d.last() as int])
    }
}

/// Every byte of `d` has a code in `tbl`.
pub open spec fn representable(tbl: Seq<Option<Seq<bool>>>, d: Seq<u8>) -> bool {
    forall|i: int| 0 <= i < d.len() ==> #[trigger] tbl[d[i] as int] is Some
}

proof fn lemma_bit_set(b: u8, k: u8, m: u8)
    requires
        k < 8,
        m < 8,
    ensures
        ((b | (1u8 << k)) >> m) & 1 == if m == k {
            1u8
        } else {
            (b >> m) & 1
        },
{
    assert(((b | (1u8 << k)) >> m) & 1 == if m == k {
        1u8
    } else {
        (b >> m) & 1
    }) by (bit_vector)
        requires
            k < 8,
            m < 8,
    ;
}

proof fn lemma_zero_bits(m: u8)
    requires
        m < 8,
    ensures
        (0u8 >> m) & 1 == 0,
{
    assert((0u8 >> m) & 1 == 0) by (bit_vector);
}

proof fn lemma_bit_is_one_or_zero(b: u8, m: u8)
    ensures
        ((b >> m) & 1 == 1) || ((b >> m) & 1 == 0),
{
    assert(((b >> m) & 1 == 1) || ((b >> m) & 1 == 0)) by (bit_vector);
}

/// Packs bits into bytes, least significant bit first, padding the last
/// byte with zero bits.
pub fn pack_bits(bits: &Vec<bool>) -> (r: Vec<u8>)
    ensures
        packed(bits@, r@),
{
    let mut out: Vec<u8> = Vec::new();
    let mut i: usize = 0;
    while i < bits.len()
        invariant
            i <= bits@.len(),
            out@.len() == (i + 7) / 8,
            forall|j: int| 0 <= j < 8 * out@.len() ==> #[trigger] bit_of(out@, j) == (j < i && bits@[j]),
        decreases bits@.len() - i,
    {
        let k: usize = i % 8;
        if k == 0 {
            let ghost before = out@;
            out.push(0);
            proof {
                assert forall|j: int| 0 <= j < 8 * out@.len() implies #[trigger] bit_of(out@, j) == (j < i
                    && bits@[j]) by {
                    if j >= 8 * before.len() {
                        lemma_zero_bits((j % 8) as u8);
                    } else {
                        assert(out@[j / 8] == before[j / 8]);
                        assert(bit_of(before, j) == (j < i && bits@[j]));
                    }
                }
            }
        }
        if bits[i] {
            let last: usize = i / 8;
            let ghost before = out@;
            let b = out[last];
            out.set(last, b | (1u8 << (k as u8)));
            proof {
                assert forall|j: int| 0 <= j < 8 * out@.len() implies #[trigger] bit_of(out@, j) == (j < i
                    + 1 && bits@[j]) by {
                    if j / 8 == last as int {
                        lemma_bit_set(b, k as u8, (j % 8) as u8);
                        assert(bit_of(before, j) == (j < i && bits@[j]));
                    } else {
                        assert(bit_of(before, j) == (j < i && bits@[j]));
                    }
                }
            }
        } else {
            proof {
                assert forall|j: int| 0 <= j < 8 * out@.len() implies #[trigger] bit_of(out@, j) == (j < i
                    + 1 && bits@[j]) by {
                    assert(bit_of(out@, j) == (j < i && bits@[j]));
                }
            }
        }
        i += 1;
    }
    out
}

/// All bits of a byte sequence, least significant bit of each byte first.
pub fn unpack_bits(bytes: &[u8]) -> (r: Vec<bool>)
    ensures
        r@ == unpack(bytes@),
{
    let mut out: Vec<bool> = Vec::new();
    let mut i: usize = 0;
    while i < bytes.len()
        invariant
            i <= bytes@.len(),
            out@.len() == 8 * i,
            forall|j: int| 0 <= j < 8 * i ==> #[trigger] out@[j] == bit_of(bytes@, j),
        decreases bytes@.len() - i,
    {
        let b = bytes[i];
        let mut k: u8 = 0;
        while k < 8
            invariant
                i < bytes@.len(),
                b == bytes@[i as int],
                k <= 8,
                out@.len() == 8 * i + k,
                forall|j: int| 0 <= j < 8 * i + k ==> #[trigger] out@[j] == bit_of(bytes@, j),
            decreases 8 - k,
        {
            let bit = (b >> k) & 1 == 1;
            out.push(bit);
            proof {
                let j = 8 * i + k;
                assert(j / 8 == i as int && j % 8 == k as int);
            }
            k += 1;
        }
        i += 1;
    }
    assert(out@ =~= unpack(bytes@));
    out
}

/// Appends the code of each byte of `data`, in order; fails with
/// `UnrepresentableSymbol` when a byte has no code.
pub fn encode_symbols(table: &Vec<Option<HuffmanEncoding>>, data: &[u8]) -> (r: Result<
    Vec<bool>,
    HuffmanError,
>)
    requires
        table@.len() == 256,
    ensures
        r is Ok <==> representable(table_view(table@), data@),
        r matches Ok(bits) ==> bits@ == encode_spec(table_view(table@), data@),
        r matches Err(e) ==> e == HuffmanError::UnrepresentableSymbol,
{
    let ghost tbl = table_view(table@);
    let mut out: Vec<bool> = Vec::new();
    let mut i: usize = 0;
    while i < data.len()
        invariant
            table@.len() == 256,
            tbl == table_view(table@),
            i <= data@.len(),
            out@ == encode_spec(tbl, data@.subrange(0, i as int)),
            representable(tbl, data@.subrange(0, i as int)),
        decreases data@.len() - i,
    {
        let b = data[i];
        let ghost prev = out@;
        match &table[b as usize] {
            Some(enc) => {
                let mut k: usize = 0;
                while k < enc.bits.len()
                    invariant
                        k <= enc.bits@.len(),
                        out@ == prev + enc.bits@.subrange(0, k as int),
                    decreases enc.bits@.len() - k,
                {
                    out.push(enc.bits[k]);
                    k += 1;
                    assert(out@ =~= prev + enc.bits@.subrange(0, k as int));
                }
                proof {
                    let s = data@.subrange(0, i + 1);
                    assert(s.drop_last() =~= data@.subrange(0, i as int));
                    assert(enc.bits@.subrange(0, enc.bits@.len() as int) =~= enc.bits@);
                    assert(tbl[b as int] == enc_view(table@[b as int]));
                    assert forall|j: int| 0 <= j < s.len() implies #[trigger] tbl[s[j] as int] is Some by {
                        if j < i {
                            assert(s[j] == data@.subrange(0, i as int)[j]);
                        }
                    }
                }
            },
            None => {
                proof {
                    assert(tbl[b as int] == enc_view(table@[b as int]));
                    assert(tbl[data@[i as int] as int] is None);
                }
                return Err(HuffmanError::UnrepresentableSymbol);
            },
        }
        i += 1;
    }
    assert(data@.subrange(0, data@.len() as int) =~= data@);
    Ok(out)
}

} // verus!
