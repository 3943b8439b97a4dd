//! Byte serialization of a cell tree.
//!
//! Each cell is written depth first: a big-endian 16-bit data bit count,
//! the data bits packed into bytes with zero padding in the final byte,
//! a reference count byte, then the serialized children in order.  The
//! format is deterministic, so equal trees serialize to equal bytes.

use vstd::prelude::*;
use crate::AbiError;
use crate::bits::{u_bits, byte_bits, bits_val, lemma_u_bits_len, lemma_u_bits_index, lemma_u_bits_of_val};
use crate::bitstring::Bitstring;
use crate::cell::{Cell, CellV, CellBuilder, cell_wf, builder_cell};
use crate::slice::{lemma_bits_val_bound, pow2_spec};

verus! {

broadcast use {vstd::std_specs::vec::group_vec_axioms, vstd::seq::group_seq_axioms};

/// Bits packed into bytes, eight at a time, the last byte padded with
/// zeros at its low end.
pub open spec fn pack_bits(bits: Seq<bool>) -> Seq<u8>
    decreases bits.len(),
{
    if bits.len() == 0 {
        Seq::empty()
    } else if bits.len() < 8 {
        seq![bits_val(bits + Seq::new((8 - bits.len()) as nat, |i: int| false)) as u8]
    } else {
        seq![bits_val(bits.take(8)) as u8] + pack_bits(bits.skip(8))
    }
}

/// A packed byte string is one byte for each eight bits, rounded up.
pub proof fn lemma_pack_len(bits: Seq<bool>)
    ensures
        pack_bits(bits).len() == (bits.len() + 7) / 8,
    decreases bits.len(),
{
    if bits.len() == 0 {
    } else if bits.len() < 8 {
        assert((bits.len() + 7) / 8 == 1);
    } else {
        lemma_pack_len(bits.skip(8));
        let m = bits.len() - 8;
        assert((m + 7) / 8 + 1 == (bits.len() + 7) as int / 8) by {
            vstd::arithmetic::div_mod::lemma_fundamental_div_mod(m + 7, 8);
            vstd::arithmetic::div_mod::lemma_fundamental_div_mod_converse(
                bits.len() as int + 7,
                8,
                (m + 7) / 8 + 1,
                (m + 7) % 8,
            );
        }
    }
}

/// The bit at MSB-first position `k` of packed byte `i` is the packed
/// bit at position `8 i + k`, or a padding zero past the end.
pub proof fn lemma_pack_index(bits: Seq<bool>, i: int, k: int)
    requires
        0 <= k < 8,
        0 <= i < pack_bits(bits).len(),
    ensures
        byte_bits(pack_bits(bits)[i])[k] == (if 8 * i + k < bits.len() {
            bits[8 * i + k]
        } else {
            false
        }),
    decreases bits.len(),
{
    lemma_pack_len(bits);
    if i == 0 {
        let chunk = if bits.len() < 8 {
            bits + Seq::new((8 - bits.len()) as nat, |j: int| false)
        } else {
            bits.take(8)
        };
        assert(chunk.len() == 8);
        crate::slice::lemma_bits_val_bound(chunk);
        vstd::arithmetic::power2::lemma2_to64();
        assert(pack_bits(bits)[0] == bits_val(chunk) as u8);
        assert((bits_val(chunk) as u8) as nat == bits_val(chunk));
        lemma_u_bits_of_val(chunk);
        assert(byte_bits(pack_bits(bits)[0]) == chunk);
    } else {
        lemma_pack_index(bits.skip(8), i - 1, k);
        assert(pack_bits(bits)[i] == pack_bits(bits.skip(8))[i - 1]);
        if 8 * i + k < bits.len() {
            assert(bits.skip(8)[8 * (i - 1) + k] == bits[8 * i + k]);
        }
    }
}

/// The serialized form of one cell and its subtree.
pub open spec fn ser_cell(c: CellV) -> Seq<u8>
    decreases c, 0nat,
{
    seq![(c.data.len() / 256) as u8, (c.data.len() % 256) as u8] + pack_bits(c.data) + seq![
        c.refs.len() as u8,
    ] + ser_refs(c.refs)
}

/// The serialized forms of a reference list, in order.
pub open spec fn ser_refs(rs: Seq<CellV>) -> Seq<u8>
    decreases rs, 1nat,
{
    if rs.len() == 0 {
        Seq::empty()
    } else {
        ser_cell(rs[0]) + ser_refs(rs.drop_first())
    }
}

/// Packs the bits of a bit string into bytes.
pub fn pack_bits_vec(bits: &Bitstring) -> (r: Vec<u8>)
    ensures
        r@ == pack_bits(bits@),
{
    let n = bits.length_in_bits();
    let mut out: Vec<u8> = Vec::new();
    let mut i: usize = 0;
    proof {
        assert(bits@.skip(0) =~= bits@);
        assert(Seq::<u8>::empty() + pack_bits(bits@) =~= pack_bits(bits@));
    }
    while i < n
        invariant
            n == bits@.len(),
            i <= n,
            pack_bits(bits@) == out@ + pack_bits(bits@.skip(i as int)),
        decreases n - i,
    {
        let mut v: u8 = 0;
        let mut j: usize = 0;
        let take = if n - i < 8 {
            n - i
        } else {
            8
        };
        let ghost chunk = if n - i < 8 {
            bits@.skip(i as int) + Seq::new((8 - (n - i)) as nat, |k: int| false)
        } else {
            bits@.skip(i as int).take(8)
        };
        proof {
            vstd::arithmetic::power2::lemma2_to64();
            assert(chunk.take(0) =~= Seq::<bool>::empty());
        }
        while j < 8
            invariant
                i + take <= n <= bits@.len(),
                take == (if n - i < 8 { n - i } else { 8 }),
                j <= 8,
                chunk.len() == 8,
                forall|k: int| 0 <= k < take ==> chunk[k] == bits@[i + k],
                forall|k: int| take <= k < 8 ==> chunk[k] == false,
                v as nat == bits_val(chunk.take(j as int)),
                v < pow2_spec(j as nat),
            decreases 8 - j,
        {
            proof {
                vstd::arithmetic::power2::lemma2_to64();
                vstd::arithmetic::power2::lemma_pow2_unfold((j + 1) as nat);
                assert(chunk.take(j + 1).drop_last() =~= chunk.take(j as int));
            }
            let b = if j < take {
                bits.get(i + j)
            } else {
                false
            };
            v = 2 * v + (if b { 1 } else { 0 });
            j = j + 1;
        }
        proof {
            assert(chunk.take(8) =~= chunk);
            lemma_bits_val_bound(chunk);
            vstd::arithmetic::power2::lemma2_to64();
        }
        out.push(v);
        proof {
            let rest = bits@.skip(i as int);
            if n - i < 8 {
                assert(chunk =~= rest + Seq::new((8 - rest.len()) as nat, |k: int| false));
                assert(pack_bits(rest) =~= seq![v]);
            } else {
                assert(chunk =~= rest.take(8));
                assert(rest.skip(8) =~= bits@.skip(i + take));
                assert(pack_bits(rest) == seq![v] + pack_bits(bits@.skip(i + take)));
            }
            assert(pack_bits(bits@) =~= out@ + pack_bits(bits@.skip((i + take) as int)));
        }
        i = i + take;
    }
    proof {
        assert(bits@.skip(n as int) =~= Seq::<bool>::empty());
        assert(pack_bits(Seq::<bool>::empty()) =~= Seq::<u8>::empty());
        assert(out@ =~= pack_bits(bits@));
    }
    out
}

/// Serializes a well-formed cell tree into bytes.
pub fn serialize_cells(root: &Cell) -> (r: Vec<u8>)
    requires
        cell_wf(root@),
    ensures
        r@ == ser_cell(root@),
    decreases root@,
{
    let n = root.data_bits().length_in_bits();
    let mut out: Vec<u8> = Vec::new();
    out.push((n / 256) as u8);
    out.push((n % 256) as u8);
    let mut packed = pack_bits_vec(root.data_bits());
    let ghost packed_v = packed@;
    out.append(&mut packed);
    let k = root.ref_count();
    out.push(k as u8);
    let ghost head = out@;
    proof {
        assert(head =~= seq![(root@.data.len() / 256) as u8, (root@.data.len() % 256) as u8]
            + pack_bits(root@.data) + seq![root@.refs.len() as u8]);
    }
    let mut i: usize = 0;
    while i < k
        invariant
            k == root@.refs.len(),
            i <= k,
            cell_wf(root@),
            out@ == head + ser_refs_take(root@.refs, i as int),
            head =~= seq![(root@.data.len() / 256) as u8, (root@.data.len() % 256) as u8]
                + pack_bits(root@.data) + seq![root@.refs.len() as u8],
        decreases k - i,
    {
        let mut child = serialize_cells(root.reference(i));
        out.append(&mut child);
        proof {
            lemma_ser_refs_take(root@.refs, i as int);
        }
        i = i + 1;
    }
    proof {
        lemma_ser_refs_take_all(root@.refs);
        assert(ser_cell(root@) =~= head + ser_refs(root@.refs));
        assert(out@ =~= ser_cell(root@));
    }
    out
}

/// The serialized forms of the first `i` references.
pub open spec fn ser_refs_take(rs: Seq<CellV>, i: int) -> Seq<u8>
    decreases i,
{
    if i <= 0 {
        Seq::empty()
    } else {
        ser_refs_take(rs, i - 1) + ser_cell(rs[i - 1])
    }
}

/// Taking one more reference extends the serialized prefix by one cell.
proof fn lemma_ser_refs_take(rs: Seq<CellV>, i: int)
    requires
        0 <= i < rs.len(),
    ensures
        ser_refs_take(rs, i + 1) == ser_refs_take(rs, i) + ser_cell(rs[i]),
{
}

/// Taking every reference yields the full reference serialization.
proof fn lemma_ser_refs_take_all(rs: Seq<CellV>)
    ensures
        ser_refs_take(rs, rs.len() as int) == ser_refs(rs),
{
    lemma_ser_refs_prefix(rs, rs.len() as int);
    assert(rs.skip(rs.len() as int) =~= Seq::<CellV>::empty());
    assert(ser_refs_take(rs, rs.len() as int) + Seq::<u8>::empty()
        =~= ser_refs_take(rs, rs.len() as int));
}

/// The whole reference serialization splits at any prefix point.
proof fn lemma_ser_refs_prefix(rs: Seq<CellV>, i: int)
    requires
        0 <= i <= rs.len(),
    ensures
        ser_refs(rs) == ser_refs_take(rs, i) + ser_refs(rs.skip(i)),
    decreases i,
{
    if i == 0 {
        assert(rs.skip(0) =~= rs);
        assert(ser_refs_take(rs, 0) + ser_refs(rs) =~= ser_refs(rs));
    } else {
        lemma_ser_refs_prefix(rs, i - 1);
        assert(rs.skip(i - 1)[0] == rs[i - 1]);
        assert(rs.skip(i - 1).drop_first() =~= rs.skip(i));
        assert(ser_refs(rs.skip(i - 1)) == ser_cell(rs[i - 1]) + ser_refs(rs.skip(i)));
        assert(ser_refs_take(rs, i) == ser_refs_take(rs, i - 1) + ser_cell(rs[i - 1]));
        assert(ser_refs_take(rs, i - 1) + ser_refs(rs.skip(i - 1))
            =~= ser_refs_take(rs, i) + ser_refs(rs.skip(i)));
    }
}

/// A well-formed tree whose canonical serialization occupies the bytes
/// starting at `pos`.
pub open spec fn ser_at(bytes: Seq<u8>, pos: int, c: CellV) -> bool {
    &&& 0 <= pos
    &&& pos + ser_cell(c).len() <= bytes.len()
    &&& bytes.subrange(pos, pos + ser_cell(c).len()) == ser_cell(c)
}

/// Where the serialized children of a cell parsed at `pos` begin.
pub open spec fn ser_child_base(pos: int, c: CellV) -> int {
    pos + 3 + (c.data.len() + 7) as int / 8
}

/// The pieces of a serialization standing at `pos`: the length header,
/// the packed data, the reference count, each at its place.
proof fn lemma_ser_at_parts(bytes: Seq<u8>, pos: int, c: CellV)
    requires
        cell_wf(c),
        ser_at(bytes, pos, c),
    ensures
        (bytes[pos] as int) * 256 + bytes[pos + 1] == c.data.len(),
        ser_child_base(pos, c) <= bytes.len(),
        ser_child_base(pos, c) + ser_refs(c.refs).len() == pos + ser_cell(c).len(),
        bytes.subrange(pos + 2, ser_child_base(pos, c) - 1) == pack_bits(c.data),
        bytes[ser_child_base(pos, c) - 1] == c.refs.len() as u8,
{
    lemma_pack_len(c.data);
    let ser = ser_cell(c);
    let nb = (c.data.len() + 7) as int / 8;
    assert(ser.len() == 3 + nb + ser_refs(c.refs).len());
    let hi = (c.data.len() / 256) as u8;
    let lo = (c.data.len() % 256) as u8;
    assert(ser[0] == hi && ser[1] == lo);
    assert(bytes[pos] == ser[0] && bytes[pos + 1] == ser[1]) by {
        assert(bytes.subrange(pos, pos + ser.len()) =~= ser);
        assert(bytes.subrange(pos, pos + ser.len())[0] == bytes[pos]);
        assert(bytes.subrange(pos, pos + ser.len())[1] == bytes[pos + 1]);
    }
    assert((hi as int) * 256 + lo == c.data.len()) by {
        vstd::arithmetic::div_mod::lemma_fundamental_div_mod(c.data.len() as int, 256);
    }
    assert(bytes.subrange(pos + 2, pos + 2 + nb) =~= pack_bits(c.data)) by {
        assert forall|j: int| 0 <= j < nb implies bytes[pos + 2 + j] == pack_bits(c.data)[j] by {
            assert(bytes.subrange(pos, pos + ser.len())[2 + j] == bytes[pos + 2 + j]);
            assert(ser[2 + j] == pack_bits(c.data)[j]);
        }
    }
    assert(bytes[pos + 2 + nb] == c.refs.len() as u8) by {
        assert(bytes.subrange(pos, pos + ser.len())[2 + nb] == bytes[pos + 2 + nb]);
        assert(ser[2 + nb] == c.refs.len() as u8);
    }
}

/// The `i`-th child's serialization stands at its own place inside the
/// parent's.
proof fn lemma_ser_at_child(bytes: Seq<u8>, pos: int, c: CellV, i: int)
    requires
        cell_wf(c),
        ser_at(bytes, pos, c),
        0 <= i < c.refs.len(),
    ensures
        cell_wf(c.refs[i]),
        ser_at(bytes, ser_child_base(pos, c) + ser_refs_take(c.refs, i).len(), c.refs[i]),
{
    lemma_ser_at_parts(bytes, pos, c);
    lemma_ser_refs_prefix(c.refs, i);
    let base = ser_child_base(pos, c);
    let start = base + ser_refs_take(c.refs, i).len();
    let child = c.refs[i];
    let cs = ser_cell(child);
    assert(ser_refs(c.refs.skip(i)) == cs + ser_refs(c.refs.skip(i + 1))) by {
        assert(c.refs.skip(i)[0] == child);
        assert(c.refs.skip(i).drop_first() =~= c.refs.skip(i + 1));
    }
    let ser = ser_cell(c);
    assert(start + cs.len() <= pos + ser.len());
    assert(bytes.subrange(start, start + cs.len() as int) =~= cs) by {
        assert forall|j: int| 0 <= j < cs.len() implies bytes[start + j] == cs[j] by {
            assert(bytes.subrange(pos, pos + ser.len())[start - pos + j] == bytes[start + j]);
            assert(ser[start - pos + j] == ser_refs(c.refs)[start - base + j]);
            assert(ser_refs(c.refs)[start - base + j]
                == ser_refs_take(c.refs, i)[start - base + j]
                    || ser_refs(c.refs)[start - base + j] == (ser_refs_take(c.refs, i)
                    + ser_refs(c.refs.skip(i)))[start - base + j]);
            assert(ser_refs(c.refs)[start - base + j] == cs[j]);
        }
    }
}

/// Bits extracted byte by byte from the packed region are the packed
/// bits themselves.
proof fn lemma_extracted_data(bytes: Seq<u8>, pos: int, c: CellV, data: Seq<bool>)
    requires
        cell_wf(c),
        ser_at(bytes, pos, c),
        data.len() == c.data.len(),
        forall|j: int|
            0 <= j < data.len() ==> #[trigger] data[j] == byte_bits(
                bytes[pos + 2 + j / 8],
            )[j % 8],
    ensures
        data == c.data,
{
    lemma_ser_at_parts(bytes, pos, c);
    lemma_pack_len(c.data);
    let nb = (c.data.len() + 7) as int / 8;
    assert forall|j: int| 0 <= j < data.len() implies data[j] == c.data[j] by {
        vstd::arithmetic::div_mod::lemma_fundamental_div_mod(j, 8);
        assert(0 <= j / 8 && 8 * (j / 8) <= j && j % 8 < 8);
        assert(j / 8 < nb);
        assert(bytes[pos + 2 + j / 8] == pack_bits(c.data)[j / 8]) by {
            assert(bytes.subrange(pos + 2, ser_child_base(pos, c) - 1)[j / 8]
                == bytes[pos + 2 + j / 8]);
        }
        lemma_pack_index(c.data, j / 8, j % 8);
        assert(8 * (j / 8) + j % 8 == j);
    }
    assert(data =~= c.data);
}

/// The bit at MSB-first position `k` of a byte.
fn unpack_bit(b: u8, k: usize) -> (r: bool)
    requires
        k < 8,
    ensures
        r == byte_bits(b)[k as int],
{
    proof {
        lemma_u_bits_index(b as nat, 8, k as int);
        lemma_u_bits_len(b as nat, 8);
        vstd::arithmetic::power2::lemma2_to64();
    }
    let d: u8 = if k == 0 {
        128
    } else if k == 1 {
        64
    } else if k == 2 {
        32
    } else if k == 3 {
        16
    } else if k == 4 {
        8
    } else if k == 5 {
        4
    } else if k == 6 {
        2
    } else {
        1
    };
    (b / d) % 2 == 1
}

/// Compares two byte ranges.
fn bytes_match(a: &Vec<u8>, start: usize, end: usize, b: &Vec<u8>) -> (r: bool)
    requires
        start <= end <= a@.len(),
    ensures
        r == (a@.subrange(start as int, end as int) == b@),
{
    if end - start != b.len() {
        proof {
            assert(a@.subrange(start as int, end as int).len() != b@.len());
        }
        return false;
    }
    let mut i: usize = 0;
    while i < end - start
        invariant
            start <= end <= a@.len(),
            end - start == b@.len(),
            i <= end - start,
            forall|j: int| 0 <= j < i ==> a@[start + j] == b@[j],
        decreases end - start - i,
    {
        if a[start + i] != b[i] {
            proof {
                assert(a@.subrange(start as int, end as int)[i as int] != b@[i as int]);
            }
            return false;
        }
        i = i + 1;
    }
    proof {
        assert(a@.subrange(start as int, end as int) =~= b@);
    }
    true
}

/// Parses one cell starting at `pos`.  On success the returned cell is
/// well formed, re-serializes to exactly the bytes consumed, and is the
/// one tree whose serialization stands there; on failure no well-formed
/// tree's serialization stands at `pos`.
fn parse_at(bytes: &Vec<u8>, pos: usize) -> (r: Result<(Cell, usize), AbiError>)
    requires
        pos <= bytes@.len(),
    ensures
        match r {
            Ok(p) => {
                &&& pos <= p.1 <= bytes@.len()
                &&& p.1 - pos >= 3
                &&& cell_wf(p.0@)
                &&& ser_cell(p.0@) == bytes@.subrange(pos as int, p.1 as int)
                &&& forall|c: CellV|
                    cell_wf(c) && #[trigger] ser_at(bytes@, pos as int, c) ==> p.0@ == c && p.1
                        == pos + ser_cell(c).len()
            },
            Err(e) => {
                &&& e == AbiError::InvalidData
                &&& forall|c: CellV| cell_wf(c) ==> !(#[trigger] ser_at(bytes@, pos as int, c))
            },
        },
    decreases bytes@.len() - pos,
{
    if bytes.len() - pos < 3 {
        proof {
            assert forall|c: CellV| cell_wf(c) implies !(#[trigger] ser_at(
                bytes@,
                pos as int,
                c,
            )) by {
                if ser_at(bytes@, pos as int, c) {
                    lemma_ser_at_parts(bytes@, pos as int, c);
                }
            }
        }
        return Err(AbiError::InvalidData);
    }
    let dlen: usize = (bytes[pos] as usize) * 256 + (bytes[pos + 1] as usize);
    if dlen > 1023 {
        proof {
            assert forall|c: CellV| cell_wf(c) implies !(#[trigger] ser_at(
                bytes@,
                pos as int,
                c,
            )) by {
                if ser_at(bytes@, pos as int, c) {
                    lemma_ser_at_parts(bytes@, pos as int, c);
                }
            }
        }
        return Err(AbiError::InvalidData);
    }
    let nbytes: usize = (dlen + 7) / 8;
    if bytes.len() - pos - 2 < nbytes + 1 {
        proof {
            assert forall|c: CellV| cell_wf(c) implies !(#[trigger] ser_at(
                bytes@,
                pos as int,
                c,
            )) by {
                if ser_at(bytes@, pos as int, c) {
                    lemma_ser_at_parts(bytes@, pos as int, c);
                }
            }
        }
        return Err(AbiError::InvalidData);
    }
    // extract the data bits, then check them by packing them again
    let mut data = Bitstring::new();
    let mut j: usize = 0;
    let mut bi: usize = 0;
    let mut kk: usize = 0;
    proof {
        vstd::arithmetic::div_mod::lemma_fundamental_div_mod(dlen as int + 7, 8);
        assert(dlen <= 8 * nbytes);
    }
    while j < dlen
        invariant
            dlen <= 1023,
            dlen <= 8 * nbytes,
            pos + 2 + nbytes <= bytes@.len(),
            bytes@.len() <= usize::MAX,
            j <= dlen,
            j == 8 * bi + kk,
            kk < 8,
            data@.len() == j,
            forall|j2: int|
                0 <= j2 < data@.len() ==> #[trigger] data@[j2] == byte_bits(
                    bytes@[pos + 2 + j2 / 8],
                )[j2 % 8],
        decreases dlen - j,
    {
        let b = unpack_bit(bytes[pos + 2 + bi], kk);
        data.append_bit(b);
        proof {
            vstd::arithmetic::div_mod::lemma_fundamental_div_mod_converse(
                j as int,
                8,
                bi as int,
                kk as int,
            );
            assert(j as int / 8 == bi && j as int % 8 == kk);
        }
        j = j + 1;
        if kk == 7 {
            kk = 0;
            bi = bi + 1;
        } else {
            kk = kk + 1;
        }
    }
    let packed = pack_bits_vec(&data);
    proof {
        lemma_pack_len(data@);
        assert(packed@.len() == nbytes);
    }
    if !bytes_match(bytes, pos + 2, pos + 2 + nbytes, &packed) {
        proof {
            assert forall|c: CellV| cell_wf(c) implies !(#[trigger] ser_at(
                bytes@,
                pos as int,
                c,
            )) by {
                if ser_at(bytes@, pos as int, c) {
                    lemma_ser_at_parts(bytes@, pos as int, c);
                    lemma_extracted_data(bytes@, pos as int, c, data@);
                }
            }
        }
        return Err(AbiError::InvalidData);
    }
    let k = bytes[pos + 2 + nbytes];
    if k > 4 {
        proof {
            assert forall|c: CellV| cell_wf(c) implies !(#[trigger] ser_at(
                bytes@,
                pos as int,
                c,
            )) by {
                if ser_at(bytes@, pos as int, c) {
                    lemma_ser_at_parts(bytes@, pos as int, c);
                }
            }
        }
        return Err(AbiError::InvalidData);
    }
    let mut builder = CellBuilder::new();
    let res = builder.append_data(&data);
    proof {
        assert(res is Ok);
        assert forall|c: CellV| cell_wf(c) && #[trigger] ser_at(bytes@, pos as int, c) implies {
            &&& c.data == data@
            &&& c.refs.len() == k as nat
            &&& ser_child_base(pos as int, c) == pos + 2 + nbytes + 1
        } by {
            lemma_ser_at_parts(bytes@, pos as int, c);
            lemma_extracted_data(bytes@, pos as int, c, data@);
        }
    }
    let mut cur: usize = pos + 2 + nbytes + 1;
    let ghost base = cur as int;
    let mut i: u8 = 0;
    while i < k
        invariant
            i <= k <= 4,
            pos + 2 + nbytes + 1 <= cur <= bytes@.len(),
            base == pos + 2 + nbytes + 1,
            cur as int >= base,
            builder@.data == data@,
            builder@.refs.len() == i as nat,
            forall|j2: int| 0 <= j2 < i ==> cell_wf(#[trigger] builder@.refs[j2]),
            ser_refs_take(builder@.refs, i as int) == bytes@.subrange(base, cur as int),
            ser_refs_take(builder@.refs, i as int).len() == cur - base,
            forall|c: CellV|
                cell_wf(c) && #[trigger] ser_at(bytes@, pos as int, c) ==> {
                    &&& c.data == data@
                    &&& c.refs.len() == k as nat
                    &&& ser_child_base(pos as int, c) == base
                    &&& (forall|j2: int| 0 <= j2 < i ==> builder@.refs[j2] == c.refs[j2])
                    &&& cur as int == base + ser_refs_take(c.refs, i as int).len()
                },
        decreases k - i,
    {
        let ghost prev_refs = builder@.refs;
        let ghost cur0 = cur as int;
        let parsed = parse_at(bytes, cur);
        proof {
            if parsed is Err {
                assert forall|c: CellV| cell_wf(c) implies !(#[trigger] ser_at(
                    bytes@,
                    pos as int,
                    c,
                )) by {
                    if ser_at(bytes@, pos as int, c) {
                        lemma_ser_at_child(bytes@, pos as int, c, i as int);
                    }
                }
            }
        }
        let (child, end) = match parsed {
            Ok(p) => p,
            Err(e) => {
                return Err(e);
            },
        };
        let res2 = builder.append_reference(child);
        proof {
            assert(res2 is Ok);
            assert(ser_refs_take(builder@.refs, i + 1 as int)
                == ser_refs_take(builder@.refs, i as int) + ser_cell(builder@.refs[i as int]));
            assert(forall|j2: int| 0 <= j2 < i ==> builder@.refs[j2] == prev_refs[j2]);
            assert(ser_refs_take(builder@.refs, i as int) == ser_refs_take(prev_refs, i as int))
            by {
                lemma_ser_refs_take_frame(prev_refs, builder@.refs, i as int);
            }
            assert(0 <= base <= cur0 <= end as int <= bytes@.len());
            assert(bytes@.subrange(base, cur0) + bytes@.subrange(cur0, end as int)
                =~= bytes@.subrange(base, end as int));
            assert forall|c: CellV| cell_wf(c) && #[trigger] ser_at(bytes@, pos as int, c)
                implies {
                &&& (forall|j2: int| 0 <= j2 < i + 1 ==> builder@.refs[j2] == c.refs[j2])
                &&& end as int == base + ser_refs_take(c.refs, i + 1 as int).len()
            } by {
                lemma_ser_at_child(bytes@, pos as int, c, i as int);
                assert(child@ == c.refs[i as int]);
                assert(end == cur0 + ser_cell(c.refs[i as int]).len());
                assert(ser_refs_take(c.refs, i + 1 as int) == ser_refs_take(c.refs, i as int)
                    + ser_cell(c.refs[i as int]));
                assert(builder@.refs[i as int] == child@);
            }
        }
        cur = end;
        i = i + 1;
    }
    let ghost frefs = builder@.refs;
    let cell = builder.into_cell();
    proof {
        lemma_ser_refs_take_all(cell@.refs);
        assert(cell@.data == data@);
        assert(cell@.refs == frefs);
        assert(cell@.refs.len() == k as nat);
        assert(cell_wf(cell@));
        assert((bytes[pos as int] as int) == dlen as int / 256 && (bytes[pos + 1] as int)
            == dlen as int % 256) by {
            vstd::arithmetic::div_mod::lemma_fundamental_div_mod_converse(
                dlen as int, 256, bytes[pos as int] as int, bytes[pos + 1] as int);
        }
        assert(ser_cell(cell@) =~= bytes@.subrange(pos as int, cur as int));
        assert forall|c: CellV| cell_wf(c) && #[trigger] ser_at(bytes@, pos as int, c)
            implies cell@ == c && cur as int == pos + ser_cell(c).len() by {
            lemma_ser_at_parts(bytes@, pos as int, c);
            assert(cell@.refs =~= c.refs);
            assert(cell@ =~= c);
            lemma_ser_refs_take_all(c.refs);
            assert(cur as int == base + ser_refs(c.refs).len());
        }
    }
    Ok((cell, cur))
}

/// The serialized prefix of a reference list depends only on the
/// references it covers.
proof fn lemma_ser_refs_take_frame(a: Seq<CellV>, b: Seq<CellV>, i: int)
    requires
        0 <= i <= a.len(),
        i <= b.len(),
        forall|j: int| 0 <= j < i ==> a[j] == b[j],
    ensures
        ser_refs_take(a, i) == ser_refs_take(b, i),
    decreases i,
{
    if i > 0 {
        lemma_ser_refs_take_frame(a, b, i - 1);
    }
}

/// Deserializes a byte string into the cell tree it canonically
/// serializes.  Sound and complete: an accepted tree is well formed and
/// re-serializes to the input, every well-formed tree's serialization
/// is accepted and yields that tree, and anything else is rejected.
pub fn deserialize_cells(bytes: &Vec<u8>) -> (r: Result<Cell, AbiError>)
    ensures
        match r {
            Ok(c) => {
                &&& cell_wf(c@)
                &&& ser_cell(c@) == bytes@
                &&& forall|c2: CellV|
                    cell_wf(c2) && #[trigger] ser_cell(c2) == bytes@ ==> c@ == c2
            },
            Err(e) => {
                &&& e == AbiError::InvalidData
                &&& forall|c2: CellV| cell_wf(c2) ==> #[trigger] ser_cell(c2) != bytes@
            },
        },
{
    let parsed = parse_at(bytes, 0);
    proof {
        if parsed is Err {
            assert forall|c2: CellV| cell_wf(c2) implies #[trigger] ser_cell(c2) != bytes@ by {
                if ser_cell(c2) == bytes@ {
                    assert(bytes@.subrange(0, ser_cell(c2).len() as int) =~= ser_cell(c2));
                    assert(ser_at(bytes@, 0, c2));
                }
            }
        }
    }
    let (cell, end) = match parsed {
        Ok(p) => p,
        Err(e) => {
            return Err(e);
        },
    };
    if end != bytes.len() {
        proof {
            assert forall|c2: CellV| cell_wf(c2) implies #[trigger] ser_cell(c2) != bytes@ by {
                if ser_cell(c2) == bytes@ {
                    assert(bytes@.subrange(0, ser_cell(c2).len() as int) =~= ser_cell(c2));
                    assert(ser_at(bytes@, 0, c2));
                }
            }
        }
        return Err(AbiError::InvalidData);
    }
    proof {
        assert(bytes@.subrange(0, bytes@.len() as int) =~= bytes@);
        assert forall|c2: CellV| cell_wf(c2) && #[trigger] ser_cell(c2) == bytes@
            implies cell@ == c2 by {
            assert(bytes@.subrange(0, ser_cell(c2).len() as int) =~= ser_cell(c2));
            assert(ser_at(bytes@, 0, c2));
        }
    }
    Ok(cell)
}

} // verus!
