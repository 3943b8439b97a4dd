//! A positional reader over a cell tree.
//!
//! The reader holds a current cell, a data offset and a reference offset.
//! When the current cell's data is exhausted and more bits are demanded,
//! the reader descends into the next unconsumed child reference and goes
//! on there; asking for more than the tree holds is an error.

use vstd::prelude::*;
use crate::AbiError;
use crate::bits::bits_val;
use crate::bitstring::Bitstring;
use crate::cell::{Cell, CellV};

verus! {

broadcast use {vstd::std_specs::vec::group_vec_axioms, vstd::seq::group_seq_axioms};

/// The mathematical state of a reader.
#[verifier::ext_equal]
pub struct SliceV {
    pub cell: CellV,
    pub dpos: nat,
    pub rpos: nat,
}

/// A read cursor over a cell tree.
pub struct SliceData {
    cell: Cell,
    dpos: usize,
    rpos: usize,
}

impl View for SliceData {
    type V = SliceV;

    closed spec fn view(&self) -> SliceV {
        SliceV { cell: self.cell@, dpos: self.dpos as nat, rpos: self.rpos as nat }
    }
}

/// Reading one bit: take the next data bit of the current cell, or
/// descend into the next unconsumed reference when the data is spent.
pub open spec fn s_read_bit(s: SliceV) -> Option<(bool, SliceV)>
    decreases s.cell,
{
    if s.dpos < s.cell.data.len() {
        Some((s.cell.data[s.dpos as int], SliceV { cell: s.cell, dpos: s.dpos + 1, rpos: s.rpos }))
    } else if s.rpos < s.cell.refs.len() {
        s_read_bit(SliceV { cell: s.cell.refs[s.rpos as int], dpos: 0, rpos: 0 })
    } else {
        None
    }
}

/// Reading `n` bits in order.
pub open spec fn s_read_bits(s: SliceV, n: nat) -> Option<(Seq<bool>, SliceV)>
    decreases n,
{
    if n == 0 {
        Some((Seq::empty(), s))
    } else {
        match s_read_bit(s) {
            Option::None => None,
            Option::Some((b, s1)) => match s_read_bits(s1, (n - 1) as nat) {
                Option::None => None,
                Option::Some((bs, s2)) => Some((seq![b] + bs, s2)),
            },
        }
    }
}

/// Taking the next unconsumed reference of the current cell.
pub open spec fn s_take_ref(s: SliceV) -> Option<(CellV, SliceV)> {
    if s.rpos < s.cell.refs.len() {
        Some((s.cell.refs[s.rpos as int], SliceV { cell: s.cell, dpos: s.dpos, rpos: s.rpos + 1 }))
    } else {
        None
    }
}

/// All data bits held by a cell tree.
pub open spec fn total_bits(c: CellV) -> nat
    decreases c,
{
    c.data.len() + refs_total(c.refs)
}

/// All data bits held by a sequence of cell trees.
pub open spec fn refs_total(rs: Seq<CellV>) -> nat
    decreases rs,
{
    if rs.len() == 0 {
        0
    } else {
        total_bits(rs[0]) + refs_total(rs.drop_first())
    }
}

/// The bits a reader can still deliver, counting every cell it may still
/// reach.
pub open spec fn s_size(s: SliceV) -> nat {
    ((if s.dpos <= s.cell.data.len() {
        s.cell.data.len() - s.dpos
    } else {
        0
    }) + refs_total(s.cell.refs.skip(s.rpos as int))) as nat
}

proof fn lemma_refs_total_skip(rs: Seq<CellV>, k: int)
    requires
        0 <= k < rs.len(),
    ensures
        refs_total(rs.skip(k)) == total_bits(rs[k]) + refs_total(rs.skip(k + 1)),
{
    let t = rs.skip(k);
    assert(t.len() > 0);
    assert(t[0] == rs[k]);
    assert(t.drop_first() =~= rs.skip(k + 1));
}

/// A successful bit read strictly shrinks the measure of what remains.
pub proof fn lemma_read_bit_size(s: SliceV)
    requires
        s_read_bit(s) is Some,
        s.rpos <= s.cell.refs.len(),
    ensures
        s_size(s_read_bit(s)->Some_0.1) < s_size(s),
    decreases s.cell,
{
    if s.dpos < s.cell.data.len() {
    } else if s.rpos < s.cell.refs.len() {
        let child = s.cell.refs[s.rpos as int];
        let s1 = SliceV { cell: child, dpos: 0, rpos: 0 };
        lemma_refs_total_skip(s.cell.refs, s.rpos as int);
        assert(child.refs.skip(0) =~= child.refs);
        assert(s_size(s1) == total_bits(child));
        lemma_read_bit_size(s1);
    }
}

/// A successful `n`-bit read never grows the measure, and shrinks it for
/// `n > 0` when the reference cursor is in range.
pub proof fn lemma_read_bits_size(s: SliceV, n: nat)
    requires
        s_read_bits(s, n) is Some,
    ensures
        s_size(s_read_bits(s, n)->Some_0.1) <= s_size(s),
        n > 0 && s.rpos <= s.cell.refs.len() ==> s_size(s_read_bits(s, n)->Some_0.1) < s_size(s),
    decreases n,
{
    if n > 0 {
        let (b, s1) = s_read_bit(s)->Some_0;
        lemma_read_bits_size(s1, (n - 1) as nat);
        lemma_read_bit_size_loose(s);
        if s.rpos <= s.cell.refs.len() {
            lemma_read_bit_size(s);
        }
    }
}

/// Reading one more bit after `m` bits extends the result by one bit.
pub proof fn lemma_read_bits_snoc(s: SliceV, m: nat)
    requires
        s_read_bits(s, m) is Some,
        s_read_bit(s_read_bits(s, m)->Some_0.1) is Some,
    ensures
        s_read_bits(s, m + 1) == Some((
            s_read_bits(s, m)->Some_0.0.push(s_read_bit(s_read_bits(s, m)->Some_0.1)->Some_0.0),
            s_read_bit(s_read_bits(s, m)->Some_0.1)->Some_0.1,
        )),
    decreases m,
{
    let (bs, s1) = s_read_bits(s, m)->Some_0;
    let (b2, s2) = s_read_bit(s1)->Some_0;
    if m == 0 {
        assert(bs =~= Seq::<bool>::empty());
        assert(s_read_bits(s2, 0) == Some((Seq::<bool>::empty(), s2)));
        assert(seq![b2] + Seq::<bool>::empty() =~= bs.push(b2));
    } else {
        let (b0, t1) = s_read_bit(s)->Some_0;
        let (bs0, _t2) = s_read_bits(t1, (m - 1) as nat)->Some_0;
        lemma_read_bits_snoc(t1, (m - 1) as nat);
        assert(seq![b0] + bs0.push(b2) =~= (seq![b0] + bs0).push(b2));
    }
}

/// A read that fails after `m` successful bits fails for every longer
/// request.
pub proof fn lemma_read_bits_none_extend(s: SliceV, m: nat, n: nat)
    requires
        s_read_bits(s, m) is Some,
        s_read_bit(s_read_bits(s, m)->Some_0.1) is None,
        m < n,
    ensures
        s_read_bits(s, n) is None,
    decreases m,
{
    if m == 0 {
    } else {
        let (b0, t1) = s_read_bit(s)->Some_0;
        lemma_read_bits_none_extend(t1, (m - 1) as nat, (n - 1) as nat);
    }
}

/// Without the cursor bound, a bit read still never grows the measure.
proof fn lemma_read_bit_size_loose(s: SliceV)
    requires
        s_read_bit(s) is Some,
    ensures
        s_size(s_read_bit(s)->Some_0.1) <= s_size(s),
    decreases s.cell,
{
    if s.dpos < s.cell.data.len() {
    } else if s.rpos < s.cell.refs.len() {
        lemma_read_bit_size(s);
    }
}

/// A reader state the methods can actually produce: both cursors stay
/// within the current cell.
pub open spec fn s_inv(s: SliceV) -> bool {
    s.rpos <= s.cell.refs.len() && s.dpos <= s.cell.data.len()
}

/// Reading bits preserves the cursor bounds.
pub proof fn lemma_read_bits_fields(s: SliceV, n: nat)
    requires
        s_read_bits(s, n) is Some,
        s_inv(s),
    ensures
        s_inv(s_read_bits(s, n)->Some_0.1),
    decreases n,
{
    if n > 0 {
        lemma_read_bit_fields(s);
        lemma_read_bits_fields(s_read_bit(s)->Some_0.1, (n - 1) as nat);
    }
}

/// After a successful bit read the cursor stays within bounds.
pub proof fn lemma_read_bit_fields(s: SliceV)
    requires
        s_read_bit(s) is Some,
        s.rpos <= s.cell.refs.len(),
    ensures
        s_read_bit(s)->Some_0.1.rpos <= s_read_bit(s)->Some_0.1.cell.refs.len(),
        s_read_bit(s)->Some_0.1.dpos <= s_read_bit(s)->Some_0.1.cell.data.len(),
    decreases s.cell,
{
    if s.dpos < s.cell.data.len() {
    } else if s.rpos < s.cell.refs.len() {
        lemma_read_bit_fields(SliceV { cell: s.cell.refs[s.rpos as int], dpos: 0, rpos: 0 });
    }
}

impl SliceData {
    /// A reader positioned at the start of `cell`.
    pub fn from_cell(cell: Cell) -> (r: SliceData)
        ensures
            r@ == (SliceV { cell: cell@, dpos: 0, rpos: 0 }),
    {
        SliceData { cell, dpos: 0, rpos: 0 }
    }

    /// Whether another bit can be read.
    pub fn has_more(&self) -> (r: bool)
        ensures
            r == (s_read_bit(self@) is Some),
    {
        Self::cell_has_more(&self.cell, self.dpos, self.rpos)
    }

    fn cell_has_more(cell: &Cell, dpos: usize, rpos: usize) -> (r: bool)
        ensures
            r == (s_read_bit(SliceV { cell: cell@, dpos: dpos as nat, rpos: rpos as nat }) is Some),
        decreases cell@,
    {
        if dpos < cell.data_bits().length_in_bits() {
            true
        } else if rpos < cell.ref_count() {
            Self::cell_has_more(cell.reference(rpos), 0, 0)
        } else {
            false
        }
    }

    /// Reads the next bit, descending into the next reference when the
    /// current cell's data is exhausted.
    pub fn get_next_bit(&mut self) -> (r: Result<bool, AbiError>)
        ensures
            match s_read_bit(old(self)@) {
                Option::Some((b, s2)) => r == Result::<bool, AbiError>::Ok(b) && final(self)@ == s2,
                Option::None => r == Result::<bool, AbiError>::Err(AbiError::DataExhausted),
            },
    {
        loop
            invariant
                s_read_bit(self@) == s_read_bit(old(self)@),
            decreases self@.cell,
        {
            if self.dpos < self.cell.data_bits().length_in_bits() {
                let b = self.cell.data_bits().get(self.dpos);
                self.dpos = self.dpos + 1;
                proof {
                    assert(self@ =~= s_read_bit(old(self)@)->Some_0.1);
                }
                return Ok(b);
            } else if self.rpos < self.cell.ref_count() {
                let child = self.cell.reference(self.rpos).deep_copy();
                self.cell = child;
                self.dpos = 0;
                self.rpos = 0;
                proof {
                    assert(self@ =~= (SliceV { cell: self@.cell, dpos: 0, rpos: 0 }));
                }
            } else {
                return Err(AbiError::DataExhausted);
            }
        }
    }

    /// Reads the next `n` bits in order.
    pub fn get_next_bits(&mut self, n: usize) -> (r: Result<Bitstring, AbiError>)
        ensures
            match s_read_bits(old(self)@, n as nat) {
                Option::Some((bs, s2)) => {
                    &&& r is Ok
                    &&& r->Ok_0@ == bs
                    &&& final(self)@ == s2
                },
                Option::None => r == Result::<Bitstring, AbiError>::Err(AbiError::DataExhausted),
            },
    {
        let mut out = Bitstring::new();
        let mut i: usize = 0;
        while i < n
            invariant
                i <= n,
                out@.len() == i,
                s_read_bits(old(self)@, i as nat) == Some((out@, self@)),
            decreases n - i,
        {
            let ghost pre = self@;
            let ghost sofar = out@;
            let b = match self.get_next_bit() {
                Ok(b) => b,
                Err(e) => {
                    proof {
                        lemma_read_bits_none_extend(old(self)@, i as nat, n as nat);
                    }
                    return Err(e);
                },
            };
            proof {
                lemma_read_bits_snoc(old(self)@, i as nat);
            }
            out.append_bit(b);
            i = i + 1;
        }
        Ok(out)
    }

    /// Takes the next unconsumed reference of the current cell as a new
    /// reader over that child.
    pub fn checked_drain_reference(&mut self) -> (r: Result<SliceData, AbiError>)
        ensures
            match s_take_ref(old(self)@) {
                Option::Some((c, s2)) => {
                    &&& r is Ok
                    &&& r->Ok_0@ == (SliceV { cell: c, dpos: 0, rpos: 0 })
                    &&& final(self)@ == s2
                },
                Option::None => r == Result::<SliceData, AbiError>::Err(AbiError::DataExhausted)
                    && *final(self) == *old(self),
            },
    {
        if self.rpos < self.cell.ref_count() {
            let child = self.cell.reference(self.rpos).deep_copy();
            self.rpos = self.rpos + 1;
            proof {
                assert(self@ =~= s_take_ref(old(self)@)->Some_0.1);
            }
            Ok(SliceData::from_cell(child))
        } else {
            Err(AbiError::DataExhausted)
        }
    }

    /// Reads the next `w` bits as a big-endian unsigned value, `w` at
    /// most 128.
    pub fn get_next_uint(&mut self, w: usize) -> (r: Result<u128, AbiError>)
        requires
            w <= 128,
        ensures
            match s_read_bits(old(self)@, w as nat) {
                Option::Some((bs, s2)) => {
                    &&& r is Ok
                    &&& r->Ok_0 as nat == bits_val(bs)
                    &&& final(self)@ == s2
                },
                Option::None => r == Result::<u128, AbiError>::Err(AbiError::DataExhausted),
            },
    {
        let bs = match self.get_next_bits(w) {
            Ok(bs) => bs,
            Err(e) => {
                return Err(e);
            },
        };
        proof {
            lemma_read_bits_len(old(self)@, w as nat);
        }
        let mut v: u128 = 0;
        let mut i: usize = 0;
        proof {
            vstd::arithmetic::power2::lemma2_to64();
            assert(bs@.take(0) =~= Seq::<bool>::empty());
        }
        while i < w
            invariant
                i <= w <= 128,
                bs@.len() == w,
                v as nat == bits_val(bs@.take(i as int)),
                v < pow2_spec(i as nat),
            decreases w - i,
        {
            proof {
                crate::bits::lemma_pow2_widths();
                vstd::arithmetic::power2::lemma_pow2_unfold((i + 1) as nat);
                if (i + 1) < 128 {
                    vstd::arithmetic::power2::lemma_pow2_strictly_increases((i + 1) as nat, 128);
                }
                assert(bs@.take(i + 1).drop_last() =~= bs@.take(i as int));
            }
            let b = bs.get(i);
            v = 2 * v + (if b { 1 } else { 0 });
            i = i + 1;
        }
        proof {
            assert(bs@.take(w as int) =~= bs@);
        }
        Ok(v)
    }

    /// Reads the next byte.
    pub fn get_next_byte(&mut self) -> (r: Result<u8, AbiError>)
        ensures
            match s_read_bits(old(self)@, 8) {
                Option::Some((bs, s2)) => {
                    &&& r is Ok
                    &&& r->Ok_0 as nat == bits_val(bs)
                    &&& final(self)@ == s2
                },
                Option::None => r == Result::<u8, AbiError>::Err(AbiError::DataExhausted),
            },
    {
        let v = match self.get_next_uint(8) {
            Ok(v) => v,
            Err(e) => {
                return Err(e);
            },
        };
        proof {
            lemma_read_bits_len(old(self)@, 8);
            lemma_bits_val_bound(s_read_bits(old(self)@, 8)->Some_0.0);
            crate::bits::lemma_pow2_widths();
        }
        Ok(v as u8)
    }

    /// Reads the next 32 bits as a big-endian unsigned value.
    pub fn get_next_u32(&mut self) -> (r: Result<u32, AbiError>)
        ensures
            match s_read_bits(old(self)@, 32) {
                Option::Some((bs, s2)) => {
                    &&& r is Ok
                    &&& r->Ok_0 as nat == bits_val(bs)
                    &&& final(self)@ == s2
                },
                Option::None => r == Result::<u32, AbiError>::Err(AbiError::DataExhausted),
            },
    {
        let v = match self.get_next_uint(32) {
            Ok(v) => v,
            Err(e) => {
                return Err(e);
            },
        };
        proof {
            lemma_read_bits_len(old(self)@, 32);
            lemma_bits_val_bound(s_read_bits(old(self)@, 32)->Some_0.0);
            crate::bits::lemma_pow2_widths();
        }
        Ok(v as u32)
    }
}

/// `pow2` under a local name usable in loop invariants.
pub open spec fn pow2_spec(e: nat) -> nat {
    vstd::arithmetic::power2::pow2(e)
}

/// The value of a bit pattern is bounded by `pow2` of its length.
pub proof fn lemma_bits_val_bound(s: Seq<bool>)
    ensures
        bits_val(s) < pow2_spec(s.len()),
    decreases s.len(),
{
    if s.len() == 0 {
        vstd::arithmetic::power2::lemma2_to64();
    } else {
        vstd::arithmetic::power2::lemma_pow2_unfold(s.len());
        lemma_bits_val_bound(s.drop_last());
    }
}

/// Reading within one cell's data: `n` bits from position `d` are the
/// corresponding slice of the data, and only the position moves.
pub proof fn lemma_read_bits_flat(c: CellV, d: nat, rp: nat, n: nat)
    requires
        d + n <= c.data.len(),
    ensures
        s_read_bits(SliceV { cell: c, dpos: d, rpos: rp }, n) == Some((
            c.data.subrange(d as int, (d + n) as int),
            SliceV { cell: c, dpos: d + n, rpos: rp },
        )),
    decreases n,
{
    let s = SliceV { cell: c, dpos: d, rpos: rp };
    if n == 0 {
        assert(c.data.subrange(d as int, d as int) =~= Seq::<bool>::empty());
    } else {
        let s1 = SliceV { cell: c, dpos: d + 1, rpos: rp };
        assert(s_read_bit(s) == Some((c.data[d as int], s1)));
        lemma_read_bits_flat(c, d + 1, rp, (n - 1) as nat);
        assert(seq![c.data[d as int]] + c.data.subrange((d + 1) as int, (d + n) as int)
            =~= c.data.subrange(d as int, (d + n) as int));
    }
}

/// The bits a reader meets in order from the start of a cell: the
/// cell's data, then, through the first reference, the data of the
/// chain below it.
pub open spec fn rstream(c: CellV) -> Seq<bool>
    decreases c,
{
    c.data + (if c.refs.len() >= 1 {
        rstream(c.refs[0])
    } else {
        Seq::empty()
    })
}

/// Reading `m + n` bits is reading `m` bits, then `n` more.
pub proof fn lemma_read_bits_split(s: SliceV, m: nat, n: nat)
    ensures
        s_read_bits(s, m + n) is Some <==> (s_read_bits(s, m) is Some && s_read_bits(
            s_read_bits(s, m)->Some_0.1,
            n,
        ) is Some),
        s_read_bits(s, m + n) is Some ==> {
            let whole = s_read_bits(s, m + n)->Some_0.0;
            let first = s_read_bits(s, m)->Some_0.0;
            let rest = s_read_bits(s_read_bits(s, m)->Some_0.1, n)->Some_0.0;
            whole.take(m as int) == first && whole.skip(m as int) == rest && s_read_bits(
                s,
                m + n,
            )->Some_0.1 == s_read_bits(s_read_bits(s, m)->Some_0.1, n)->Some_0.1
        },
    decreases m,
{
    if m == 0 {
        if s_read_bits(s, n) is Some {
            let (bs, s2) = s_read_bits(s, n)->Some_0;
            lemma_read_bits_len(s, n);
            assert(bs.take(0) =~= Seq::<bool>::empty());
            assert(bs.skip(0) =~= bs);
        }
    } else {
        match s_read_bit(s) {
            Option::None => {},
            Option::Some((b, s1)) => {
                lemma_read_bits_split(s1, (m - 1) as nat, n);
                if s_read_bits(s1, ((m - 1) + n) as nat) is Some {
                    let (tail, _sf) = s_read_bits(s1, ((m - 1) + n) as nat)->Some_0;
                    let whole = seq![b] + tail;
                    lemma_read_bits_len(s1, ((m - 1) + n) as nat);
                    lemma_read_bits_len(s1, (m - 1) as nat);
                    if s_read_bits(s1, (m - 1) as nat) is Some {
                        assert(whole.take(m as int) =~= seq![b] + tail.take(m - 1));
                        assert(whole.skip(m as int) =~= tail.skip(m - 1));
                    }
                }
            },
        }
    }
}

/// A reader standing at the end of a cell's data with no reference
/// consumed reads on exactly as a reader over the first child.
proof fn lemma_read_descend(c: CellV, n: nat)
    requires
        n >= 1,
        c.refs.len() >= 1,
    ensures
        s_read_bits(SliceV { cell: c, dpos: c.data.len(), rpos: 0 }, n) == s_read_bits(
            SliceV { cell: c.refs[0], dpos: 0, rpos: 0 },
            n,
        ),
{
    let s = SliceV { cell: c, dpos: c.data.len(), rpos: 0 };
    let s2 = SliceV { cell: c.refs[0], dpos: 0, rpos: 0 };
    assert(s_read_bit(s) == s_read_bit(s2));
}

/// Reading from the start of a cell yields the prefix of its stream.
pub proof fn lemma_rstream_read(c: CellV, n: nat)
    requires
        n <= rstream(c).len(),
    ensures
        s_read_bits(SliceV { cell: c, dpos: 0, rpos: 0 }, n) is Some,
        s_read_bits(SliceV { cell: c, dpos: 0, rpos: 0 }, n)->Some_0.0 == rstream(c).take(
            n as int,
        ),
    decreases c,
{
    let k: nat = if n <= c.data.len() {
        n
    } else {
        c.data.len()
    };
    let m = (n - k) as nat;
    lemma_read_bits_flat(c, 0, 0, k);
    if m == 0 {
        assert(rstream(c).take(n as int) =~= c.data.subrange(0, k as int));
    } else {
        assert(c.refs.len() >= 1);
        let s1 = SliceV { cell: c, dpos: c.data.len(), rpos: 0 };
        lemma_read_descend(c, m);
        lemma_rstream_read(c.refs[0], m);
        lemma_read_bits_split(SliceV { cell: c, dpos: 0, rpos: 0 }, k, m);
        let whole = s_read_bits(SliceV { cell: c, dpos: 0, rpos: 0 }, n)->Some_0.0;
        lemma_read_bits_len(SliceV { cell: c, dpos: 0, rpos: 0 }, n);
        assert(whole.take(k as int) == c.data);
        assert(whole.skip(k as int) == rstream(c.refs[0]).take(m as int));
        assert(whole =~= rstream(c).take(n as int)) by {
            assert forall|i: int| 0 <= i < n implies whole[i] == rstream(c)[i] by {
                if i < k {
                    assert(whole[i] == whole.take(k as int)[i]);
                } else {
                    assert(whole[i] == whole.skip(k as int)[i - k]);
                    assert(rstream(c)[i] == rstream(c.refs[0])[i - k]);
                }
            }
        }
    }
}

/// One step of `s_read_bits`.
pub proof fn lemma_read_bits_unfold(s: SliceV, n: nat)
    requires
        n > 0,
    ensures
        s_read_bits(s, n) is Some <==> (s_read_bit(s) is Some
            && s_read_bits(s_read_bit(s)->Some_0.1, (n - 1) as nat) is Some),
{
}

/// A successful read delivers exactly `n` bits.
pub proof fn lemma_read_bits_len(s: SliceV, n: nat)
    requires
        s_read_bits(s, n) is Some,
    ensures
        s_read_bits(s, n)->Some_0.0.len() == n,
    decreases n,
{
    if n > 0 {
        lemma_read_bits_len(s_read_bit(s)->Some_0.1, (n - 1) as nat);
    }
}

} // verus!
