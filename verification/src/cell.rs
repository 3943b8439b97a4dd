//! Bounded cells and the builder that fills them.
//!
//! A cell holds at most 1023 data bits and at most 4 child references.
//! Payloads that do not fit are spilled into chained child cells: the
//! current cell is filled from the tail of the payload, then wrapped as
//! the single reference of a fresh cell that receives the earlier bits,
//! so that a reader starting at the head cell meets the bits in order.

use vstd::prelude::*;
use crate::bitstring::Bitstring;

verus! {

broadcast use {vstd::std_specs::vec::group_vec_axioms, vstd::seq::group_seq_axioms};

/// Data-bit capacity of one cell.
pub const CELL_DATA_BITS: usize = 1023;

/// Reference capacity of one cell.
pub const CELL_REFS: usize = 4;

/// The mathematical shape of a cell: its data bits and its children.
#[verifier::ext_equal]
pub struct CellV {
    pub data: Seq<bool>,
    pub refs: Seq<CellV>,
}

/// The mathematical shape of a builder.
#[verifier::ext_equal]
pub struct BuilderV {
    pub data: Seq<bool>,
    pub refs: Seq<CellV>,
}

/// An immutable cell of the serialization tree.
pub struct Cell {
    data: Bitstring,
    refs: Vec<Cell>,
}

impl View for Cell {
    type V = CellV;

    closed spec fn view(&self) -> CellV
        decreases self,
    {
        CellV { data: self.data@, refs: cell_views(self.refs@) }
    }
}

/// The views of a sequence of cells, in order.
pub closed spec fn cell_views(cs: Seq<Cell>) -> Seq<CellV>
    decreases cs,
{
    if cs.len() == 0 {
        Seq::empty()
    } else {
        cell_views(cs.drop_last()).push(cs.last()@)
    }
}

/// `cell_views` maps the view over the sequence, element by element.
pub proof fn lemma_cell_views(cs: Seq<Cell>)
    ensures
        cell_views(cs).len() == cs.len(),
        forall|i: int| 0 <= i < cs.len() ==> cell_views(cs)[i] == cs[i]@,
    decreases cs.len(),
{
    if cs.len() == 0 {
        assert(cell_views(cs) =~= Seq::<CellV>::empty());
    } else {
        lemma_cell_views(cs.drop_last());
        assert(cell_views(cs) == cell_views(cs.drop_last()).push(cs.last()@));
        assert(cell_views(cs).len() == cs.len());
        assert forall|i: int| 0 <= i < cs.len() implies cell_views(cs)[i] == cs[i]@ by {
            if i < cs.len() - 1 {
                assert(cs.drop_last()[i] == cs[i]);
                assert(cell_views(cs)[i] == cell_views(cs.drop_last())[i]);
            } else {
                assert(cs.last() == cs[i]);
            }
        }
    }
}

/// Every cell of the tree keeps within the data and reference bounds.
pub open spec fn cell_wf(c: CellV) -> bool
    decreases c,
{
    &&& c.data.len() <= 1023
    &&& c.refs.len() <= 4
    &&& forall|i: int| 0 <= i < c.refs.len() ==> cell_wf(#[trigger] c.refs[i])
}

/// The builder keeps within the bounds and all attached children are
/// well formed.
pub open spec fn builder_wf(b: BuilderV) -> bool {
    &&& b.data.len() <= 1023
    &&& b.refs.len() <= 4
    &&& forall|i: int| 0 <= i < b.refs.len() ==> cell_wf(#[trigger] b.refs[i])
}

/// The cell a builder finalizes into.
pub open spec fn builder_cell(b: BuilderV) -> CellV {
    CellV { data: b.data, refs: b.refs }
}

impl Cell {
    /// The data bits of this cell alone.
    pub fn data_bits(&self) -> (r: &Bitstring)
        ensures
            r@ == self@.data,
    {
        &self.data
    }

    /// The number of child references.
    pub fn ref_count(&self) -> (r: usize)
        ensures
            r == self@.refs.len(),
    {
        proof {
            lemma_cell_views(self.refs@);
        }
        self.refs.len()
    }

    /// The `i`-th child reference.
    pub fn reference(&self, i: usize) -> (r: &Cell)
        requires
            i < self@.refs.len(),
        ensures
            r@ == self@.refs[i as int],
    {
        proof {
            lemma_cell_views(self.refs@);
        }
        &self.refs[i]
    }

    /// A deep copy of the cell tree.
    pub fn deep_copy(&self) -> (r: Cell)
        ensures
            r@ == self@,
        decreases self,
    {
        let mut refs: Vec<Cell> = Vec::new();
        let n = self.refs.len();
        let mut i: usize = 0;
        proof {
            lemma_cell_views(self.refs@);
        }
        while i < n
            invariant
                n == self.refs@.len(),
                i <= n,
                refs@.len() == i,
                forall|j: int| 0 <= j < i ==> refs@[j]@ == self.refs@[j]@,
            decreases n - i,
        {
            proof {
                lemma_cell_views(self.refs@);
            }
            let c = self.refs[i].deep_copy();
            refs.push(c);
            i = i + 1;
            proof {
                assert(forall|j: int| 0 <= j < i ==> refs@[j]@ == self.refs@[j]@);
            }
        }
        let r = Cell { data: self.data.bits(0, self.data.length_in_bits()), refs };
        proof {
            lemma_cell_views(self.refs@);
            lemma_cell_views(r.refs@);
            assert(self@.data.subrange(0, self@.data.len() as int) =~= self@.data);
            assert(r@.refs =~= self@.refs);
            assert(r@ =~= self@);
            assert(r@ == self@);
        }
        r
    }

    /// Structural equality of two cell trees.
    pub fn equals(&self, other: &Cell) -> (r: bool)
        ensures
            r == (self@ == other@),
        decreases self,
    {
        let n = self.data.length_in_bits();
        if n != other.data.length_in_bits() {
            proof {
                assert(self@ != other@);
            }
            return false;
        }
        let mut i: usize = 0;
        while i < n
            invariant
                n == self@.data.len() == other@.data.len(),
                i <= n,
                forall|j: int| 0 <= j < i ==> self@.data[j] == other@.data[j],
            decreases n - i,
        {
            if self.data.get(i) != other.data.get(i) {
                proof {
                    assert(self@.data[i as int] != other@.data[i as int]);
                    assert(self@ != other@);
                }
                return false;
            }
            i = i + 1;
        }
        let m = self.refs.len();
        if m != other.refs.len() {
            proof {
                lemma_cell_views(self.refs@);
                lemma_cell_views(other.refs@);
                assert(self@.refs.len() != other@.refs.len());
            }
            return false;
        }
        let mut k: usize = 0;
        while k < m
            invariant
                m == self.refs@.len() == other.refs@.len(),
                k <= m,
                n == self@.data.len() == other@.data.len(),
                forall|j: int| 0 <= j < n ==> self@.data[j] == other@.data[j],
                forall|j: int| 0 <= j < k ==> self.refs@[j]@ == other.refs@[j]@,
            decreases m - k,
        {
            if !self.refs[k].equals(&other.refs[k]) {
                proof {
                    lemma_cell_views(self.refs@);
                    lemma_cell_views(other.refs@);
                    assert(self@.refs[k as int] != other@.refs[k as int]);
                    assert(self@ != other@);
                }
                return false;
            }
            k = k + 1;
        }
        proof {
            lemma_cell_views(self.refs@);
            lemma_cell_views(other.refs@);
            assert(self@.data =~= other@.data);
            assert(self@.refs =~= other@.refs);
            assert(self@ =~= other@);
        }
        true
    }
}

/// A mutable precursor of a cell.
pub struct CellBuilder {
    data: Bitstring,
    refs: Vec<Cell>,
}

impl View for CellBuilder {
    type V = BuilderV;

    closed spec fn view(&self) -> BuilderV {
        BuilderV { data: self.data@, refs: cell_views(self.refs@) }
    }
}

impl CellBuilder {
    /// An empty builder.
    pub fn new() -> (r: CellBuilder)
        ensures
            r@.data == Seq::<bool>::empty(),
            r@.refs == Seq::<CellV>::empty(),
    {
        let r = CellBuilder { data: Bitstring::new(), refs: Vec::new() };
        proof {
            assert(r@.refs =~= Seq::<CellV>::empty());
        }
        r
    }

    /// Data bits already used.
    pub fn bits_used(&self) -> (r: usize)
        ensures
            r == self@.data.len(),
    {
        self.data.length_in_bits()
    }

    /// Data-bit capacity of the cell being built.
    pub fn bits_capacity(&self) -> (r: usize)
        ensures
            r == 1023,
    {
        CELL_DATA_BITS
    }

    /// References already attached.
    pub fn references_used(&self) -> (r: usize)
        ensures
            r == self@.refs.len(),
    {
        proof {
            lemma_cell_views(self.refs@);
        }
        self.refs.len()
    }

    /// Reference capacity of the cell being built.
    pub fn references_capacity(&self) -> (r: usize)
        ensures
            r == 4,
    {
        CELL_REFS
    }

    /// Appends bits into the current cell's data region iff the remaining
    /// capacity suffices; otherwise reports the overflow and leaves the
    /// builder unchanged.
    pub fn append_data(&mut self, bs: &Bitstring) -> (r: Result<(), crate::AbiError>)
        ensures
            old(self)@.data.len() + bs@.len() <= 1023 ==> (
                r is Ok
                && final(self)@.data == old(self)@.data + bs@
                && final(self)@.refs == old(self)@.refs
            ),
            old(self)@.data.len() + bs@.len() > 1023 ==> (
                r == Result::<(), crate::AbiError>::Err(crate::AbiError::InvalidOperation)
                && *final(self) == *old(self)
            ),
    {
        if self.data.length_in_bits() > CELL_DATA_BITS
            || bs.length_in_bits() > CELL_DATA_BITS - self.data.length_in_bits()
        {
            Err(crate::AbiError::InvalidOperation)
        } else {
            self.data.append(bs);
            Ok(())
        }
    }

    /// Appends one bit iff a data bit of capacity remains.
    pub fn append_bit(&mut self, b: bool) -> (r: Result<(), crate::AbiError>)
        ensures
            old(self)@.data.len() < 1023 ==> (
                r is Ok
                && final(self)@.data == old(self)@.data.push(b)
                && final(self)@.refs == old(self)@.refs
            ),
            old(self)@.data.len() >= 1023 ==> (
                r == Result::<(), crate::AbiError>::Err(crate::AbiError::InvalidOperation)
                && *final(self) == *old(self)
            ),
    {
        if self.data.length_in_bits() >= CELL_DATA_BITS {
            Err(crate::AbiError::InvalidOperation)
        } else {
            self.data.append_bit(b);
            Ok(())
        }
    }

    /// Adds `child` as the rightmost reference; fails if all four slots
    /// are taken.
    pub fn append_reference(&mut self, child: Cell) -> (r: Result<(), crate::AbiError>)
        ensures
            old(self)@.refs.len() < 4 ==> (
                r is Ok
                && final(self)@.data == old(self)@.data
                && final(self)@.refs == old(self)@.refs.push(child@)
            ),
            old(self)@.refs.len() >= 4 ==> (
                r == Result::<(), crate::AbiError>::Err(crate::AbiError::InvalidOperation)
                && *final(self) == *old(self)
            ),
    {
        proof {
            lemma_cell_views(self.refs@);
        }
        if self.refs.len() >= CELL_REFS {
            Err(crate::AbiError::InvalidOperation)
        } else {
            let ghost ov = self.refs@;
            let ghost before = self@.refs;
            self.refs.push(child);
            proof {
                assert(self.refs@.drop_last() =~= ov);
                assert(self.refs@.last() == child);
                assert(self@.refs =~= before.push(child@));
            }
            Ok(())
        }
    }

    /// Inserts `child` as the leftmost reference; fails if all four slots
    /// are taken.
    pub fn prepend_reference(&mut self, child: Cell) -> (r: Result<(), crate::AbiError>)
        ensures
            old(self)@.refs.len() < 4 ==> (
                r is Ok
                && final(self)@.data == old(self)@.data
                && final(self)@.refs == seq![child@] + old(self)@.refs
            ),
            old(self)@.refs.len() >= 4 ==> (
                r == Result::<(), crate::AbiError>::Err(crate::AbiError::InvalidOperation)
                && *final(self) == *old(self)
            ),
    {
        proof {
            lemma_cell_views(self.refs@);
        }
        if self.refs.len() >= CELL_REFS {
            Err(crate::AbiError::InvalidOperation)
        } else {
            let ghost ov = self.refs@;
            let ghost before = self@.refs;
            self.refs.insert(0, child);
            proof {
                lemma_cell_views(ov);
                lemma_cell_views(self.refs@);
                assert(self@.refs =~= seq![child@] + before);
            }
            Ok(())
        }
    }

    /// Finalizes the builder into an immutable cell.
    pub fn into_cell(self) -> (r: Cell)
        ensures
            r@ == builder_cell(self@),
    {
        let r = Cell { data: self.data, refs: self.refs };
        proof {
            assert(r@ =~= builder_cell(self@));
        }
        r
    }
}

/// The spill discipline, appending: while bits remain, a full cell is
/// wrapped as the single reference of a fresh builder, and the tail of
/// the remaining payload fills the free room of the current cell.
pub open spec fn spill_append(b: BuilderV, bits: Seq<bool>) -> BuilderV
    decreases bits.len(), b.data.len() + 1,
{
    if bits.len() == 0 {
        b
    } else if b.data.len() >= 1023 {
        spill_append(BuilderV { data: Seq::empty(), refs: seq![builder_cell(b)] }, bits)
    } else {
        let take = if 1023 - b.data.len() < bits.len() { 1023 - b.data.len() } else { bits.len() as int };
        spill_append(
            BuilderV {
                data: b.data + bits.subrange(bits.len() - take, bits.len() as int),
                refs: b.refs,
            },
            bits.take(bits.len() - take),
        )
    }
}

/// The spill discipline, prepending: as `spill_append`, but the tail of
/// the payload goes in front of the bits the cell already holds, for an
/// encoder that works from the last field toward the first.
pub open spec fn spill_prepend(b: BuilderV, bits: Seq<bool>) -> BuilderV
    decreases bits.len(), b.data.len() + 1,
{
    if bits.len() == 0 {
        b
    } else if b.data.len() >= 1023 {
        spill_prepend(BuilderV { data: Seq::empty(), refs: seq![builder_cell(b)] }, bits)
    } else {
        let take = if 1023 - b.data.len() < bits.len() { 1023 - b.data.len() } else { bits.len() as int };
        spill_prepend(
            BuilderV {
                data: bits.subrange(bits.len() - take, bits.len() as int) + b.data,
                refs: b.refs,
            },
            bits.take(bits.len() - take),
        )
    }
}

/// Fills `data` into `builder` following the canonical chaining
/// discipline: overflow is spilled into chained child references, the
/// deepest cell holding the latest bits.  Returns the new head builder.
pub fn put_data_into_chain(builder: CellBuilder, data: &Bitstring) -> (r: CellBuilder)
    ensures
        r@ == spill_append(builder@, data@),
{
    let mut size = data.length_in_bits();
    let mut current = builder;
    proof {
        assert(data@.take(size as int) =~= data@);
    }
    while size != 0
        invariant
            size <= data@.len(),
            spill_append(current@, data@.take(size as int)) == spill_append(builder@, data@),
        decreases size,
    {
        let ghost entry = current@;
        if current.bits_used() >= CELL_DATA_BITS {
            let mut temp = CellBuilder::new();
            let full = current.into_cell();
            let res = temp.append_reference(full);
            proof {
                assert(res is Ok);
                assert(temp@ =~= (BuilderV {
                    data: Seq::empty(),
                    refs: seq![builder_cell(entry)],
                }));
                assert(spill_append(temp@, data@.take(size as int))
                    == spill_append(entry, data@.take(size as int)));
            }
            current = temp;
        }
        let room = CELL_DATA_BITS - current.bits_used();
        let take = if room < size { room } else { size };
        let cut = data.bits(size - take, size);
        let ghost before = current@;
        let res = current.append_data(&cut);
        proof {
            assert(res is Ok);
            let whole = data@.take(size as int);
            assert(whole.subrange(whole.len() - take, whole.len() as int)
                =~= data@.subrange(size - take, size as int));
            assert(whole.take(whole.len() - take) =~= data@.take(size - take));
            assert(current@ =~= (BuilderV {
                data: before.data + whole.subrange(whole.len() - take, whole.len() as int),
                refs: before.refs,
            }));
            assert(spill_append(current@, data@.take(size - take))
                == spill_append(before, whole));
        }
        size = size - take;
    }
    current
}

/// As `put_data_into_chain`, but the payload goes in front of the bits
/// already held, preserving reading order for an encoder that works
/// backwards over the fields.
pub fn prepend_data_into_chain(builder: CellBuilder, data: &Bitstring) -> (r: CellBuilder)
    ensures
        r@ == spill_prepend(builder@, data@),
{
    let mut size = data.length_in_bits();
    let mut current = builder;
    proof {
        assert(data@.take(size as int) =~= data@);
    }
    while size != 0
        invariant
            size <= data@.len(),
            spill_prepend(current@, data@.take(size as int)) == spill_prepend(builder@, data@),
        decreases size,
    {
        let ghost entry = current@;
        if current.bits_used() >= CELL_DATA_BITS {
            let mut temp = CellBuilder::new();
            let full = current.into_cell();
            let res = temp.append_reference(full);
            proof {
                assert(res is Ok);
                assert(temp@ =~= (BuilderV {
                    data: Seq::empty(),
                    refs: seq![builder_cell(entry)],
                }));
                assert(spill_prepend(temp@, data@.take(size as int))
                    == spill_prepend(entry, data@.take(size as int)));
            }
            current = temp;
        }
        let room = CELL_DATA_BITS - current.bits_used();
        let take = if room < size { room } else { size };
        let mut cut = data.bits(size - take, size);
        let ghost before = current@;
        let old_data = current.data.bits(0, current.data.length_in_bits());
        cut.append(&old_data);
        current.data = cut;
        proof {
            assert(before.data.subrange(0, before.data.len() as int) =~= before.data);
            let whole = data@.take(size as int);
            assert(whole.subrange(whole.len() - take, whole.len() as int)
                =~= data@.subrange(size - take, size as int));
            assert(whole.take(whole.len() - take) =~= data@.take(size - take));
            assert(current@ =~= (BuilderV {
                data: whole.subrange(whole.len() - take, whole.len() as int) + before.data,
                refs: before.refs,
            }));
            assert(spill_prepend(current@, data@.take(size - take))
                == spill_prepend(before, whole));
        }
        size = size - take;
    }
    current
}

} // verus!
