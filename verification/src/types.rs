//! The recursive type grammar of the codec, and the canonical textual
//! signature it renders to.
//!
//! A function's identifier is derived from the ASCII signature
//! `name(inTypes)(outTypes)`, where the comma-separated type list uses no
//! spaces and tuple types render parenthesized.

use vstd::prelude::*;

verus! {

broadcast use {vstd::std_specs::vec::group_vec_axioms, vstd::seq::group_seq_axioms};

/// An ABI type.
pub enum AbiType {
    /// `uintN`, N one of 8, 16, 32, 64, 128.
    Uint(usize),
    /// `intN`, two's complement, N one of 8, 16, 32, 64, 128.
    Int(usize),
    /// `bool`, one bit.
    Bool,
    /// `dint`: variable-length signed integer.
    Dint,
    /// `duint`: variable-length unsigned integer.
    Duint,
    /// `bitsN`: fixed-width bit array.
    Bits(usize),
    /// `bitstring`: dynamic bit string.
    Bitstring,
    /// `T[N]`: fixed-size array.
    FixedArray(Box<AbiType>, usize),
    /// `T[]`: dynamic array, at most 255 elements.
    DynArray(Box<AbiType>),
    /// `(T1,...,Tk)`: tuple.
    Tuple(Vec<AbiType>),
}

/// The mathematical shape of an ABI type.
pub enum TypeV {
    Uint(nat),
    Int(nat),
    Bool,
    Dint,
    Duint,
    Bits(nat),
    Bitstring,
    FixedArray(Box<TypeV>, nat),
    DynArray(Box<TypeV>),
    Tuple(Seq<TypeV>),
}

impl View for AbiType {
    type V = TypeV;

    open spec fn view(&self) -> TypeV
        decreases self,
    {
        match self {
            AbiType::Uint(w) => TypeV::Uint(*w as nat),
            AbiType::Int(w) => TypeV::Int(*w as nat),
            AbiType::Bool => TypeV::Bool,
            AbiType::Dint => TypeV::Dint,
            AbiType::Duint => TypeV::Duint,
            AbiType::Bits(n) => TypeV::Bits(*n as nat),
            AbiType::Bitstring => TypeV::Bitstring,
            AbiType::FixedArray(t, n) => TypeV::FixedArray(Box::new((**t)@), *n as nat),
            AbiType::DynArray(t) => TypeV::DynArray(Box::new((**t)@)),
            AbiType::Tuple(ts) => TypeV::Tuple(types_view(ts@)),
        }
    }
}

/// The views of a sequence of types, in order.
pub open spec fn types_view(ts: Seq<AbiType>) -> Seq<TypeV>
    decreases ts,
{
    if ts.len() == 0 {
        Seq::empty()
    } else {
        types_view(ts.drop_last()).push(ts.last()@)
    }
}

/// `types_view` maps the view over the sequence, element by element.
pub proof fn lemma_types_view(ts: Seq<AbiType>)
    ensures
        types_view(ts).len() == ts.len(),
        forall|i: int| 0 <= i < ts.len() ==> types_view(ts)[i] == ts[i]@,
    decreases ts.len(),
{
    if ts.len() == 0 {
        assert(types_view(ts) =~= Seq::<TypeV>::empty());
    } else {
        lemma_types_view(ts.drop_last());
        assert(types_view(ts) == types_view(ts.drop_last()).push(ts.last()@));
        assert(types_view(ts).len() == ts.len());
        assert forall|i: int| 0 <= i < ts.len() implies types_view(ts)[i] == ts[i]@ by {
            if i < ts.len() - 1 {
                assert(ts.drop_last()[i] == ts[i]);
                assert(types_view(ts)[i] == types_view(ts.drop_last())[i]);
            } else {
                assert(ts.last() == ts[i]);
            }
        }
    }
}

/// The ASCII decimal digits of `n`, most significant first.
pub open spec fn dec_bytes(n: nat) -> Seq<u8>
    decreases n,
{
    if n < 10 {
        seq![(48 + n) as u8]
    } else {
        dec_bytes(n / 10).push((48 + n % 10) as u8)
    }
}

/// The canonical ASCII rendering of one type.
pub open spec fn type_sig(t: TypeV) -> Seq<u8>
    decreases t,
{
    match t {
        TypeV::Uint(w) => seq![117u8, 105u8, 110u8, 116u8] + dec_bytes(w),
        TypeV::Int(w) => seq![105u8, 110u8, 116u8] + dec_bytes(w),
        TypeV::Bool => seq![98u8, 111u8, 111u8, 108u8],
        TypeV::Dint => seq![100u8, 105u8, 110u8, 116u8],
        TypeV::Duint => seq![100u8, 117u8, 105u8, 110u8, 116u8],
        TypeV::Bits(n) => seq![98u8, 105u8, 116u8, 115u8] + dec_bytes(n),
        TypeV::Bitstring => seq![
            98u8, 105u8, 116u8, 115u8, 116u8, 114u8, 105u8, 110u8, 103u8,
        ],
        TypeV::FixedArray(t2, n) => type_sig(*t2) + seq![91u8] + dec_bytes(n) + seq![93u8],
        TypeV::DynArray(t2) => type_sig(*t2) + seq![91u8, 93u8],
        TypeV::Tuple(ts) => seq![40u8] + sig_list(ts) + seq![41u8],
    }
}

/// The comma-separated rendering of a type list, with no spaces.
pub open spec fn sig_list(ts: Seq<TypeV>) -> Seq<u8>
    decreases ts,
{
    if ts.len() == 0 {
        Seq::empty()
    } else if ts.len() == 1 {
        type_sig(ts[0])
    } else {
        sig_list(ts.drop_last()) + seq![44u8] + type_sig(ts.last())
    }
}

/// The canonical signature `name(inTypes)(outTypes)` as ASCII bytes.
pub open spec fn signature_bytes(name: Seq<u8>, ins: Seq<TypeV>, outs: Seq<TypeV>) -> Seq<u8> {
    name + seq![40u8] + sig_list(ins) + seq![41u8] + seq![40u8] + sig_list(outs) + seq![41u8]
}

/// The fewest bits any value of the type can occupy once encoded.
pub open spec fn type_min_bits(t: TypeV) -> nat
    decreases t,
{
    match t {
        TypeV::Uint(w) => w,
        TypeV::Int(w) => w,
        TypeV::Bool => 1,
        TypeV::Dint => 8,
        TypeV::Duint => 8,
        TypeV::Bits(_) => 2,
        TypeV::Bitstring => 2,
        TypeV::FixedArray(_, _) => 2,
        TypeV::DynArray(_) => 2,
        TypeV::Tuple(ts) => min_sum(ts),
    }
}

/// The summed minimum widths of a type list.
pub open spec fn min_sum(ts: Seq<TypeV>) -> nat
    decreases ts,
{
    if ts.len() == 0 {
        0
    } else {
        type_min_bits(ts[0]) + min_sum(ts.drop_first())
    }
}

/// A valid type: widths are one of the supported five, fixed bit arrays
/// are not empty, and elements of a dynamic array occupy at least one
/// bit, so that a reader meets one element per bit position at most.
pub open spec fn type_wf(t: TypeV) -> bool
    decreases t,
{
    match t {
        TypeV::Uint(w) => w == 8 || w == 16 || w == 32 || w == 64 || w == 128,
        TypeV::Int(w) => w == 8 || w == 16 || w == 32 || w == 64 || w == 128,
        TypeV::Bool => true,
        TypeV::Dint => true,
        TypeV::Duint => true,
        TypeV::Bits(n) => n >= 1,
        TypeV::Bitstring => true,
        TypeV::FixedArray(t2, _) => type_wf(*t2),
        TypeV::DynArray(t2) => type_wf(*t2) && type_min_bits(*t2) >= 1,
        TypeV::Tuple(ts) => types_all_wf(ts),
    }
}

/// Every type of the list is valid.
pub open spec fn types_all_wf(ts: Seq<TypeV>) -> bool
    decreases ts,
{
    forall|i: int| 0 <= i < ts.len() ==> type_wf(#[trigger] ts[i])
}

impl AbiType {
    /// A structural copy of the type.
    pub fn type_copy(&self) -> (r: AbiType)
        ensures
            r@ == self@,
        decreases self,
    {
        match self {
            AbiType::Uint(w) => AbiType::Uint(*w),
            AbiType::Int(w) => AbiType::Int(*w),
            AbiType::Bool => AbiType::Bool,
            AbiType::Dint => AbiType::Dint,
            AbiType::Duint => AbiType::Duint,
            AbiType::Bits(n) => AbiType::Bits(*n),
            AbiType::Bitstring => AbiType::Bitstring,
            AbiType::FixedArray(t2, n) => AbiType::FixedArray(Box::new(t2.type_copy()), *n),
            AbiType::DynArray(t2) => AbiType::DynArray(Box::new(t2.type_copy())),
            AbiType::Tuple(ts) => {
                let out = types_copy(ts);
                let r = AbiType::Tuple(out);
                proof {
                    assert(r@ =~= self@);
                }
                r
            },
        }
    }
}

/// A structural copy of a type list.
fn types_copy(ts: &Vec<AbiType>) -> (r: Vec<AbiType>)
    ensures
        types_view(r@) == types_view(ts@),
    decreases ts,
{
    let mut out: Vec<AbiType> = Vec::new();
    let n = ts.len();
    let mut i: usize = 0;
    while i < n
        invariant
            n == ts@.len(),
            i <= n,
            out@.len() == i,
            forall|j: int| 0 <= j < i ==> out@[j]@ == ts@[j]@,
        decreases n - i,
    {
        let c = ts[i].type_copy();
        out.push(c);
        i = i + 1;
    }
    proof {
        lemma_types_view(out@);
        lemma_types_view(ts@);
        assert(types_view(out@) =~= types_view(ts@));
    }
    out
}

/// The summed minimum widths are positive exactly when some member's
/// is.
proof fn lemma_min_sum_pos(ts: Seq<TypeV>)
    ensures
        min_sum(ts) >= 1 <==> exists|i: int|
            0 <= i < ts.len() && type_min_bits(#[trigger] ts[i]) >= 1,
    decreases ts.len(),
{
    if ts.len() > 0 {
        lemma_min_sum_pos(ts.drop_first());
        if min_sum(ts) >= 1 {
            if type_min_bits(ts[0]) >= 1 {
                assert(0 <= 0 < ts.len() && type_min_bits(ts[0]) >= 1);
            } else {
                let j = choose|j: int|
                    0 <= j < ts.drop_first().len() && type_min_bits(
                        #[trigger] ts.drop_first()[j],
                    ) >= 1;
                assert(ts.drop_first()[j] == ts[j + 1]);
                assert(type_min_bits(ts[j + 1]) >= 1);
            }
        }
        if exists|i: int| 0 <= i < ts.len() && type_min_bits(#[trigger] ts[i]) >= 1 {
            let i = choose|i: int| 0 <= i < ts.len() && type_min_bits(#[trigger] ts[i]) >= 1;
            if i > 0 {
                assert(ts.drop_first()[i - 1] == ts[i]);
            }
        }
    }
}

impl AbiType {
    /// Structural equality of two types.
    pub fn same_type(&self, other: &AbiType) -> (r: bool)
        ensures
            r == (self@ == other@),
        decreases self,
    {
        match (self, other) {
            (AbiType::Uint(w1), AbiType::Uint(w2)) => w1 == w2,
            (AbiType::Int(w1), AbiType::Int(w2)) => w1 == w2,
            (AbiType::Bool, AbiType::Bool) => true,
            (AbiType::Dint, AbiType::Dint) => true,
            (AbiType::Duint, AbiType::Duint) => true,
            (AbiType::Bits(n1), AbiType::Bits(n2)) => n1 == n2,
            (AbiType::Bitstring, AbiType::Bitstring) => true,
            (AbiType::FixedArray(t1, n1), AbiType::FixedArray(t2, n2)) => {
                t1.same_type(t2) && n1 == n2
            },
            (AbiType::DynArray(t1), AbiType::DynArray(t2)) => t1.same_type(t2),
            (AbiType::Tuple(ts1), AbiType::Tuple(ts2)) => types_same(ts1, ts2),
            _ => false,
        }
    }

    /// Whether the type is valid: supported widths, no empty fixed bit
    /// array, and dynamic-array elements that occupy at least one bit.
    pub fn well_formed(&self) -> (r: bool)
        ensures
            r == type_wf(self@),
        decreases self,
    {
        match self {
            AbiType::Uint(w) => *w == 8 || *w == 16 || *w == 32 || *w == 64 || *w == 128,
            AbiType::Int(w) => *w == 8 || *w == 16 || *w == 32 || *w == 64 || *w == 128,
            AbiType::Bool => true,
            AbiType::Dint => true,
            AbiType::Duint => true,
            AbiType::Bits(n) => *n >= 1,
            AbiType::Bitstring => true,
            AbiType::FixedArray(t2, _) => t2.well_formed(),
            AbiType::DynArray(t2) => t2.well_formed() && t2.occupies_bits(),
            AbiType::Tuple(ts) => types_well_formed(ts),
        }
    }

    /// Whether every value of the type occupies at least one bit.
    pub fn occupies_bits(&self) -> (r: bool)
        ensures
            r == (type_min_bits(self@) >= 1),
        decreases self,
    {
        match self {
            AbiType::Uint(w) => *w >= 1,
            AbiType::Int(w) => *w >= 1,
            AbiType::Bool => true,
            AbiType::Dint => true,
            AbiType::Duint => true,
            AbiType::Bits(_) => true,
            AbiType::Bitstring => true,
            AbiType::FixedArray(_, _) => true,
            AbiType::DynArray(_) => true,
            AbiType::Tuple(ts) => types_occupy_bits(ts),
        }
    }
}

/// Whether every type of a list is valid.
fn types_well_formed(ts: &Vec<AbiType>) -> (r: bool)
    ensures
        r == types_all_wf(types_view(ts@)),
    decreases ts,
{
    let n = ts.len();
    let mut i: usize = 0;
    proof {
        lemma_types_view(ts@);
    }
    while i < n
        invariant
            n == ts@.len(),
            i <= n,
            types_view(ts@).len() == n,
            forall|j: int| 0 <= j < n ==> types_view(ts@)[j] == ts@[j]@,
            forall|j: int| 0 <= j < i ==> type_wf(#[trigger] types_view(ts@)[j]),
        decreases n - i,
    {
        if !ts[i].well_formed() {
            proof {
                assert(!type_wf(types_view(ts@)[i as int]));
                assert(!types_all_wf(types_view(ts@)));
            }
            return false;
        }
        i = i + 1;
    }
    proof {
        assert(types_all_wf(types_view(ts@)));
    }
    true
}

/// Whether some type of a list occupies at least one bit.
fn types_occupy_bits(ts: &Vec<AbiType>) -> (r: bool)
    ensures
        r == (min_sum(types_view(ts@)) >= 1),
    decreases ts,
{
    let n = ts.len();
    let mut i: usize = 0;
    proof {
        lemma_types_view(ts@);
        lemma_min_sum_pos(types_view(ts@));
    }
    while i < n
        invariant
            n == ts@.len(),
            i <= n,
            types_view(ts@).len() == n,
            forall|j: int| 0 <= j < n ==> types_view(ts@)[j] == ts@[j]@,
            min_sum(types_view(ts@)) >= 1 <==> exists|j: int|
                0 <= j < n && type_min_bits(#[trigger] types_view(ts@)[j]) >= 1,
            forall|j: int| 0 <= j < i ==> type_min_bits(#[trigger] types_view(ts@)[j]) < 1,
        decreases n - i,
    {
        if ts[i].occupies_bits() {
            proof {
                assert(type_min_bits(types_view(ts@)[i as int]) >= 1);
            }
            return true;
        }
        i = i + 1;
    }
    false
}

/// Structural equality of two type lists.
fn types_same(a: &Vec<AbiType>, b: &Vec<AbiType>) -> (r: bool)
    ensures
        r == (types_view(a@) == types_view(b@)),
    decreases a,
{
    proof {
        lemma_types_view(a@);
        lemma_types_view(b@);
    }
    if a.len() != b.len() {
        proof {
            assert(types_view(a@).len() != types_view(b@).len());
        }
        return false;
    }
    let n = a.len();
    let mut i: usize = 0;
    while i < n
        invariant
            n == a@.len() == b@.len(),
            i <= n,
            types_view(a@).len() == n && types_view(b@).len() == n,
            forall|j: int| 0 <= j < n ==> types_view(a@)[j] == a@[j]@,
            forall|j: int| 0 <= j < n ==> types_view(b@)[j] == b@[j]@,
            forall|j: int| 0 <= j < i ==> types_view(a@)[j] == types_view(b@)[j],
        decreases n - i,
    {
        if !a[i].same_type(&b[i]) {
            proof {
                assert(types_view(a@)[i as int] != types_view(b@)[i as int]);
            }
            return false;
        }
        i = i + 1;
    }
    proof {
        assert(types_view(a@) =~= types_view(b@));
    }
    true
}

/// Appends the decimal digits of `n`.
fn push_dec(out: &mut Vec<u8>, n: usize)
    ensures
        final(out)@ == old(out)@ + dec_bytes(n as nat),
    decreases n,
{
    if n < 10 {
        out.push(48 + (n as u8));
        assert(final(out)@ =~= old(out)@ + dec_bytes(n as nat));
    } else {
        push_dec(out, n / 10);
        out.push(48 + ((n % 10) as u8));
        assert(final(out)@ =~= old(out)@ + dec_bytes(n as nat));
    }
}

/// Appends the canonical rendering of `t`.
pub fn push_type_sig(out: &mut Vec<u8>, t: &AbiType)
    ensures
        final(out)@ == old(out)@ + type_sig(t@),
    decreases t,
{
    match t {
        AbiType::Uint(w) => {
            out.push(117);
            out.push(105);
            out.push(110);
            out.push(116);
            push_dec(out, *w);
            assert(final(out)@ =~= old(out)@ + type_sig(t@));
        },
        AbiType::Int(w) => {
            out.push(105);
            out.push(110);
            out.push(116);
            push_dec(out, *w);
            assert(final(out)@ =~= old(out)@ + type_sig(t@));
        },
        AbiType::Bool => {
            out.push(98);
            out.push(111);
            out.push(111);
            out.push(108);
            assert(final(out)@ =~= old(out)@ + type_sig(t@));
        },
        AbiType::Dint => {
            out.push(100);
            out.push(105);
            out.push(110);
            out.push(116);
            assert(final(out)@ =~= old(out)@ + type_sig(t@));
        },
        AbiType::Duint => {
            out.push(100);
            out.push(117);
            out.push(105);
            out.push(110);
            out.push(116);
            assert(final(out)@ =~= old(out)@ + type_sig(t@));
        },
        AbiType::Bits(n) => {
            out.push(98);
            out.push(105);
            out.push(116);
            out.push(115);
            push_dec(out, *n);
            assert(final(out)@ =~= old(out)@ + type_sig(t@));
        },
        AbiType::Bitstring => {
            out.push(98);
            out.push(105);
            out.push(116);
            out.push(115);
            out.push(116);
            out.push(114);
            out.push(105);
            out.push(110);
            out.push(103);
            assert(final(out)@ =~= old(out)@ + type_sig(t@));
        },
        AbiType::FixedArray(t2, n) => {
            push_type_sig(out, t2);
            out.push(91);
            push_dec(out, *n);
            out.push(93);
            assert(final(out)@ =~= old(out)@ + type_sig(t@));
        },
        AbiType::DynArray(t2) => {
            push_type_sig(out, t2);
            out.push(91);
            out.push(93);
            assert(final(out)@ =~= old(out)@ + type_sig(t@));
        },
        AbiType::Tuple(ts) => {
            out.push(40);
            push_sig_list(out, ts);
            out.push(41);
            assert(final(out)@ =~= old(out)@ + type_sig(t@));
        },
    }
}

/// Appends the comma-separated rendering of `ts`.
pub fn push_sig_list(out: &mut Vec<u8>, ts: &Vec<AbiType>)
    ensures
        final(out)@ == old(out)@ + sig_list(types_view(ts@)),
    decreases ts,
{
    let n = ts.len();
    let mut i: usize = 0;
    proof {
        lemma_types_view(ts@);
    }
    while i < n
        invariant
            n == ts@.len(),
            i <= n,
            out@ == old(out)@ + sig_list(types_view(ts@.take(i as int))),
            types_view(ts@).len() == n,
            forall|j: int| 0 <= j < n ==> types_view(ts@)[j] == ts@[j]@,
        decreases n - i,
    {
        if i > 0 {
            out.push(44);
        }
        push_type_sig(out, &ts[i]);
        proof {
            lemma_types_view(ts@.take(i as int));
            lemma_types_view(ts@.take(i + 1));
            lemma_sig_list_snoc(types_view(ts@.take(i + 1)));
            assert(types_view(ts@.take(i + 1)).drop_last() =~= types_view(ts@.take(i as int)))
            by {
                lemma_types_view(ts@.take(i + 1));
                lemma_types_view(ts@.take(i as int));
            }
            if i == 0 {
                assert(out@ =~= old(out)@ + sig_list(types_view(ts@.take(i + 1))));
            } else {
                assert(out@ =~= old(out)@ + sig_list(types_view(ts@.take(i + 1))));
            }
        }
        i = i + 1;
    }
    proof {
        assert(ts@.take(n as int) =~= ts@);
    }
}

/// Unfolding `sig_list` at the back of a non-empty list.
proof fn lemma_sig_list_snoc(ts: Seq<TypeV>)
    requires
        ts.len() >= 1,
    ensures
        ts.len() == 1 ==> sig_list(ts) == type_sig(ts[0]),
        ts.len() > 1 ==> sig_list(ts) == sig_list(ts.drop_last()) + seq![44u8] + type_sig(
            ts.last(),
        ),
{
}

} // verus!
