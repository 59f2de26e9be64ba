//! What the circuit handed to the proving backend is made of: one variable
//! per wire, a witness, and the constraints with their wires checked.

use crate::r1cs::{
    constraints_view, terms_view, ConstraintView, R1CS, R1CSConstraint, R1csError, Term, TermView,
};
use crate::bytes::copy_bytes;
use vstd::prelude::*;

verus! {

/// How the backend allocates the variable of a wire.
#[derive(Debug, Clone, Copy, PartialEq, Eq, Structural)]
pub enum WireKind {
    /// Wire 0, bound to the backend's constant one.
    One,
    /// An externally visible input.
    Public,
    /// A private witness.
    Private,
}

/// Wire 0 is the constant one, the next `n_public` wires are public, the rest private.
pub open spec fn spec_wire_kind(w: int, n_public: int) -> WireKind {
    if w == 0 {
        WireKind::One
    } else if w <= n_public {
        WireKind::Public
    } else {
        WireKind::Private
    }
}

/// The kind of variable wire `w` gets when `n_public` wires follow the
/// constant one as public values.
pub fn wire_kind(w: u32, n_public: u32) -> (r: WireKind)
    ensures
        r == spec_wire_kind(w as int, n_public as int),
{
    if w == 0 {
        WireKind::One
    } else if w <= n_public {
        WireKind::Public
    } else {
        WireKind::Private
    }
}

/// The sample witness: one on wire 0, its own index on each public wire, ten
/// times its index on each private wire.
pub open spec fn spec_witness_value(i: int, n_public: int) -> int {
    if i == 0 {
        1
    } else if i <= n_public {
        i
    } else {
        10 * i
    }
}

/// A circuit built from a decoded container, with its witness values.
pub struct CircuitFromR1CS {
    pub r1cs: R1CS,
    pub witness_values: Vec<u64>,
}

impl CircuitFromR1CS {
    /// The container is well formed and there is one witness value per wire.
    pub open spec fn wf(&self) -> bool {
        &&& self.r1cs.wf()
        &&& self.witness_values@.len() == self.r1cs.header.n_wires
    }

    /// Pairs the container with the sample witness of `spec_witness_value`.
    pub fn new(r1cs: R1CS) -> (r: Self)
        requires
            r1cs.wf(),
        ensures
            r.wf(),
            r.r1cs == r1cs,
            forall|i: int|
                0 <= i < r.witness_values@.len() ==> r.witness_values@[i] as int == spec_witness_value(
                    i,
                    r1cs.header.n_pub_out + r1cs.header.n_pub_in,
                ),
    {
        let num_wires = r1cs.num_wires();
        let num_public = r1cs.num_public_values();
        let mut witness_values: Vec<u64> = Vec::new();
        let mut i: u32 = 0;
        while i < num_wires
            invariant
                i <= num_wires,
                num_wires == r1cs.header.n_wires,
                num_public == r1cs.header.n_pub_out + r1cs.header.n_pub_in,
                witness_values@.len() == i,
                forall|j: int|
                    0 <= j < i ==> witness_values@[j] as int == spec_witness_value(j, num_public as int),
            decreases num_wires - i,
        {
            let v: u64 = if i == 0 {
                1
            } else if i <= num_public {
                i as u64
            } else {
                10 * (i as u64)
            };
            witness_values.push(v);
            i = i + 1;
        }
        CircuitFromR1CS { r1cs, witness_values }
    }

    /// The public values, wires `1..=public`, in wire order.
    pub fn get_public_inputs(&self) -> (r: Vec<u64>)
        requires
            self.wf(),
        ensures
            r@ == self.witness_values@.subrange(
                1,
                1 + self.r1cs.header.n_pub_out + self.r1cs.header.n_pub_in,
            ),
    {
        let public_count = self.r1cs.num_public_values() as usize;
        let mut out: Vec<u64> = Vec::new();
        let mut i: usize = 1;
        while i <= public_count
            invariant
                1 <= i <= public_count + 1,
                public_count < self.witness_values.len(),
                out@ == self.witness_values@.subrange(1, i as int),
            decreases public_count + 1 - i,
        {
            out.push(self.witness_values[i]);
            i = i + 1;
        }
        out
    }
}

/// The coefficient one in `fsize` little-endian bytes.
pub open spec fn one_bytes(fsize: nat) -> Seq<u8> {
    seq![1u8] + Seq::new((fsize - 1) as nat, |i: int| 0u8)
}

/// An empty B side stands for the constant one: the one wire with
/// coefficient one. An empty A or C side is the zero combination.
pub open spec fn side_b(ts: Seq<TermView>, fsize: nat) -> Seq<TermView> {
    if ts.len() == 0 {
        seq![TermView { wire_id: 0, coefficient: one_bytes(fsize) }]
    } else {
        ts
    }
}

/// The constraint asserted to the backend for `c`.
pub open spec fn spec_planned(c: ConstraintView, fsize: nat) -> ConstraintView {
    ConstraintView { a: c.a, b: side_b(c.b, fsize), c: c.c }
}

/// Every term of the combination names one of the first `n_wires` wires.
pub open spec fn lc_in_range(ts: Seq<TermView>, n_wires: nat) -> bool {
    forall|i: int| 0 <= i < ts.len() ==> (#[trigger] ts[i]).wire_id < n_wires
}

/// All three sides of the constraint name allocated wires.
pub open spec fn constraint_in_range(c: ConstraintView, n_wires: nat) -> bool {
    lc_in_range(c.a, n_wires) && lc_in_range(c.b, n_wires) && lc_in_range(c.c, n_wires)
}

/// Every term of every constraint names an allocated wire.
pub open spec fn all_in_range(cs: Seq<ConstraintView>, n_wires: nat) -> bool {
    forall|i: int| 0 <= i < cs.len() ==> constraint_in_range(#[trigger] cs[i], n_wires)
}

fn check_lc(ts: &Vec<Term>, n_wires: u32) -> (r: bool)
    ensures
        r == lc_in_range(terms_view(ts@), n_wires as nat),
{
    let mut i: usize = 0;
    while i < ts.len()
        invariant
            i <= ts@.len(),
            forall|j: int| 0 <= j < i ==> (#[trigger] ts@[j]).wire_id < n_wires,
        decreases ts@.len() - i,
    {
        if ts[i].wire_id >= n_wires {
            assert(terms_view(ts@)[i as int].wire_id >= n_wires);
            return false;
        }
        i = i + 1;
    }
    assert forall|j: int| 0 <= j < terms_view(ts@).len() implies (#[trigger] terms_view(ts@)[j]).wire_id
        < n_wires by {
        assert(terms_view(ts@)[j] == ts@[j]@);
    }
    true
}

fn one_coefficient(fsize: u32) -> (r: Vec<u8>)
    requires
        fsize >= 1,
    ensures
        r@ == one_bytes(fsize as nat),
{
    let mut v: Vec<u8> = Vec::new();
    v.push(1u8);
    let mut i: u32 = 1;
    while i < fsize
        invariant
            1 <= i <= fsize,
            v@ == seq![1u8] + Seq::new((i - 1) as nat, |k: int| 0u8),
        decreases fsize - i,
    {
        v.push(0u8);
        i = i + 1;
        assert(v@ =~= seq![1u8] + Seq::new((i - 1) as nat, |k: int| 0u8));
    }
    v
}

fn plan_b_side(ts: &Vec<Term>, fsize: u32) -> (r: Vec<Term>)
    requires
        fsize >= 1,
    ensures
        terms_view(r@) == side_b(terms_view(ts@), fsize as nat),
{
    if ts.len() == 0 {
        let mut r: Vec<Term> = Vec::new();
        let t = Term { wire_id: 0, coefficient: one_coefficient(fsize) };
        r.push(t);
        assert(terms_view(r@) =~= seq![TermView { wire_id: 0, coefficient: one_bytes(fsize as nat) }]);
        r
    } else {
        copy_terms(ts)
    }
}

/// The constraints asserted to the backend, in the container's order, or
/// `Reference` where a term names a wire past the allocated ones.
pub open spec fn spec_plan(cs: Seq<ConstraintView>, n_wires: nat, fsize: nat) -> Result<
    Seq<ConstraintView>,
    R1csError,
> {
    if all_in_range(cs, n_wires) {
        Ok(cs.map_values(|c: ConstraintView| spec_planned(c, fsize)))
    } else {
        Err(R1csError::Reference)
    }
}

/// Checks every wire index against the allocated wires and gives the
/// constraints to assert: A and C as decoded, an empty B made the constant
/// one.
pub fn plan_constraints(r1cs: &R1CS) -> (r: Result<Vec<R1CSConstraint>, R1csError>)
    requires
        r1cs.wf(),
    ensures
        match r {
            Ok(cs) => spec_plan(r1cs@.constraints, r1cs.header.n_wires as nat, r1cs.header.field_size as nat)
                == Ok::<_, R1csError>(constraints_view(cs@)),
            Err(e) => spec_plan(r1cs@.constraints, r1cs.header.n_wires as nat, r1cs.header.field_size as nat)
                == Err::<Seq<ConstraintView>, _>(e),
        },
{
    let n_wires = r1cs.num_wires();
    let fsize = r1cs.header.field_size;
    let src = r1cs.constraints();
    let ghost cv = r1cs@.constraints;
    let mut out: Vec<R1CSConstraint> = Vec::new();
    let mut i: usize = 0;
    while i < src.len()
        invariant
            i <= src@.len(),
            fsize >= 1,
            cv == constraints_view(src@),
            cv == r1cs@.constraints,
            n_wires == r1cs.header.n_wires,
            fsize == r1cs.header.field_size,
            forall|j: int| 0 <= j < i ==> constraint_in_range(#[trigger] cv[j], n_wires as nat),
            constraints_view(out@) == cv.subrange(0, i as int).map_values(
                |c: ConstraintView| spec_planned(c, fsize as nat),
            ),
        decreases src@.len() - i,
    {
        let c = &src[i];
        assert(cv[i as int] == c@);
        if !check_lc(&c.a_terms, n_wires) || !check_lc(&c.b_terms, n_wires) || !check_lc(
            &c.c_terms,
            n_wires,
        ) {
            assert(!constraint_in_range(cv[i as int], n_wires as nat));
            assert(!all_in_range(cv, n_wires as nat));
            return Err(R1csError::Reference);
        }
        let p = R1CSConstraint {
            a_terms: copy_terms(&c.a_terms),
            b_terms: plan_b_side(&c.b_terms, fsize),
            c_terms: copy_terms(&c.c_terms),
        };
        let ghost prev = out@;
        out.push(p);
        proof {
            assert(constraints_view(out@) =~= constraints_view(prev).push(p@));
            assert(cv.subrange(0, i + 1).map_values(|c: ConstraintView| spec_planned(c, fsize as nat))
                =~= cv.subrange(0, i as int).map_values(|c: ConstraintView| spec_planned(c, fsize as nat)).push(
                spec_planned(cv[i as int], fsize as nat),
            ));
        }
        i = i + 1;
    }
    assert(cv.subrange(0, i as int) =~= cv);
    Ok(out)
}

fn copy_terms(ts: &Vec<Term>) -> (r: Vec<Term>)
    ensures
        terms_view(r@) == terms_view(ts@),
{
    let mut r: Vec<Term> = Vec::new();
    let mut i: usize = 0;
    while i < ts.len()
        invariant
            i <= ts@.len(),
            terms_view(r@) == terms_view(ts@).subrange(0, i as int),
        decreases ts@.len() - i,
    {
        let t = Term { wire_id: ts[i].wire_id, coefficient: copy_bytes(ts[i].coefficient.as_slice()) };
        let ghost prev = r@;
        let ghost tv = t@;
        assert(tv == ts@[i as int]@);
        r.push(t);
        assert(terms_view(r@) =~= terms_view(prev).push(tv));
        assert(terms_view(r@) =~= terms_view(ts@).subrange(0, i + 1));
        i = i + 1;
    }
    assert(terms_view(ts@).subrange(0, i as int) =~= terms_view(ts@));
    r
}

} // verus!
