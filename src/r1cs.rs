//! The R1CS container: header, sparse constraints, and their byte encoding.

use crate::bytes::{le_u32, le_u64, push_bytes, read_u32_le, read_u64_le, u32_le_bytes, u32_to_le};
use vstd::prelude::*;
use vstd::slice::{slice_subrange, slice_to_vec};

verus! {

/// Most terms a single linear combination may declare; a larger count means
/// that decoding has lost its place in the stream.
pub const MAX_TERMS: u32 = 1000;

/// Most constraints a container may declare.
pub const MAX_CONSTRAINTS: u32 = 16777216;

/// Largest accepted field element, in bytes.
pub const MAX_FIELD_SIZE: u32 = 64;

/// The only container version understood.
pub const R1CS_VERSION: u32 = 1;

/// Section type of the header section.
pub const SECTION_HEADER: u32 = 1;

/// Section type of the constraint section.
pub const SECTION_CONSTRAINTS: u32 = 2;

/// Why a container, or a circuit built from one, was refused.
#[derive(Debug, Clone, Copy, PartialEq, Eq, Structural)]
pub enum R1csError {
    /// Bad magic tag, unsupported version, missing or repeated section, or
    /// bytes that end before a declared item does.
    Format,
    /// Header counts that contradict each other, or an implausible field size.
    Bounds,
    /// A term or constraint count above its ceiling.
    Overflow,
    /// A term whose wire index lies outside the allocated wires.
    Reference,
}

/// Structure to hold R1CS header information.
#[derive(Debug, Clone, PartialEq, Eq)]
pub struct R1CSHeader {
    pub field_size: u32,
    pub prime_bytes: Vec<u8>,
    pub n_wires: u32,
    pub n_pub_out: u32,
    pub n_pub_in: u32,
    pub n_prvt_in: u32,
    pub n_labels: u64,
    pub n_constraints: u32,
}

/// A term of a linear combination: a wire and its coefficient, the
/// coefficient kept as the little-endian bytes the container stores.
#[derive(Debug, Clone, PartialEq, Eq)]
pub struct Term {
    pub wire_id: u32,
    pub coefficient: Vec<u8>,
}

/// A constraint `A·w × B·w = C·w`, each side a sparse linear combination.
#[derive(Debug, Clone, PartialEq, Eq)]
pub struct R1CSConstraint {
    pub a_terms: Vec<Term>,
    pub b_terms: Vec<Term>,
    pub c_terms: Vec<Term>,
}

/// A decoded container.
pub struct R1CS {
    pub header: R1CSHeader,
    pub constraints: Vec<R1CSConstraint>,
}

/// What a header holds, with its prime as a byte sequence.
pub struct HeaderView {
    pub field_size: u32,
    pub prime_bytes: Seq<u8>,
    pub n_wires: u32,
    pub n_pub_out: u32,
    pub n_pub_in: u32,
    pub n_prvt_in: u32,
    pub n_labels: u64,
    pub n_constraints: u32,
}

/// What a term holds: its wire and its coefficient bytes.
pub struct TermView {
    pub wire_id: u32,
    pub coefficient: Seq<u8>,
}

/// What a constraint holds: the terms of its A, B and C sides.
pub struct ConstraintView {
    pub a: Seq<TermView>,
    pub b: Seq<TermView>,
    pub c: Seq<TermView>,
}

/// What a decoded container holds.
pub struct R1CSView {
    pub header: HeaderView,
    pub constraints: Seq<ConstraintView>,
}

impl View for R1CSHeader {
    type V = HeaderView;

    open spec fn view(&self) -> HeaderView {
        HeaderView {
            field_size: self.field_size,
            prime_bytes: self.prime_bytes@,
            n_wires: self.n_wires,
            n_pub_out: self.n_pub_out,
            n_pub_in: self.n_pub_in,
            n_prvt_in: self.n_prvt_in,
            n_labels: self.n_labels,
            n_constraints: self.n_constraints,
        }
    }
}

impl View for Term {
    type V = TermView;

    open spec fn view(&self) -> TermView {
        TermView { wire_id: self.wire_id, coefficient: self.coefficient@ }
    }
}

/// The terms of a combination, as views.
pub open spec fn terms_view(ts: Seq<Term>) -> Seq<TermView> {
    ts.map_values(|t: Term| t@)
}

impl View for R1CSConstraint {
    type V = ConstraintView;

    open spec fn view(&self) -> ConstraintView {
        ConstraintView {
            a: terms_view(self.a_terms@),
            b: terms_view(self.b_terms@),
            c: terms_view(self.c_terms@),
        }
    }
}

/// The constraints of a list, as views.
pub open spec fn constraints_view(cs: Seq<R1CSConstraint>) -> Seq<ConstraintView> {
    cs.map_values(|c: R1CSConstraint| c@)
}

impl View for R1CS {
    type V = R1CSView;

    open spec fn view(&self) -> R1CSView {
        R1CSView { header: self.header@, constraints: constraints_view(self.constraints@) }
    }
}

// ---------------------------------------------------------------------------
// The encoding, as a parser over byte sequences.
/// The `count` terms that start at `pos`, each a little-endian `u32` wire
/// index and `fsize` coefficient bytes, with the position after them; `None`
/// where the bytes end first.
pub open spec fn spec_terms(s: Seq<u8>, pos: int, count: nat, fsize: nat) -> Option<
    (Seq<TermView>, int),
>
    decreases count,
{
    if count == 0 {
        Some((Seq::empty(), pos))
    } else {
        match spec_terms(s, pos, (count - 1) as nat, fsize) {
            None => None,
            Some((ts, p)) => if p + 4 + fsize <= s.len() {
                Some(
                    (
                        ts.push(
                            TermView {
                                wire_id: le_u32(s.subrange(p, p + 4)) as u32,
                                coefficient: s.subrange(p + 4, p + 4 + fsize),
                            },
                        ),
                        p + 4 + fsize,
                    ),
                )
            } else {
                None
            },
        }
    }
}

/// A linear combination at `pos`: a `u32` term count, then the terms.
pub open spec fn spec_lc(s: Seq<u8>, pos: int, fsize: nat) -> Result<(Seq<TermView>, int), R1csError> {
    if pos + 4 > s.len() {
        Err(R1csError::Format)
    } else {
        let n = le_u32(s.subrange(pos, pos + 4));
        if n > MAX_TERMS {
            Err(R1csError::Overflow)
        } else {
            match spec_terms(s, pos + 4, n as nat, fsize) {
                Some(r) => Ok(r),
                None => Err(R1csError::Format),
            }
        }
    }
}

/// A constraint at `pos`: the combinations A, B and C in turn.
pub open spec fn spec_constraint(s: Seq<u8>, pos: int, fsize: nat) -> Result<(ConstraintView, int), R1csError> {
    match spec_lc(s, pos, fsize) {
        Err(e) => Err(e),
        Ok((a, p1)) => match spec_lc(s, p1, fsize) {
            Err(e) => Err(e),
            Ok((b, p2)) => match spec_lc(s, p2, fsize) {
                Err(e) => Err(e),
                Ok((c, p3)) => Ok((ConstraintView { a, b, c }, p3)),
            },
        },
    }
}

/// `count` constraints in file order from `pos`.
pub open spec fn spec_constraints(s: Seq<u8>, pos: int, count: nat, fsize: nat) -> Result<
    (Seq<ConstraintView>, int),
    R1csError,
>
    decreases count,
{
    if count == 0 {
        Ok((Seq::empty(), pos))
    } else {
        match spec_constraints(s, pos, (count - 1) as nat, fsize) {
            Err(e) => Err(e),
            Ok((cs, p)) => match spec_constraint(s, p, fsize) {
                Err(e) => Err(e),
                Ok((c, q)) => Ok((cs.push(c), q)),
            },
        }
    }
}

proof fn lemma_terms_none_stays(s: Seq<u8>, pos: int, i: nat, count: nat, fsize: nat)
    requires
        i <= count,
        spec_terms(s, pos, i, fsize) is None,
    ensures
        spec_terms(s, pos, count, fsize) is None,
    decreases count - i,
{
    if i < count {
        lemma_terms_none_stays(s, pos, i, (count - 1) as nat, fsize);
    }
}

proof fn lemma_terms_pos(s: Seq<u8>, pos: int, count: nat, fsize: nat)
    requires
        spec_terms(s, pos, count, fsize) is Some,
    ensures
        pos <= spec_terms(s, pos, count, fsize)->Some_0.1 <= s.len() || count == 0,
        spec_terms(s, pos, count, fsize)->Some_0.0.len() == count,
        spec_terms(s, pos, count, fsize)->Some_0.1 == pos + count * (4 + fsize),
    decreases count,
{
    if count > 0 {
        lemma_terms_pos(s, pos, (count - 1) as nat, fsize);
        assert(pos + (count - 1) * (4 + fsize) + 4 + fsize == pos + count * (4 + fsize))
            by (nonlinear_arith);
    }
}

fn read_terms(bytes: &[u8], pos: usize, count: u32, fsize: u32) -> (r: Option<(Vec<Term>, usize)>)
    requires
        pos <= bytes@.len(),
    ensures
        match r {
            Some((ts, p)) => spec_terms(bytes@, pos as int, count as nat, fsize as nat) == Some(
                (terms_view(ts@), p as int),
            ),
            None => spec_terms(bytes@, pos as int, count as nat, fsize as nat) is None,
        },
{
    let mut terms: Vec<Term> = Vec::new();
    let mut p: usize = pos;
    let mut i: u32 = 0;
    let fs = fsize as usize;
    while i < count
        invariant
            i <= count,
            pos <= p <= bytes@.len(),
            fs == fsize as usize,
            spec_terms(bytes@, pos as int, i as nat, fsize as nat) == Some(
                (terms_view(terms@), p as int),
            ),
        decreases count - i,
    {
        if bytes.len() - p < 4 || bytes.len() - p - 4 < fs {
            proof {
                assert(spec_terms(bytes@, pos as int, (i + 1) as nat, fsize as nat) is None);
                lemma_terms_none_stays(bytes@, pos as int, (i + 1) as nat, count as nat, fsize as nat);
            }
            return None;
        }
        let wire_id = read_u32_le(slice_subrange(bytes, p, p + 4));
        let coefficient = slice_to_vec(slice_subrange(bytes, p + 4, p + 4 + fs));
        let t = Term { wire_id, coefficient };
        let ghost prev = terms@;
        let ghost tv = t@;
        terms.push(t);
        proof {
            assert(terms_view(terms@) =~= terms_view(prev).push(tv));
        }
        p = p + 4 + fs;
        i = i + 1;
    }
    Some((terms, p))
}

fn read_lc(bytes: &[u8], pos: usize, fsize: u32) -> (r: Result<(Vec<Term>, usize), R1csError>)
    requires
        pos <= bytes@.len(),
    ensures
        match r {
            Ok((ts, p)) => spec_lc(bytes@, pos as int, fsize as nat) == Ok::<_, R1csError>(
                (terms_view(ts@), p as int),
            ) && pos <= p <= bytes@.len(),
            Err(e) => spec_lc(bytes@, pos as int, fsize as nat) == Err::<(Seq<TermView>, int), _>(e),
        },
{
    if bytes.len() - pos < 4 {
        return Err(R1csError::Format);
    }
    let n = read_u32_le(slice_subrange(bytes, pos, pos + 4));
    if n > MAX_TERMS {
        return Err(R1csError::Overflow);
    }
    match read_terms(bytes, pos + 4, n, fsize) {
        Some((ts, p)) => {
            proof {
                lemma_terms_pos(bytes@, pos + 4, n as nat, fsize as nat);
            }
            Ok((ts, p))
        },
        None => Err(R1csError::Format),
    }
}

fn read_constraint(bytes: &[u8], pos: usize, fsize: u32) -> (r: Result<(R1CSConstraint, usize), R1csError>)
    requires
        pos <= bytes@.len(),
    ensures
        match r {
            Ok((c, p)) => spec_constraint(bytes@, pos as int, fsize as nat) == Ok::<_, R1csError>(
                (c@, p as int),
            ) && pos <= p <= bytes@.len(),
            Err(e) => spec_constraint(bytes@, pos as int, fsize as nat) == Err::<(ConstraintView, int), _>(e),
        },
{
    let (a_terms, p1) = match read_lc(bytes, pos, fsize) {
        Ok(r) => r,
        Err(e) => return Err(e),
    };
    let (b_terms, p2) = match read_lc(bytes, p1, fsize) {
        Ok(r) => r,
        Err(e) => return Err(e),
    };
    let (c_terms, p3) = match read_lc(bytes, p2, fsize) {
        Ok(r) => r,
        Err(e) => return Err(e),
    };
    Ok((R1CSConstraint { a_terms, b_terms, c_terms }, p3))
}

fn read_constraints(bytes: &[u8], pos: usize, count: u32, fsize: u32) -> (r: Result<(Vec<R1CSConstraint>, usize), R1csError>)
    requires
        pos <= bytes@.len(),
    ensures
        match r {
            Ok((cs, p)) => spec_constraints(bytes@, pos as int, count as nat, fsize as nat) == Ok::<_, R1csError>(
                (constraints_view(cs@), p as int),
            ),
            Err(e) => spec_constraints(bytes@, pos as int, count as nat, fsize as nat) == Err::<
                (Seq<ConstraintView>, int),
                _,
            >(e),
        },
{
    let mut cs: Vec<R1CSConstraint> = Vec::new();
    let mut p: usize = pos;
    let mut i: u32 = 0;
    assert(constraints_view(cs@) =~= Seq::empty());
    while i < count
        invariant
            i <= count,
            pos <= p <= bytes@.len(),
            spec_constraints(bytes@, pos as int, i as nat, fsize as nat) == Ok::<_, R1csError>(
                (constraints_view(cs@), p as int),
            ),
        decreases count - i,
    {
        match read_constraint(bytes, p, fsize) {
            Ok((c, q)) => {
                let ghost prev = cs@;
                let ghost cv = c@;
                cs.push(c);
                proof {
                    assert(constraints_view(cs@) =~= constraints_view(prev).push(cv));
                }
                p = q;
            },
            Err(e) => {
                proof {
                    lemma_constraints_err_stays(bytes@, pos as int, (i + 1) as nat, count as nat, fsize as nat, e);
                }
                return Err(e);
            },
        }
        i = i + 1;
    }
    Ok((cs, p))
}

proof fn lemma_constraints_len(s: Seq<u8>, pos: int, count: nat, fsize: nat)
    requires
        spec_constraints(s, pos, count, fsize) is Ok,
    ensures
        spec_constraints(s, pos, count, fsize)->Ok_0.0.len() == count,
    decreases count,
{
    if count > 0 {
        lemma_constraints_len(s, pos, (count - 1) as nat, fsize);
    }
}

proof fn lemma_constraints_err_stays(s: Seq<u8>, pos: int, i: nat, count: nat, fsize: nat, e: R1csError)
    requires
        i <= count,
        spec_constraints(s, pos, i, fsize) == Err::<(Seq<ConstraintView>, int), _>(e),
    ensures
        spec_constraints(s, pos, count, fsize) == Err::<(Seq<ConstraintView>, int), _>(e),
    decreases count - i,
{
    if i < count {
        lemma_constraints_err_stays(s, pos, i, (count - 1) as nat, fsize, e);
    }
}

/// The constraint list that a stream of `count` encoded constraints at the
/// start of `s` decodes to.
pub open spec fn spec_decode_constraints(s: Seq<u8>, count: nat, fsize: nat) -> Result<Seq<ConstraintView>, R1csError> {
    if count > MAX_CONSTRAINTS {
        Err(R1csError::Overflow)
    } else {
        match spec_constraints(s, 0, count, fsize) {
            Ok((cs, _)) => Ok(cs),
            Err(e) => Err(e),
        }
    }
}

/// Decodes `count` constraints, in file order, from the start of `bytes`;
/// each coefficient takes `field_size` bytes. Bytes after the last
/// constraint are left alone.
pub fn decode_constraints(bytes: &[u8], count: u32, field_size: u32) -> (r: Result<Vec<R1CSConstraint>, R1csError>)
    ensures
        match r {
            Ok(cs) => spec_decode_constraints(bytes@, count as nat, field_size as nat) == Ok::<_, R1csError>(constraints_view(cs@)),
            Err(e) => spec_decode_constraints(bytes@, count as nat, field_size as nat) == Err::<Seq<ConstraintView>, _>(e),
        },
{
    if count > MAX_CONSTRAINTS {
        return Err(R1csError::Overflow);
    }
    match read_constraints(bytes, 0, count, field_size) {
        Ok((cs, _)) => Ok(cs),
        Err(e) => Err(e),
    }
}

// ---------------------------------------------------------------------------
// Encoding.
/// A term as the container stores it: the wire index's four bytes, then
/// the coefficient bytes.
pub open spec fn enc_term(t: TermView) -> Seq<u8> {
    u32_le_bytes(t.wire_id) + t.coefficient
}

/// Terms as the container stores them, one after another.
pub open spec fn enc_terms(ts: Seq<TermView>) -> Seq<u8>
    decreases ts.len(),
{
    if ts.len() == 0 {
        Seq::empty()
    } else {
        enc_terms(ts.drop_last()) + enc_term(ts.last())
    }
}

/// A linear combination as the container stores it: its `u32` term count,
/// then each term's wire index and coefficient bytes.
pub open spec fn enc_lc(ts: Seq<TermView>) -> Seq<u8> {
    u32_le_bytes(ts.len() as u32) + enc_terms(ts)
}

/// A constraint as the container stores it: A, B, then C.
pub open spec fn enc_constraint(c: ConstraintView) -> Seq<u8> {
    enc_lc(c.a) + enc_lc(c.b) + enc_lc(c.c)
}

/// A constraint list as the container stores it, in list order.
pub open spec fn enc_constraints(cs: Seq<ConstraintView>) -> Seq<u8>
    decreases cs.len(),
{
    if cs.len() == 0 {
        Seq::empty()
    } else {
        enc_constraints(cs.drop_last()) + enc_constraint(cs.last())
    }
}

/// A combination that the decoder accepts back: a term count within the
/// ceiling, and every coefficient `fsize` bytes long.
pub open spec fn lc_encodable(ts: Seq<TermView>, fsize: nat) -> bool {
    &&& ts.len() <= MAX_TERMS
    &&& forall|i: int| 0 <= i < ts.len() ==> (#[trigger] ts[i]).coefficient.len() == fsize
}

/// All three sides of the constraint are encodable.
pub open spec fn constraint_encodable(c: ConstraintView, fsize: nat) -> bool {
    lc_encodable(c.a, fsize) && lc_encodable(c.b, fsize) && lc_encodable(c.c, fsize)
}

/// A constraint list the decoder accepts back: a count within the
/// ceiling, and every constraint encodable.
pub open spec fn constraints_encodable(cs: Seq<ConstraintView>, fsize: nat) -> bool {
    &&& cs.len() <= MAX_CONSTRAINTS
    &&& forall|i: int| 0 <= i < cs.len() ==> constraint_encodable(#[trigger] cs[i], fsize)
}

proof fn lemma_split_at(s: Seq<u8>, pos: int, a: Seq<u8>, b: Seq<u8>)
    requires
        0 <= pos,
        pos + a.len() + b.len() <= s.len(),
        s.subrange(pos, pos + a.len() + b.len()) == a + b,
    ensures
        s.subrange(pos, pos + a.len()) == a,
        s.subrange(pos + a.len(), pos + a.len() + b.len()) == b,
{
    let ab = a + b;
    assert forall|i: int| 0 <= i < a.len() implies s[pos + i] == a[i] by {
        assert(s.subrange(pos, pos + a.len() + b.len())[i] == ab[i]);
    }
    assert forall|i: int| 0 <= i < b.len() implies s[pos + a.len() + i] == b[i] by {
        assert(s.subrange(pos, pos + a.len() + b.len())[a.len() + i] == ab[a.len() + i]);
    }
    assert(s.subrange(pos, pos + a.len()) =~= a);
    assert(s.subrange(pos + a.len(), pos + a.len() + b.len()) =~= b);
}

proof fn lemma_terms_round_trip(s: Seq<u8>, pos: int, ts: Seq<TermView>, fsize: nat)
    requires
        0 <= pos,
        forall|i: int| 0 <= i < ts.len() ==> (#[trigger] ts[i]).coefficient.len() == fsize,
        pos + enc_terms(ts).len() <= s.len(),
        s.subrange(pos, pos + enc_terms(ts).len()) == enc_terms(ts),
    ensures
        spec_terms(s, pos, ts.len(), fsize) == Some((ts, pos + enc_terms(ts).len())),
    decreases ts.len(),
{
    if ts.len() > 0 {
        let init = ts.drop_last();
        let t = ts.last();
        let e0 = enc_terms(init);
        let wb = u32_le_bytes(t.wire_id);
        assert(enc_terms(ts) == e0 + (wb + t.coefficient));
        lemma_split_at(s, pos, e0, wb + t.coefficient);
        assert forall|i: int| 0 <= i < init.len() implies (#[trigger] init[i]).coefficient.len()
            == fsize by {
            assert(init[i] == ts[i]);
        }
        lemma_terms_round_trip(s, pos, init, fsize);
        let p = pos + e0.len();
        crate::bytes::lemma_u32_le_round_trip(t.wire_id);
        assert(t.coefficient.len() == fsize);
        lemma_split_at(s, p, wb, t.coefficient);
        assert(init.push(t) =~= ts);
    } else {
        assert(ts =~= Seq::empty());
    }
}

proof fn lemma_lc_round_trip(s: Seq<u8>, pos: int, ts: Seq<TermView>, fsize: nat)
    requires
        0 <= pos,
        lc_encodable(ts, fsize),
        pos + enc_lc(ts).len() <= s.len(),
        s.subrange(pos, pos + enc_lc(ts).len()) == enc_lc(ts),
    ensures
        spec_lc(s, pos, fsize) == Ok::<_, R1csError>((ts, pos + enc_lc(ts).len())),
{
    let n = ts.len() as u32;
    crate::bytes::lemma_u32_le_round_trip(n);
    lemma_split_at(s, pos, u32_le_bytes(n), enc_terms(ts));
    lemma_terms_round_trip(s, pos + 4, ts, fsize);
}

proof fn lemma_constraint_round_trip(s: Seq<u8>, pos: int, c: ConstraintView, fsize: nat)
    requires
        0 <= pos,
        constraint_encodable(c, fsize),
        pos + enc_constraint(c).len() <= s.len(),
        s.subrange(pos, pos + enc_constraint(c).len()) == enc_constraint(c),
    ensures
        spec_constraint(s, pos, fsize) == Ok::<_, R1csError>((c, pos + enc_constraint(c).len())),
{
    let ea = enc_lc(c.a);
    let eb = enc_lc(c.b);
    let ec = enc_lc(c.c);
    lemma_split_at(s, pos, ea + eb, ec);
    lemma_split_at(s, pos, ea, eb);
    lemma_lc_round_trip(s, pos, c.a, fsize);
    lemma_lc_round_trip(s, pos + ea.len(), c.b, fsize);
    lemma_lc_round_trip(s, pos + ea.len() + eb.len(), c.c, fsize);
}

proof fn lemma_constraints_round_trip_at(s: Seq<u8>, pos: int, cs: Seq<ConstraintView>, fsize: nat)
    requires
        0 <= pos,
        forall|i: int| 0 <= i < cs.len() ==> constraint_encodable(#[trigger] cs[i], fsize),
        pos + enc_constraints(cs).len() <= s.len(),
        s.subrange(pos, pos + enc_constraints(cs).len()) == enc_constraints(cs),
    ensures
        spec_constraints(s, pos, cs.len(), fsize) == Ok::<_, R1csError>(
            (cs, pos + enc_constraints(cs).len()),
        ),
    decreases cs.len(),
{
    if cs.len() > 0 {
        let init = cs.drop_last();
        let c = cs.last();
        let e0 = enc_constraints(init);
        lemma_split_at(s, pos, e0, enc_constraint(c));
        assert forall|i: int| 0 <= i < init.len() implies constraint_encodable(#[trigger] init[i], fsize) by {
            assert(init[i] == cs[i]);
        }
        lemma_constraints_round_trip_at(s, pos, init, fsize);
        assert(constraint_encodable(cs[cs.len() - 1], fsize));
        lemma_constraint_round_trip(s, pos + e0.len(), c, fsize);
        assert(init.push(c) =~= cs);
    } else {
        assert(cs =~= Seq::empty());
    }
}

/// Encoding a constraint list and decoding it again gives the same list:
/// the same term order, wire indices and coefficient bytes.
pub proof fn lemma_constraints_round_trip(cs: Seq<ConstraintView>, fsize: nat)
    requires
        constraints_encodable(cs, fsize),
    ensures
        spec_decode_constraints(enc_constraints(cs), cs.len(), fsize) == Ok::<_, R1csError>(cs),
{
    let e = enc_constraints(cs);
    assert(e.subrange(0, e.len() as int) =~= e);
    lemma_constraints_round_trip_at(e, 0, cs, fsize);
}

fn push_lc(out: &mut Vec<u8>, ts: &Vec<Term>)
    requires
        ts@.len() <= u32::MAX,
    ensures
        final(out)@ == old(out)@ + enc_lc(terms_view(ts@)),
{
    let ghost tv = terms_view(ts@);
    let count = u32_to_le(ts.len() as u32);
    push_bytes(out, count.as_slice());
    let ghost start = out@;
    let mut i: usize = 0;
    while i < ts.len()
        invariant
            i <= ts@.len(),
            tv == terms_view(ts@),
            out@ == start + enc_terms(tv.subrange(0, i as int)),
        decreases ts@.len() - i,
    {
        let t = &ts[i];
        let wire = u32_to_le(t.wire_id);
        push_bytes(out, wire.as_slice());
        push_bytes(out, t.coefficient.as_slice());
        proof {
            let sub = tv.subrange(0, i + 1);
            assert(sub.drop_last() =~= tv.subrange(0, i as int));
            assert(sub.last() == t@);
        }
        i = i + 1;
    }
    assert(tv.subrange(0, i as int) =~= tv);
}

/// Encodes a constraint list as the container's constraint stream: for each
/// constraint, A, B and C, each as a `u32` term count and then the terms.
pub fn encode_constraints(cs: &Vec<R1CSConstraint>) -> (r: Vec<u8>)
    requires
        forall|i: int|
            0 <= i < cs@.len() ==> {
                &&& (#[trigger] cs@[i]).a_terms@.len() <= u32::MAX
                &&& cs@[i].b_terms@.len() <= u32::MAX
                &&& cs@[i].c_terms@.len() <= u32::MAX
            },
    ensures
        r@ == enc_constraints(constraints_view(cs@)),
{
    let ghost cv = constraints_view(cs@);
    let mut out: Vec<u8> = Vec::new();
    let mut i: usize = 0;
    while i < cs.len()
        invariant
            i <= cs@.len(),
            cv == constraints_view(cs@),
            out@ == enc_constraints(cv.subrange(0, i as int)),
            forall|j: int|
                0 <= j < cs@.len() ==> {
                    &&& (#[trigger] cs@[j]).a_terms@.len() <= u32::MAX
                    &&& cs@[j].b_terms@.len() <= u32::MAX
                    &&& cs@[j].c_terms@.len() <= u32::MAX
                },
        decreases cs@.len() - i,
    {
        let c = &cs[i];
        push_lc(&mut out, &c.a_terms);
        push_lc(&mut out, &c.b_terms);
        push_lc(&mut out, &c.c_terms);
        proof {
            let sub = cv.subrange(0, i + 1);
            assert(sub.drop_last() =~= cv.subrange(0, i as int));
            assert(sub.last() == c@);
        }
        i = i + 1;
    }
    assert(cv.subrange(0, i as int) =~= cv);
    out
}

proof fn lemma_terms_reencode(s: Seq<u8>, pos: int, count: nat, fsize: nat)
    requires
        0 <= pos <= s.len(),
        spec_terms(s, pos, count, fsize) is Some,
    ensures
        ({
            let (ts, p) = spec_terms(s, pos, count, fsize)->Some_0;
            &&& pos <= p <= s.len()
            &&& s.subrange(pos, p) == enc_terms(ts)
        }),
    decreases count,
{
    if count == 0 {
        assert(s.subrange(pos, pos) =~= enc_terms(Seq::empty()));
    } else {
        lemma_terms_reencode(s, pos, (count - 1) as nat, fsize);
        let (init, p0) = spec_terms(s, pos, (count - 1) as nat, fsize)->Some_0;
        let (ts, p) = spec_terms(s, pos, count, fsize)->Some_0;
        let t = ts.last();
        crate::bytes::lemma_le_u32_bytes(s.subrange(p0, p0 + 4));
        assert(ts.drop_last() =~= init);
        assert(u32_le_bytes(t.wire_id) == s.subrange(p0, p0 + 4));
        assert(s.subrange(pos, p) =~= s.subrange(pos, p0) + (s.subrange(p0, p0 + 4) + s.subrange(
            p0 + 4,
            p,
        )));
    }
}

proof fn lemma_lc_reencode(s: Seq<u8>, pos: int, fsize: nat)
    requires
        0 <= pos <= s.len(),
        spec_lc(s, pos, fsize) is Ok,
    ensures
        ({
            let (ts, p) = spec_lc(s, pos, fsize)->Ok_0;
            &&& pos <= p <= s.len()
            &&& s.subrange(pos, p) == enc_lc(ts)
        }),
{
    let n = le_u32(s.subrange(pos, pos + 4));
    crate::bytes::lemma_le_u32_bytes(s.subrange(pos, pos + 4));
    lemma_terms_pos(s, pos + 4, n as nat, fsize);
    lemma_terms_reencode(s, pos + 4, n as nat, fsize);
    let (ts, p) = spec_lc(s, pos, fsize)->Ok_0;
    assert(ts.len() as u32 == n as u32);
    assert(s.subrange(pos, p) =~= s.subrange(pos, pos + 4) + s.subrange(pos + 4, p));
}

proof fn lemma_constraint_reencode(s: Seq<u8>, pos: int, fsize: nat)
    requires
        0 <= pos <= s.len(),
        spec_constraint(s, pos, fsize) is Ok,
    ensures
        ({
            let (c, p) = spec_constraint(s, pos, fsize)->Ok_0;
            &&& pos <= p <= s.len()
            &&& s.subrange(pos, p) == enc_constraint(c)
        }),
{
    lemma_lc_reencode(s, pos, fsize);
    let p1 = spec_lc(s, pos, fsize)->Ok_0.1;
    lemma_lc_reencode(s, p1, fsize);
    let p2 = spec_lc(s, p1, fsize)->Ok_0.1;
    lemma_lc_reencode(s, p2, fsize);
    let p3 = spec_lc(s, p2, fsize)->Ok_0.1;
    assert(s.subrange(pos, p3) =~= s.subrange(pos, p1) + s.subrange(p1, p2) + s.subrange(p2, p3));
}

proof fn lemma_constraints_reencode(s: Seq<u8>, pos: int, count: nat, fsize: nat)
    requires
        0 <= pos <= s.len(),
        spec_constraints(s, pos, count, fsize) is Ok,
    ensures
        ({
            let (cs, p) = spec_constraints(s, pos, count, fsize)->Ok_0;
            &&& pos <= p <= s.len()
            &&& s.subrange(pos, p) == enc_constraints(cs)
        }),
    decreases count,
{
    if count == 0 {
        assert(s.subrange(pos, pos) =~= enc_constraints(Seq::empty()));
    } else {
        lemma_constraints_reencode(s, pos, (count - 1) as nat, fsize);
        let (init, p0) = spec_constraints(s, pos, (count - 1) as nat, fsize)->Ok_0;
        lemma_constraint_reencode(s, p0, fsize);
        let (cs, p) = spec_constraints(s, pos, count, fsize)->Ok_0;
        assert(cs.drop_last() =~= init);
        assert(s.subrange(pos, p) =~= s.subrange(pos, p0) + s.subrange(p0, p));
    }
}

/// Decoding loses nothing: a decoded constraint list, encoded again, gives
/// back the bytes it was read from.
pub proof fn lemma_constraints_reencode_exact(s: Seq<u8>, count: nat, fsize: nat)
    requires
        spec_decode_constraints(s, count, fsize) is Ok,
    ensures
        ({
            let e = enc_constraints(spec_decode_constraints(s, count, fsize)->Ok_0);
            &&& e.len() <= s.len()
            &&& s.subrange(0, e.len() as int) == e
        }),
{
    lemma_constraints_reencode(s, 0, count, fsize);
}


// ---------------------------------------------------------------------------
// The container.
/// The magic tag `r1cs` opens the bytes.
pub open spec fn has_magic(s: Seq<u8>) -> bool {
    &&& s.len() >= 4
    &&& s[0] == 0x72u8
    &&& s[1] == 0x31u8
    &&& s[2] == 0x63u8
    &&& s[3] == 0x73u8
}

/// The header section body at `pos`: field size, prime, wire counts, label
/// count, constraint count; `None` where the bytes end first.
pub open spec fn spec_header(s: Seq<u8>, pos: int) -> Option<(HeaderView, int)> {
    if pos + 4 > s.len() {
        None
    } else {
        let fs = le_u32(s.subrange(pos, pos + 4));
        let q = pos + 4 + fs;
        if q + 28 > s.len() {
            None
        } else {
            Some(
                (
                    HeaderView {
                        field_size: fs as u32,
                        prime_bytes: s.subrange(pos + 4, q),
                        n_wires: le_u32(s.subrange(q, q + 4)) as u32,
                        n_pub_out: le_u32(s.subrange(q + 4, q + 8)) as u32,
                        n_pub_in: le_u32(s.subrange(q + 8, q + 12)) as u32,
                        n_prvt_in: le_u32(s.subrange(q + 12, q + 16)) as u32,
                        n_labels: le_u64(s.subrange(q + 16, q + 24)) as u64,
                        n_constraints: le_u32(s.subrange(q + 24, q + 28)) as u32,
                    },
                    q + 28,
                ),
            )
        }
    }
}

/// Public inputs and outputs, plus private inputs, account for every wire
/// but the constant one.
pub open spec fn counts_consistent(h: HeaderView) -> bool {
    h.n_pub_out + h.n_pub_in + h.n_prvt_in == h.n_wires - 1
}

/// The structural checks on a header.
pub open spec fn header_valid(h: HeaderView) -> bool {
    &&& 1 <= h.field_size <= MAX_FIELD_SIZE
    &&& counts_consistent(h)
    &&& h.n_pub_out + h.n_pub_in <= h.n_wires
}

/// Where the header and constraint section bodies lie (start and end), and
/// where the section table has been read to.
pub struct SectionScan {
    pub header: Option<(int, int)>,
    pub constraints: Option<(int, int)>,
    pub end: int,
}

/// Reads `count` section entries from `pos`: a `u32` type, a `u64` size and
/// the body, each body inside the bytes. Sections of other types are skipped
/// by their size; a second header or constraint section is refused.
pub open spec fn spec_sections(s: Seq<u8>, pos: int, count: nat) -> Result<SectionScan, R1csError>
    decreases count,
{
    if count == 0 {
        Ok(SectionScan { header: None, constraints: None, end: pos })
    } else {
        match spec_sections(s, pos, (count - 1) as nat) {
            Err(e) => Err(e),
            Ok(sc) => {
                let p = sc.end;
                if p + 12 > s.len() {
                    Err(R1csError::Format)
                } else {
                    let ty = le_u32(s.subrange(p, p + 4));
                    let body = p + 12;
                    let next = body + le_u64(s.subrange(p + 4, p + 12));
                    if next > s.len() {
                        Err(R1csError::Format)
                    } else if ty == SECTION_HEADER {
                        if sc.header is Some {
                            Err(R1csError::Format)
                        } else {
                            Ok(SectionScan { header: Some((body, next)), constraints: sc.constraints, end: next })
                        }
                    } else if ty == SECTION_CONSTRAINTS {
                        if sc.constraints is Some {
                            Err(R1csError::Format)
                        } else {
                            Ok(SectionScan { header: sc.header, constraints: Some((body, next)), end: next })
                        }
                    } else {
                        Ok(SectionScan { header: sc.header, constraints: sc.constraints, end: next })
                    }
                }
            },
        }
    }
}

/// The header of a sectioned container, with the start and end of its
/// constraint section: magic, version and section table, then the header
/// section body read within its section.
pub open spec fn spec_layout(s: Seq<u8>) -> Result<(HeaderView, int, int), R1csError> {
    if s.len() < 12 || !has_magic(s) || le_u32(s.subrange(4, 8)) != R1CS_VERSION {
        Err(R1csError::Format)
    } else {
        match spec_sections(s, 12, le_u32(s.subrange(8, 12)) as nat) {
            Err(e) => Err(e),
            Ok(sc) => match (sc.header, sc.constraints) {
                (Some((hb, he)), Some((cb, ce))) => match spec_header(s.subrange(0, he), hb) {
                    None => Err(R1csError::Format),
                    Some((h, _)) => Ok((h, cb, ce)),
                },
                _ => Err(R1csError::Format),
            },
        }
    }
}

/// The container that the bytes of a sectioned file decode to; the
/// constraints fill their section exactly.
pub open spec fn spec_decode(s: Seq<u8>) -> Result<R1CSView, R1csError> {
    match spec_layout(s) {
        Err(e) => Err(e),
        Ok((h, cb, ce)) => if !header_valid(h) {
            Err(R1csError::Bounds)
        } else if h.n_constraints > MAX_CONSTRAINTS {
            Err(R1csError::Overflow)
        } else {
            match spec_constraints(s.subrange(0, ce), cb, h.n_constraints as nat, h.field_size as nat) {
                Ok((cs, end)) => if end == ce {
                    Ok(R1CSView { header: h, constraints: cs })
                } else {
                    Err(R1csError::Format)
                },
                Err(e) => Err(e),
            }
        },
    }
}

/// Every decoded container has consistent wire counts, and a header whose
/// counts disagree is refused with `Bounds`.
pub proof fn lemma_header_counts(s: Seq<u8>)
    ensures
        spec_decode(s) is Ok ==> counts_consistent(spec_decode(s)->Ok_0.header),
        spec_layout(s) is Ok && !counts_consistent(spec_layout(s)->Ok_0.0) ==> spec_decode(s)
            == Err::<R1CSView, _>(R1csError::Bounds),
{
}

fn check_magic(bytes: &[u8]) -> (r: bool)
    requires
        bytes@.len() >= 4,
    ensures
        r == has_magic(bytes@),
{
    bytes[0] == 0x72u8 && bytes[1] == 0x31u8 && bytes[2] == 0x63u8 && bytes[3] == 0x73u8
}

fn read_header_section(bytes: &[u8], pos: usize) -> (r: Option<(R1CSHeader, usize)>)
    requires
        pos <= bytes@.len(),
    ensures
        match r {
            Some((h, p)) => spec_header(bytes@, pos as int) == Some((h@, p as int)),
            None => spec_header(bytes@, pos as int) is None,
        },
{
    if bytes.len() - pos < 4 {
        return None;
    }
    let field_size = read_u32_le(slice_subrange(bytes, pos, pos + 4));
    let fs = field_size as usize;
    if bytes.len() - pos - 4 < fs || bytes.len() - pos - 4 - fs < 28 {
        return None;
    }
    let q = pos + 4 + fs;
    let prime_bytes = slice_to_vec(slice_subrange(bytes, pos + 4, q));
    let n_wires = read_u32_le(slice_subrange(bytes, q, q + 4));
    let n_pub_out = read_u32_le(slice_subrange(bytes, q + 4, q + 8));
    let n_pub_in = read_u32_le(slice_subrange(bytes, q + 8, q + 12));
    let n_prvt_in = read_u32_le(slice_subrange(bytes, q + 12, q + 16));
    let n_labels = read_u64_le(slice_subrange(bytes, q + 16, q + 24));
    let n_constraints = read_u32_le(slice_subrange(bytes, q + 24, q + 28));
    let h = R1CSHeader {
        field_size,
        prime_bytes,
        n_wires,
        n_pub_out,
        n_pub_in,
        n_prvt_in,
        n_labels,
        n_constraints,
    };
    Some((h, q + 28))
}

impl R1CSHeader {
    /// Whether the header passes the structural checks.
    pub fn is_valid(&self) -> (r: bool)
        ensures
            r == header_valid(self@),
    {
        let public = self.n_pub_out as u64 + self.n_pub_in as u64;
        1 <= self.field_size && self.field_size <= MAX_FIELD_SIZE && public + self.n_prvt_in as u64
            + 1 == self.n_wires as u64 && public <= self.n_wires as u64
    }
}

proof fn lemma_sections_err_stays(s: Seq<u8>, pos: int, i: nat, count: nat, e: R1csError)
    requires
        i <= count,
        spec_sections(s, pos, i) == Err::<SectionScan, _>(e),
    ensures
        spec_sections(s, pos, count) == Err::<SectionScan, _>(e),
    decreases count - i,
{
    if i < count {
        lemma_sections_err_stays(s, pos, i, (count - 1) as nat, e);
    }
}

/// A section span with its bounds as integers.
pub open spec fn span_view(o: Option<(usize, usize)>) -> Option<(int, int)> {
    match o {
        Some((a, b)) => Some((a as int, b as int)),
        None => None,
    }
}

/// Walks the section table; returns the header and constraint section bodies.
fn scan_sections(bytes: &[u8], pos: usize, count: u32) -> (r: Result<
    (Option<(usize, usize)>, Option<(usize, usize)>),
    R1csError,
>)
    requires
        pos <= bytes@.len(),
    ensures
        match r {
            Ok((hd, cs)) => spec_sections(bytes@, pos as int, count as nat) is Ok
                && spec_sections(bytes@, pos as int, count as nat)->Ok_0.header == span_view(hd)
                && spec_sections(bytes@, pos as int, count as nat)->Ok_0.constraints == span_view(cs),
            Err(e) => spec_sections(bytes@, pos as int, count as nat) == Err::<SectionScan, _>(e),
        },
{
    let mut header: Option<(usize, usize)> = None;
    let mut cons: Option<(usize, usize)> = None;
    let mut p: usize = pos;
    let mut i: u32 = 0;
    while i < count
        invariant
            i <= count,
            pos <= p <= bytes@.len(),
            spec_sections(bytes@, pos as int, i as nat) == Ok::<_, R1csError>(
                SectionScan { header: span_view(header), constraints: span_view(cons), end: p as int },
            ),
        decreases count - i,
    {
        if bytes.len() - p < 12 {
            proof {
                lemma_sections_err_stays(bytes@, pos as int, (i + 1) as nat, count as nat, R1csError::Format);
            }
            return Err(R1csError::Format);
        }
        let ty = read_u32_le(slice_subrange(bytes, p, p + 4));
        let size = read_u64_le(slice_subrange(bytes, p + 4, p + 12));
        let body = p + 12;
        if size > (bytes.len() - body) as u64 {
            proof {
                lemma_sections_err_stays(bytes@, pos as int, (i + 1) as nat, count as nat, R1csError::Format);
            }
            return Err(R1csError::Format);
        }
        let next = body + size as usize;
        if ty == SECTION_HEADER {
            if header.is_some() {
                proof {
                    lemma_sections_err_stays(bytes@, pos as int, (i + 1) as nat, count as nat, R1csError::Format);
                }
                return Err(R1csError::Format);
            }
            header = Some((body, next));
        } else if ty == SECTION_CONSTRAINTS {
            if cons.is_some() {
                proof {
                    lemma_sections_err_stays(bytes@, pos as int, (i + 1) as nat, count as nat, R1csError::Format);
                }
                return Err(R1csError::Format);
            }
            cons = Some((body, next));
        }
        p = next;
        i = i + 1;
    }
    Ok((header, cons))
}

impl R1CS {
    /// The structural invariant of a decoded container: its header passes
    /// the checks.
    pub open spec fn wf(&self) -> bool {
        header_valid(self.header@)
    }

    /// Decodes a sectioned container: magic tag `r1cs`, version, a section
    /// table; the header and constraint sections are found by type, others
    /// skipped by their size.
    pub fn from_bytes(bytes: &[u8]) -> (r: Result<R1CS, R1csError>)
        ensures
            match r {
                Ok(x) => {
                    &&& spec_decode(bytes@) == Ok::<_, R1csError>(x@)
                    &&& x.wf()
                    &&& x.constraints@.len() == x.header.n_constraints
                },
                Err(e) => spec_decode(bytes@) == Err::<R1CSView, _>(e),
            },
            !has_magic(bytes@) ==> r == Err::<R1CS, _>(R1csError::Format),
    {
        if bytes.len() < 12 || !check_magic(bytes) {
            return Err(R1csError::Format);
        }
        let version = read_u32_le(slice_subrange(bytes, 4, 8));
        if version != R1CS_VERSION {
            return Err(R1csError::Format);
        }
        let num_sections = read_u32_le(slice_subrange(bytes, 8, 12));
        let (hspan, cspan) = match scan_sections(bytes, 12, num_sections) {
            Ok(r) => r,
            Err(e) => return Err(e),
        };
        let (hb, he, cb, ce) = match (hspan, cspan) {
            (Some((hb, he)), Some((cb, ce))) => (hb, he, cb, ce),
            _ => return Err(R1csError::Format),
        };
        proof {
            lemma_sections_bounds(bytes@, 12, num_sections as nat);
        }
        let hbytes = slice_subrange(bytes, 0, he);
        let header = match read_header_section(hbytes, hb) {
            Some((h, _)) => h,
            None => return Err(R1csError::Format),
        };
        if !header.is_valid() {
            return Err(R1csError::Bounds);
        }
        if header.n_constraints > MAX_CONSTRAINTS {
            return Err(R1csError::Overflow);
        }
        let cbytes = slice_subrange(bytes, 0, ce);
        let constraints = match read_constraints(cbytes, cb, header.n_constraints, header.field_size) {
            Ok((cs, end)) => {
                if end != ce {
                    return Err(R1csError::Format);
                }
                cs
            },
            Err(e) => return Err(e),
        };
        proof {
            lemma_constraints_len(cbytes@, cb as int, header.n_constraints as nat, header.field_size as nat);
        }
        Ok(R1CS { header, constraints })
    }
}

proof fn lemma_sections_bounds(s: Seq<u8>, pos: int, count: nat)
    requires
        0 <= pos <= s.len(),
        spec_sections(s, pos, count) is Ok,
    ensures
        ({
            let sc = spec_sections(s, pos, count)->Ok_0;
            &&& pos <= sc.end <= s.len()
            &&& (sc.header matches Some((b, e)) ==> pos <= b <= e <= s.len())
            &&& (sc.constraints matches Some((b, e)) ==> pos <= b <= e <= s.len())
        }),
    decreases count,
{
    if count > 0 {
        lemma_sections_bounds(s, pos, (count - 1) as nat);
    }
}

/// The header of a flat container: after magic and version, the field
/// element size in 64-bit words, then the wire, public input, private input
/// and constraint counts, all `u32`.
pub open spec fn spec_flat_header(s: Seq<u8>) -> HeaderView {
    HeaderView {
        field_size: (8 * le_u32(s.subrange(8, 12))) as u32,
        prime_bytes: Seq::empty(),
        n_wires: le_u32(s.subrange(12, 16)) as u32,
        n_pub_out: 0,
        n_pub_in: le_u32(s.subrange(16, 20)) as u32,
        n_prvt_in: le_u32(s.subrange(20, 24)) as u32,
        n_labels: 0,
        n_constraints: le_u32(s.subrange(24, 28)) as u32,
    }
}

/// The container that the bytes of a flat file decode to: a fixed
/// 28-byte header followed at once by the constraints.
pub open spec fn spec_decode_flat(s: Seq<u8>) -> Result<R1CSView, R1csError> {
    if s.len() < 28 || !has_magic(s) || le_u32(s.subrange(4, 8)) != R1CS_VERSION {
        Err(R1csError::Format)
    } else if 8 * le_u32(s.subrange(8, 12)) > MAX_FIELD_SIZE || !header_valid(spec_flat_header(s)) {
        Err(R1csError::Bounds)
    } else {
        let h = spec_flat_header(s);
        if h.n_constraints > MAX_CONSTRAINTS {
            Err(R1csError::Overflow)
        } else {
            match spec_constraints(s, 28, h.n_constraints as nat, h.field_size as nat) {
                Ok((cs, _)) => Ok(R1CSView { header: h, constraints: cs }),
                Err(e) => Err(e),
            }
        }
    }
}

/// Decoded flat headers have consistent wire counts, and one whose counts
/// disagree is refused with `Bounds`.
pub proof fn lemma_flat_header_counts(s: Seq<u8>)
    ensures
        spec_decode_flat(s) is Ok ==> counts_consistent(spec_decode_flat(s)->Ok_0.header),
        s.len() >= 28 && has_magic(s) && le_u32(s.subrange(4, 8)) == R1CS_VERSION && !counts_consistent(
            spec_flat_header(s),
        ) ==> spec_decode_flat(s) == Err::<R1CSView, _>(R1csError::Bounds),
{
}

impl R1CS {
    /// Decodes a flat container: magic tag `r1cs`, version, the fixed header
    /// of `spec_flat_header`, then the constraint stream.
    pub fn from_flat_bytes(bytes: &[u8]) -> (r: Result<R1CS, R1csError>)
        ensures
            match r {
                Ok(x) => {
                    &&& spec_decode_flat(bytes@) == Ok::<_, R1csError>(x@)
                    &&& x.wf()
                    &&& x.constraints@.len() == x.header.n_constraints
                },
                Err(e) => spec_decode_flat(bytes@) == Err::<R1CSView, _>(e),
            },
            !has_magic(bytes@) ==> r == Err::<R1CS, _>(R1csError::Format),
    {
        if bytes.len() < 28 || !check_magic(bytes) {
            return Err(R1csError::Format);
        }
        let version = read_u32_le(slice_subrange(bytes, 4, 8));
        if version != R1CS_VERSION {
            return Err(R1csError::Format);
        }
        let words = read_u32_le(slice_subrange(bytes, 8, 12));
        if words > MAX_FIELD_SIZE / 8 {
            return Err(R1csError::Bounds);
        }
        let header = R1CSHeader {
            field_size: 8 * words,
            prime_bytes: Vec::new(),
            n_wires: read_u32_le(slice_subrange(bytes, 12, 16)),
            n_pub_out: 0,
            n_pub_in: read_u32_le(slice_subrange(bytes, 16, 20)),
            n_prvt_in: read_u32_le(slice_subrange(bytes, 20, 24)),
            n_labels: 0,
            n_constraints: read_u32_le(slice_subrange(bytes, 24, 28)),
        };
        assert(header@ == spec_flat_header(bytes@)) by {
            assert(header.prime_bytes@ =~= Seq::<u8>::empty());
        }
        if !header.is_valid() {
            return Err(R1csError::Bounds);
        }
        if header.n_constraints > MAX_CONSTRAINTS {
            return Err(R1csError::Overflow);
        }
        let constraints = match read_constraints(bytes, 28, header.n_constraints, header.field_size) {
            Ok((cs, _)) => cs,
            Err(e) => return Err(e),
        };
        proof {
            lemma_constraints_len(bytes@, 28, header.n_constraints as nat, header.field_size as nat);
        }
        Ok(R1CS { header, constraints })
    }

    /// Get the number of wires in the circuit.
    pub fn num_wires(&self) -> (r: u32)
        ensures
            r == self.header.n_wires,
    {
        self.header.n_wires
    }

    /// Get the number of public outputs in the circuit.
    pub fn num_public_outputs(&self) -> (r: u32)
        ensures
            r == self.header.n_pub_out,
    {
        self.header.n_pub_out
    }

    /// Get the number of public inputs in the circuit.
    pub fn num_public_inputs(&self) -> (r: u32)
        ensures
            r == self.header.n_pub_in,
    {
        self.header.n_pub_in
    }

    /// Get the total number of public values (outputs + inputs).
    pub fn num_public_values(&self) -> (r: u32)
        requires
            self.wf(),
        ensures
            r == self.header.n_pub_out + self.header.n_pub_in,
    {
        self.header.n_pub_out + self.header.n_pub_in
    }

    /// Get the number of private inputs in the circuit.
    pub fn num_private_inputs(&self) -> (r: u32)
        ensures
            r == self.header.n_prvt_in,
    {
        self.header.n_prvt_in
    }

    /// Get the number of constraints the header declares.
    pub fn num_constraints(&self) -> (r: u32)
        ensures
            r == self.header.n_constraints,
    {
        self.header.n_constraints
    }

    /// Get the prime field modulus bytes from the header.
    pub fn prime_field_modulus(&self) -> (r: &[u8])
        ensures
            r@ == self.header.prime_bytes@,
    {
        self.header.prime_bytes.as_slice()
    }

    /// Get all constraints of the circuit, in file order.
    pub fn constraints(&self) -> (r: &Vec<R1CSConstraint>)
        ensures
            r == &self.constraints,
    {
        &self.constraints
    }
}

/// In a decoded sectioned container, the constraint section's body is
/// exactly the encoding of the decoded constraints.
pub proof fn lemma_container_reencode(s: Seq<u8>)
    requires
        spec_decode(s) is Ok,
    ensures
        ({
            let (_, cb, ce) = spec_layout(s)->Ok_0;
            s.subrange(cb, ce) == enc_constraints(spec_decode(s)->Ok_0.constraints)
        }),
{
    let (h, cb, ce) = spec_layout(s)->Ok_0;
    let sc = spec_sections(s, 12, le_u32(s.subrange(8, 12)) as nat)->Ok_0;
    lemma_sections_bounds(s, 12, le_u32(s.subrange(8, 12)) as nat);
    let t = s.subrange(0, ce);
    lemma_constraints_reencode(t, cb, h.n_constraints as nat, h.field_size as nat);
    assert(t.subrange(cb, ce) =~= s.subrange(cb, ce));
}

} // verus!

