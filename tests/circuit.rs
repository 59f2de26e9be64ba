use ark_bls12_381::Fr;
use ark_ff::{BigInteger, One, PrimeField, Zero};
use r1cs_script::circuit::{plan_constraints, wire_kind, CircuitFromR1CS, WireKind};
use r1cs_script::r1cs::{encode_constraints, R1CSConstraint, R1csError, Term, R1CS};

fn u32le(out: &mut Vec<u8>, n: u32) {
    out.extend_from_slice(&n.to_le_bytes());
}

fn one32() -> Vec<u8> {
    let mut c = vec![0u8; 32];
    c[0] = 1;
    c
}

fn modulus32() -> Vec<u8> {
    Fr::MODULUS.to_bytes_le()
}

fn t(w: u32, c: Vec<u8>) -> Term {
    Term { wire_id: w, coefficient: c }
}

fn flat(wires: u32, public: u32, private: u32, cs: &Vec<R1CSConstraint>) -> Vec<u8> {
    let mut b = b"r1cs".to_vec();
    for n in [1u32, 4, wires, public, private, cs.len() as u32] {
        u32le(&mut b, n);
    }
    b.extend_from_slice(&encode_constraints(cs));
    b
}

/// {(x4)·(x1)=0, (p·x0+x4)·(x2)=0, (0)·(0)=(x1+x2+p·x3), (p·x0+x3)·(x3)=0}
fn scenario_constraints() -> Vec<R1CSConstraint> {
    let p = modulus32();
    vec![
        R1CSConstraint { a_terms: vec![t(4, one32())], b_terms: vec![t(1, one32())], c_terms: vec![] },
        R1CSConstraint {
            a_terms: vec![t(0, p.clone()), t(4, one32())],
            b_terms: vec![t(2, one32())],
            c_terms: vec![],
        },
        R1CSConstraint {
            a_terms: vec![],
            b_terms: vec![],
            c_terms: vec![t(1, one32()), t(2, one32()), t(3, p.clone())],
        },
        R1CSConstraint {
            a_terms: vec![t(0, p.clone()), t(3, one32())],
            b_terms: vec![t(3, one32())],
            c_terms: vec![],
        },
    ]
}

fn eval(lc: &[Term], w: &[Fr]) -> Fr {
    let mut acc = Fr::zero();
    for term in lc {
        acc += Fr::from_le_bytes_mod_order(&term.coefficient) * w[term.wire_id as usize];
    }
    acc
}

fn holds(c: &R1CSConstraint, w: &[Fr]) -> bool {
    eval(&c.a_terms, w) * eval(&c.b_terms, w) == eval(&c.c_terms, w)
}

#[test]
fn multiplexer_scenario() {
    let bytes = flat(5, 2, 2, &scenario_constraints());
    let r = R1CS::from_flat_bytes(&bytes).unwrap();
    assert_eq!(r.num_wires(), 5);
    assert_eq!(r.num_public_values(), 2);
    assert_eq!(r.num_constraints(), 4);
    let counts: Vec<(usize, usize, usize)> = r
        .constraints()
        .iter()
        .map(|c| (c.a_terms.len(), c.b_terms.len(), c.c_terms.len()))
        .collect();
    assert_eq!(counts, vec![(1, 1, 0), (2, 1, 0), (0, 0, 3), (2, 1, 0)]);
    assert_eq!(r.constraints(), &scenario_constraints());

    // x0 = 1, x1 = x2 = x3 = 0, x4 free.
    let w = [Fr::one(), Fr::zero(), Fr::zero(), Fr::zero(), Fr::from(7u64)];
    let planned = plan_constraints(&r).unwrap();
    assert_eq!(planned.len(), 4);
    for c in &planned {
        assert!(holds(c, &w));
    }
    assert!(holds(&planned[2], &w));
    // An empty A stays the zero combination; an empty B is the constant one.
    assert!(planned[2].a_terms.is_empty());
    assert_eq!(planned[2].b_terms, vec![t(0, one32())]);
    assert_eq!(planned[2].c_terms, scenario_constraints()[2].c_terms);
    // A witness that breaks the first constraint is caught.
    let bad = [Fr::one(), Fr::one(), Fr::zero(), Fr::zero(), Fr::from(7u64)];
    assert!(!holds(&planned[0], &bad));
}

#[test]
fn plan_keeps_order_and_fills_empty_b() {
    let cs = scenario_constraints();
    let r = R1CS::from_flat_bytes(&flat(5, 2, 2, &cs)).unwrap();
    let planned = plan_constraints(&r).unwrap();
    for (i, c) in cs.iter().enumerate() {
        assert_eq!(planned[i].a_terms, c.a_terms);
        if !c.b_terms.is_empty() {
            assert_eq!(planned[i].b_terms, c.b_terms);
        }
        assert_eq!(planned[i].c_terms, c.c_terms);
    }
}

#[test]
fn out_of_range_wire_is_reference_error() {
    let mut cs = scenario_constraints();
    cs[3].c_terms.push(t(5, one32()));
    let r = R1CS::from_flat_bytes(&flat(5, 2, 2, &cs)).unwrap();
    assert_eq!(plan_constraints(&r).err(), Some(R1csError::Reference));
    let mut cs = scenario_constraints();
    cs[0].b_terms.push(t(4, one32()));
    let r = R1CS::from_flat_bytes(&flat(5, 2, 2, &cs)).unwrap();
    assert!(plan_constraints(&r).is_ok());
}

#[test]
fn wire_kinds() {
    assert_eq!(wire_kind(0, 2), WireKind::One);
    assert_eq!(wire_kind(1, 2), WireKind::Public);
    assert_eq!(wire_kind(2, 2), WireKind::Public);
    assert_eq!(wire_kind(3, 2), WireKind::Private);
    assert_eq!(wire_kind(1, 0), WireKind::Private);
}

#[test]
fn sample_witness_and_public_inputs() {
    let r = R1CS::from_flat_bytes(&flat(5, 2, 2, &scenario_constraints())).unwrap();
    let c = CircuitFromR1CS::new(r);
    assert_eq!(c.witness_values, vec![1, 1, 2, 30, 40]);
    assert_eq!(c.get_public_inputs(), vec![1, 2]);
}
