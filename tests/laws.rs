use bhp_gadget::bhp::{conditional_negation, montgomery_add, select};
use bhp_gadget::circuit::{Circuit, Field, Mode};
use bhp_gadget::field::Fe;

fn small(v: u64) -> Fe {
    Fe::from_limbs([v, 0, 0, 0]).unwrap()
}

#[test]
fn selection_picks_each_candidate() {
    let cands = vec![small(11), small(22), Fe::from_limbs([5, 6, 7, 8]).unwrap(), small(44)];
    let mut cs = Circuit::new();
    for (b0, b1, k) in [(false, false, 0usize), (true, false, 1), (false, true, 2), (true, true, 3)] {
        let c0 = cs.new_boolean(Mode::Private, b0);
        let c1 = cs.new_boolean(Mode::Private, b1);
        let both = cs.and(&c0, &c1);
        let r = select(&Field::from_boolean(&c0), &Field::from_boolean(&c1), &Field::from_boolean(&both), &cands);
        assert_eq!(r.value, cands[k]);
        assert!(!r.constant);
    }
}

#[test]
fn sign_correction_binds_signed_value() {
    let mut cs = Circuit::new();
    let y = cs.witness(small(1234), false);
    let clear = cs.new_boolean(Mode::Private, false);
    let set = cs.new_boolean(Mode::Private, true);
    let before = cs.num_constraints;
    assert_eq!(conditional_negation(&mut cs, &clear, &y).value, small(1234));
    assert_eq!(conditional_negation(&mut cs, &set, &y).value, Field::constant(small(1234)).negated().value);
    assert_eq!(cs.num_constraints - before, 2);
    assert!(cs.is_satisfied());
}

#[test]
fn montgomery_addition_costs_three() {
    let mut cs = Circuit::new();
    let p = (cs.witness(small(3), false), cs.witness(small(5), false));
    let q = (cs.witness(small(7), false), cs.witness(small(9), false));
    let before = (cs.num_private, cs.num_constraints);
    let (x, y) = montgomery_add(&mut cs, &p, &q);
    assert_eq!((cs.num_private - before.0, cs.num_constraints - before.1), (3, 3));
    // slope (9 - 5) / (7 - 3) = 1
    assert!(cs.is_satisfied());
    assert!(!x.constant && !y.constant);
    let k = (Field::constant(small(3)), Field::constant(small(5)));
    let l = (Field::constant(small(7)), Field::constant(small(9)));
    let before = cs.num_constraints;
    let (kx, _) = montgomery_add(&mut cs, &k, &l);
    assert_eq!(cs.num_constraints, before);
    assert_eq!(kx.value, x.value);
}
