use bhp_gadget::bhp::{BHPCRH, HashError};
use bhp_gadget::circuit::{Boolean, Circuit, Field, Mode};
use bhp_gadget::field::Fe;
use bhp_gadget::group::Group;
use snarkvm_curves::edwards_bls12::{EdwardsAffine, EdwardsProjective, Fq, Fr};
use snarkvm_curves::{AffineCurve, ProjectiveCurve};
use snarkvm_fields::PrimeField;

fn fe_of(v: Fq) -> Fe {
    Fe::from_limbs(v.to_bigint().0).unwrap()
}

/// Base points `s * G` for pseudo-random 64-bit scalars `s`, as native
/// points. (Scalars in arithmetic progression would make partial window sums
/// meet later chunk points, which the incomplete addition cannot handle.)
fn native_bases(num_windows: usize, window_size: usize) -> Vec<Vec<EdwardsAffine>> {
    let g = EdwardsAffine::prime_subgroup_generator();
    (0..num_windows)
        .map(|w| {
            (0..window_size)
                .map(|j| {
                    let mut s = (w as u64 * 1_000_003 + j as u64 + 1).wrapping_mul(0x9E37_79B9_7F4A_7C15);
                    s ^= s >> 29;
                    s = s.wrapping_mul(0xBF58_476D_1CE4_E5B9) | 1;
                    (g * Fr::from(s)).to_affine()
                })
                .collect()
        })
        .collect()
}

fn circuit_bases(native: &[Vec<EdwardsAffine>]) -> Vec<Vec<Group>> {
    native
        .iter()
        .map(|window| {
            window.iter().map(|p| Group::constant(fe_of(p.to_x_coordinate()), fe_of(p.to_y_coordinate()))).collect()
        })
        .collect()
}

/// The hash computed with the curve's own arithmetic: the x-coordinate of
/// the sum over chunks of `(1 + b0 + 2 b1) * (1 - 2 b2) * B`.
fn native_hash(bases: &[Vec<EdwardsAffine>], window_size: usize, bits: &[bool]) -> Fe {
    let mut padded = bits.to_vec();
    while padded.len() % 3 != 0 {
        padded.push(false);
    }
    let mut total: Option<EdwardsProjective> = None;
    for (w, window_bits) in padded.chunks(window_size * 3).enumerate() {
        for (j, chunk) in window_bits.chunks(3).enumerate() {
            let k = 1 + chunk[0] as u64 + 2 * chunk[1] as u64;
            let mut p = bases[w][j] * Fr::from(k);
            if chunk[2] {
                p = -p;
            }
            total = Some(match total {
                None => p,
                Some(t) => t + p,
            });
        }
    }
    fe_of(total.unwrap().to_affine().to_x_coordinate())
}

/// Deterministic pseudo-random bits.
fn sample_bits(seed: u64, n: usize) -> Vec<bool> {
    let mut state = seed.wrapping_mul(6364136223846793005).wrapping_add(1442695040888963407);
    (0..n)
        .map(|_| {
            state = state.wrapping_mul(6364136223846793005).wrapping_add(1442695040888963407);
            (state >> 33) & 1 == 1
        })
        .collect()
}

fn inject(cs: &mut Circuit, mode: Mode, bits: &[bool]) -> Vec<Boolean> {
    bits.iter().map(|b| cs.new_boolean(mode, *b)).collect()
}

fn check_hash<const NUM_WINDOWS: usize, const WINDOW_SIZE: usize>(
    mode: Mode,
    num_constants: u64,
    num_public: u64,
    num_private: u64,
    num_constraints: u64,
) {
    let native = native_bases(NUM_WINDOWS, WINDOW_SIZE);
    let circuit = BHPCRH::<NUM_WINDOWS, WINDOW_SIZE>::new(circuit_bases(&native)).unwrap();
    let num_input_bits = 128 * 8;
    for i in 0..10u64 {
        let input = sample_bits(i, num_input_bits);
        let expected = native_hash(&native, WINDOW_SIZE, &input);
        let mut cs = Circuit::new();
        let circuit_input = inject(&mut cs, mode, &input);
        let mut scope = cs.clone();
        let candidate = circuit.hash(&mut scope, &circuit_input).unwrap();
        assert_eq!(expected, candidate.value);
        assert!(scope.is_satisfied());
        assert_eq!(num_constants, scope.num_constants - cs.num_constants);
        assert_eq!(num_public, scope.num_public - cs.num_public);
        assert_eq!(num_private, scope.num_private - cs.num_private);
        assert_eq!(num_constraints, scope.num_constraints - cs.num_constraints);
    }
}

#[test]
fn test_hash_private() {
    check_hash::<32, 48>(Mode::Private, 2, 0, 1785, 1793);
}

#[test]
fn hash_public_costs_as_private() {
    check_hash::<32, 48>(Mode::Public, 2, 0, 1785, 1793);
}

#[test]
fn hash_constant_emits_nothing() {
    check_hash::<32, 48>(Mode::Constant, 2, 0, 0, 0);
}

fn small_params() -> (Vec<Vec<EdwardsAffine>>, BHPCRH<4, 2>) {
    let native = native_bases(4, 2);
    let crh = BHPCRH::<4, 2>::new(circuit_bases(&native)).unwrap();
    (native, crh)
}

fn hash_bits(crh: &BHPCRH<4, 2>, mode: Mode, bits: &[bool]) -> Result<Field, HashError> {
    let mut cs = Circuit::new();
    let input = inject(&mut cs, mode, bits);
    crh.hash(&mut cs, &input)
}

#[test]
fn length_boundaries() {
    let (native, crh) = small_params();
    // One window's worth of bits is too short, one more bit is enough.
    assert_eq!(hash_bits(&crh, Mode::Private, &[true; 6]).unwrap_err(), HashError::InputTooShort(6));
    let seven = sample_bits(3, 7);
    assert_eq!(hash_bits(&crh, Mode::Private, &seven).unwrap().value, native_hash(&native, 2, &seven));
    // The full capacity is accepted, one more bit is not.
    let full = sample_bits(4, 24);
    assert_eq!(hash_bits(&crh, Mode::Private, &full).unwrap().value, native_hash(&native, 2, &full));
    assert_eq!(hash_bits(&crh, Mode::Private, &sample_bits(5, 25)).unwrap_err(), HashError::InputTooLong(24));
    assert_eq!(hash_bits(&crh, Mode::Private, &[]).unwrap_err(), HashError::InputTooShort(6));
}

#[test]
fn rejected_input_emits_nothing() {
    let (_, crh) = small_params();
    let mut cs = Circuit::new();
    let input = inject(&mut cs, Mode::Private, &sample_bits(1, 30));
    let before = cs.clone();
    assert!(crh.hash(&mut cs, &input).is_err());
    assert_eq!(before.num_private, cs.num_private);
    assert_eq!(before.num_constraints, cs.num_constraints);
    assert_eq!(before.num_constants, cs.num_constants);
}

#[test]
fn padding_matches_explicit_zeros() {
    let (native, crh) = small_params();
    for len in [7usize, 8, 10, 11, 13, 14, 19, 23] {
        let bits = sample_bits(len as u64, len);
        let mut padded = bits.clone();
        while padded.len() % 3 != 0 {
            padded.push(false);
        }
        let a = hash_bits(&crh, Mode::Private, &bits).unwrap();
        let b = hash_bits(&crh, Mode::Private, &padded).unwrap();
        assert_eq!(a.value, b.value);
        assert_eq!(a.value, native_hash(&native, 2, &bits));
    }
}

#[test]
fn padding_bits_are_constants() {
    let (_, crh) = small_params();
    for (len, pad) in [(7usize, 2u64), (8, 1), (9, 0)] {
        let mut cs = Circuit::new();
        let input = inject(&mut cs, Mode::Private, &sample_bits(9, len));
        let before = cs.clone();
        crh.hash(&mut cs, &input).unwrap();
        assert_eq!(cs.num_constants - before.num_constants, pad);
    }
}

#[test]
fn counts_do_not_depend_on_values() {
    let (_, crh) = small_params();
    let mut counts = Vec::new();
    for seed in 0..6u64 {
        let mut cs = Circuit::new();
        let input = inject(&mut cs, Mode::Private, &sample_bits(seed, 20));
        crh.hash(&mut cs, &input).unwrap();
        counts.push((cs.num_constants, cs.num_public, cs.num_private, cs.num_constraints));
    }
    assert!(counts.iter().all(|c| *c == counts[0]));
}

#[test]
fn counts_follow_length() {
    let (_, crh) = small_params();
    // 20 bits: 7 chunks in 4 windows; 5 * 7 + 10 * 4 - 4 variables.
    // 19 bits: the last chunk holds two padding bits, one variable less.
    for (len, private, constraints, constants) in [(20usize, 71u64, 75u64, 1u64), (19, 70, 74, 2), (21, 71, 75, 0)] {
        let mut cs = Circuit::new();
        let input = inject(&mut cs, Mode::Private, &sample_bits(len as u64, len));
        let before = cs.clone();
        crh.hash(&mut cs, &input).unwrap();
        assert_eq!(cs.num_private - before.num_private, private);
        assert_eq!(cs.num_constraints - before.num_constraints, constraints);
        assert_eq!(cs.num_constants - before.num_constants, constants);
        assert!(cs.is_satisfied());
    }
}

#[test]
fn zero_input_is_deterministic_and_bit_sensitive() {
    let native = native_bases(32, 48);
    let crh = BHPCRH::<32, 48>::new(circuit_bases(&native)).unwrap();
    let zeros = vec![false; 1024];
    let run = |bits: &[bool]| {
        let mut cs = Circuit::new();
        let input = inject(&mut cs, Mode::Private, bits);
        crh.hash(&mut cs, &input).unwrap().value
    };
    let first = run(&zeros);
    assert_eq!(first, run(&zeros));
    let mut flipped = zeros.clone();
    flipped[500] = true;
    assert_ne!(first, run(&flipped));
}

#[test]
fn bad_parameters_are_refused() {
    let native = native_bases(4, 2);
    let mut short = circuit_bases(&native);
    short.pop();
    assert!(BHPCRH::<4, 2>::new(short).is_none());
    let mut narrow = circuit_bases(&native);
    narrow[2].pop();
    assert!(BHPCRH::<4, 2>::new(narrow).is_none());
    let mut variable = circuit_bases(&native);
    variable[1][0].x.constant = false;
    assert!(BHPCRH::<4, 2>::new(variable).is_none());
    let mut unreduced = circuit_bases(&native);
    unreduced[0][1].y.value = Fe { l0: u64::MAX, l1: u64::MAX, l2: u64::MAX, l3: u64::MAX };
    assert!(BHPCRH::<4, 2>::new(unreduced).is_none());
}

#[test]
fn equal_points_in_a_window_are_a_zero_divisor() {
    let native = native_bases(4, 2);
    let mut bases = circuit_bases(&native);
    bases[0][1] = bases[0][0];
    let crh = BHPCRH::<4, 2>::new(bases).unwrap();
    let mut cs = Circuit::new();
    let input = inject(&mut cs, Mode::Private, &[false; 12]);
    assert_eq!(crh.hash(&mut cs, &input).unwrap_err(), HashError::ZeroDivisor);
    assert!(!cs.is_satisfied());
    // other chunk bits pick 2B after B: the sum is defined
    let mut bits = [false; 12];
    bits[3] = true;
    let mut cs = Circuit::new();
    let input = inject(&mut cs, Mode::Private, &bits);
    assert!(crh.hash(&mut cs, &input).is_ok());
    assert!(cs.is_satisfied());
}

#[test]
fn bases_off_the_curve_are_refused() {
    let native = native_bases(4, 2);
    let mut bases = circuit_bases(&native);
    bases[3][0] = Group::constant(Fe::one(), Fe::one());
    assert!(BHPCRH::<4, 2>::new(bases).is_none());
}

#[test]
fn odd_window_count_matches_reference() {
    let native = native_bases(3, 2);
    let crh = BHPCRH::<3, 2>::new(circuit_bases(&native)).unwrap();
    for len in [13usize, 16, 18] {
        let bits = sample_bits(40 + len as u64, len);
        let mut cs = Circuit::new();
        let input = inject(&mut cs, Mode::Private, &bits);
        assert_eq!(crh.hash(&mut cs, &input).unwrap().value, native_hash(&native, 2, &bits));
    }
}
