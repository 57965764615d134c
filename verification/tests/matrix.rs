use queuing::config::Config;
use queuing::queuing_system::{GeneratorMatrix, QueuingSystem};
use queuing::rational::Rational;

fn build_system(lam: i64, mu: i64, c: u32, k: u32) -> QueuingSystem {
    let states: usize = (c + k + 1) as usize;
    let mut initial: Vec<Rational> = Vec::new();
    initial.push(Rational::from_int(1));
    for _ in 1..states {
        initial.push(Rational::zero());
    }
    let config = Config {
        channel_count: c,
        queue_capacity: k,
        arrival_rate: Rational::new(lam, 1),
        service_rate: Rational::new(mu, 1),
        initial_state: initial,
        horizon_time: Rational::from_int(1),
        iteration_count: 10,
        step_size: Rational::new(1, 100),
    };
    QueuingSystem::new(config).expect("valid parameters")
}

/// The historically divergent construction: a two-range loop over the
/// channel states and the queue states, kept here purely as a
/// cross-check against the shipped closed-form indexing.
fn two_range_reference(lam: i64, mu: i64, c: usize, k: usize) -> Vec<Vec<i64>> {
    let s: usize = c + k;
    let n: usize = s + 1;
    let mut m = vec![vec![0i64; n]; n];
    for i in 0..c {
        let death: i64 = (i as i64) * mu;
        let birth: i64 = lam;
        if i > 0 {
            m[i][i - 1] = death;
        }
        m[i][i] = -(birth + death);
        m[i][i + 1] = birth;
    }
    for i in c..=s {
        let death: i64 = (c as i64) * mu;
        let birth: i64 = if i < s { lam } else { 0 };
        m[i][i - 1] = death;
        m[i][i] = -(birth + death);
        if i < s {
            m[i][i + 1] = birth;
        }
    }
    m
}

fn assert_matrix_matches(mx: &GeneratorMatrix, reference: &[Vec<i64>]) {
    assert_eq!(mx.entries.len(), reference.len());
    for (row, ref_row) in mx.entries.iter().zip(reference.iter()) {
        assert_eq!(row.len(), ref_row.len());
        for (entry, expected) in row.iter().zip(ref_row.iter()) {
            assert_eq!(*entry, Rational::from_int(*expected));
        }
    }
}

#[test]
fn scenario_a_matrix_is_seven_by_seven() {
    let qs = build_system(30, 5, 3, 3);
    let mx = qs.generate_kolmogorov_matrix().unwrap();
    assert_eq!(mx.entries.len(), 7);
    for row in &mx.entries {
        assert_eq!(row.len(), 7);
    }
}

#[test]
fn scenario_a_matrix_entries() {
    let qs = build_system(30, 5, 3, 3);
    let mx = qs.generate_kolmogorov_matrix().unwrap();
    // birth rate lambda below the blocking state
    assert_eq!(mx.entries[0][1], Rational::from_int(30));
    assert_eq!(mx.entries[5][6], Rational::from_int(30));
    // death rate i * mu through the channel states, then saturated at c * mu
    assert_eq!(mx.entries[1][0], Rational::from_int(5));
    assert_eq!(mx.entries[2][1], Rational::from_int(10));
    assert_eq!(mx.entries[3][2], Rational::from_int(15));
    assert_eq!(mx.entries[6][5], Rational::from_int(15));
    // diagonal: negative total outflow; no birth out of the blocking state
    assert_eq!(mx.entries[0][0], Rational::from_int(-30));
    assert_eq!(mx.entries[3][3], Rational::from_int(-45));
    assert_eq!(mx.entries[6][6], Rational::from_int(-15));
    // everything off the three diagonals is zero
    assert_eq!(mx.entries[0][2], Rational::zero());
    assert_eq!(mx.entries[5][0], Rational::zero());
}

#[test]
fn matrix_rows_sum_to_zero_exactly() {
    let qs = build_system(30, 5, 3, 3);
    let mx = qs.generate_kolmogorov_matrix().unwrap();
    for row in &mx.entries {
        let mut sum = Rational::zero();
        for e in row {
            sum = sum.add(e).unwrap();
        }
        assert_eq!(sum, Rational::zero());
    }
}

#[test]
fn matrix_signs() {
    let qs = build_system(30, 5, 3, 3);
    let mx = qs.generate_kolmogorov_matrix().unwrap();
    for (i, row) in mx.entries.iter().enumerate() {
        for (j, e) in row.iter().enumerate() {
            if i == j {
                assert!(e.num <= 0);
            } else {
                assert!(e.num >= 0);
            }
        }
    }
}

#[test]
fn matrix_agrees_with_two_range_construction() {
    let qs = build_system(30, 5, 3, 3);
    let mx = qs.generate_kolmogorov_matrix().unwrap();
    let reference = two_range_reference(30, 5, 3, 3);
    assert_matrix_matches(&mx, &reference);

    let qs2 = build_system(2, 5, 1, 0);
    let mx2 = qs2.generate_kolmogorov_matrix().unwrap();
    let reference2 = two_range_reference(2, 5, 1, 0);
    assert_matrix_matches(&mx2, &reference2);

    let qs3 = build_system(7, 3, 2, 4);
    let mx3 = qs3.generate_kolmogorov_matrix().unwrap();
    let reference3 = two_range_reference(7, 3, 2, 4);
    assert_matrix_matches(&mx3, &reference3);
}

#[test]
fn single_channel_loss_matrix() {
    // M/M/1/1: two states, rates lambda and mu
    let qs = build_system(2, 5, 1, 0);
    let mx = qs.generate_kolmogorov_matrix().unwrap();
    assert_eq!(mx.entries.len(), 2);
    assert_eq!(mx.entries[0][0], Rational::from_int(-2));
    assert_eq!(mx.entries[0][1], Rational::from_int(2));
    assert_eq!(mx.entries[1][0], Rational::from_int(5));
    assert_eq!(mx.entries[1][1], Rational::from_int(-5));
}
