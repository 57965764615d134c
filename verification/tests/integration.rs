use queuing::config::Config;
use queuing::errors::Error;
use queuing::queuing_system::QueuingSystem;
use queuing::queuing_system_characteristics::QueuingSystemCharacteristics;
use queuing::rational::Rational;

fn make_config(
    lam: i64,
    mu: i64,
    c: u32,
    k: u32,
    initial: Vec<Rational>,
    iterations: u32,
    step_num: i64,
    step_den: i64,
) -> Config {
    Config {
        channel_count: c,
        queue_capacity: k,
        arrival_rate: Rational::new(lam, 1),
        service_rate: Rational::new(mu, 1),
        initial_state: initial,
        horizon_time: Rational::from_int(1),
        iteration_count: iterations,
        step_size: Rational::new(step_num, step_den),
    }
}

fn sum_of(v: &[Rational]) -> Rational {
    let mut s = Rational::zero();
    for e in v {
        s = s.add(e).unwrap();
    }
    s
}

fn abs_diff(a: &Rational, b: &Rational) -> Rational {
    let d = a.sub(b).unwrap();
    if d.is_nonneg() {
        d
    } else {
        d.neg()
    }
}

#[test]
fn trajectory_length_and_mass_conservation() {
    let initial = vec![Rational::from_int(1), Rational::zero()];
    let config = make_config(1, 1, 1, 0, initial, 10, 1, 2);
    let qs = QueuingSystem::new(config).unwrap();
    let traj = qs.integrate_system().unwrap();
    assert_eq!(traj.len(), 11);
    for (_, p) in &traj {
        assert_eq!(p.len(), 2);
        // every emitted vector sums to exactly one
        assert_eq!(sum_of(p), Rational::from_int(1));
    }
}

#[test]
fn trajectory_time_stamps() {
    let initial = vec![Rational::from_int(1), Rational::zero()];
    let config = make_config(1, 1, 1, 0, initial, 5, 1, 2);
    let qs = QueuingSystem::new(config).unwrap();
    let traj = qs.integrate_system().unwrap();
    for (i, (t, _)) in traj.iter().enumerate() {
        assert_eq!(*t, Rational::new(i as i64, 2));
    }
}

#[test]
fn initial_vector_is_renormalized() {
    // weights 3 and 1 normalize to 3/4 and 1/4
    let initial = vec![Rational::from_int(3), Rational::from_int(1)];
    let config = make_config(2, 5, 1, 0, initial, 0, 1, 10);
    let qs = QueuingSystem::new(config).unwrap();
    let traj = qs.integrate_system().unwrap();
    assert_eq!(traj.len(), 1);
    assert_eq!(traj[0].1[0], Rational::new(3, 4));
    assert_eq!(traj[0].1[1], Rational::new(1, 4));
}

#[test]
fn shape_mismatch_is_reported() {
    // three weights for a two-state system
    let initial = vec![
        Rational::from_int(1),
        Rational::zero(),
        Rational::zero(),
    ];
    let config = make_config(2, 5, 1, 0, initial, 5, 1, 10);
    let qs = QueuingSystem::new(config).unwrap();
    assert_eq!(qs.integrate_system(), Err(Error::ShapeMismatch));
}

#[test]
fn validation_errors() {
    let good = || vec![Rational::from_int(1), Rational::zero()];

    let mut c1 = make_config(2, 5, 1, 0, good(), 5, 1, 10);
    c1.arrival_rate = Rational::zero();
    assert!(matches!(
        QueuingSystem::new(c1),
        Err(Error::NonPositiveArrivalRate)
    ));

    let mut c2 = make_config(2, 5, 1, 0, good(), 5, 1, 10);
    c2.service_rate = Rational::from_int(-5);
    assert!(matches!(
        QueuingSystem::new(c2),
        Err(Error::NonPositiveServiceRate)
    ));

    let mut c3 = make_config(2, 5, 1, 0, good(), 5, 1, 10);
    c3.channel_count = 0;
    assert!(matches!(
        QueuingSystem::new(c3),
        Err(Error::NonPositiveChannelCount)
    ));

    let mut c4 = make_config(2, 5, 1, 0, good(), 5, 1, 10);
    c4.horizon_time = Rational::zero();
    assert!(matches!(
        QueuingSystem::new(c4),
        Err(Error::NonPositiveHorizon)
    ));

    let mut c5 = make_config(2, 5, 1, 0, good(), 5, 1, 10);
    c5.step_size = Rational::from_int(-1);
    assert!(matches!(
        QueuingSystem::new(c5),
        Err(Error::NonPositiveStepSize)
    ));

    let mut c6 = make_config(2, 5, 1, 0, good(), 5, 1, 10);
    c6.initial_state = vec![Rational::from_int(-1), Rational::from_int(2)];
    assert!(matches!(
        QueuingSystem::new(c6),
        Err(Error::InvalidInitialState)
    ));

    let mut c7 = make_config(2, 5, 1, 0, good(), 5, 1, 10);
    c7.initial_state = vec![Rational::zero(), Rational::zero()];
    assert!(matches!(
        QueuingSystem::new(c7),
        Err(Error::InvalidInitialState)
    ));

    let ok = make_config(2, 5, 1, 0, good(), 5, 1, 10);
    assert!(QueuingSystem::new(ok).is_ok());
}

#[test]
fn long_horizon_convergence_to_steady_state() {
    // M/M/1/1 with lambda = mu = 1 relaxes towards the steady state at
    // rate lambda + mu; twenty unit steps bring any valid start within
    // a tolerance of 1e-6 of {P_0, P_1}.
    let initial = vec![Rational::from_int(1), Rational::zero()];
    let config = make_config(1, 1, 1, 0, initial, 20, 1, 1);
    let qs = QueuingSystem::new(config).unwrap();
    let traj = qs.integrate_system().unwrap();
    let last = &traj[traj.len() - 1].1;

    let steady = qs.calculate_probabilities().unwrap();
    assert_eq!(steady[0], Rational::new(1, 2));
    assert_eq!(steady[1], Rational::new(1, 2));

    let tol = Rational::new(1, 1000000);
    for i in 0..last.len() {
        assert!(abs_diff(&last[i], &steady[i]).lt(&tol));
    }
}

#[test]
fn integration_is_restartable() {
    // re-running with identical inputs reproduces the trajectory exactly
    let initial = vec![Rational::from_int(1), Rational::zero()];
    let config = make_config(1, 1, 1, 0, initial, 10, 1, 2);
    let qs = QueuingSystem::new(config).unwrap();
    let t1 = qs.integrate_system().unwrap();
    let t2 = qs.integrate_system().unwrap();
    assert_eq!(t1, t2);
}

#[test]
fn convergence_from_a_different_start() {
    let initial = vec![Rational::new(1, 4), Rational::new(3, 4)];
    let config = make_config(1, 1, 1, 0, initial, 20, 1, 1);
    let qs = QueuingSystem::new(config).unwrap();
    let traj = qs.integrate_system().unwrap();
    let last = &traj[traj.len() - 1].1;
    let tol = Rational::new(1, 1000000);
    let half = Rational::new(1, 2);
    assert!(abs_diff(&last[0], &half).lt(&tol));
    assert!(abs_diff(&last[1], &half).lt(&tol));
}
