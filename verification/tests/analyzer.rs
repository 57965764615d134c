use queuing::config::Config;
use queuing::errors::Error;
use queuing::queuing_system::QueuingSystem;
use queuing::queuing_system_characteristics::QueuingSystemCharacteristics;
use queuing::rational::Rational;

fn scenario(lam_num: i64, mu_num: i64, c: u32, k: u32) -> QueuingSystem {
    let states: usize = (c + k + 1) as usize;
    let mut initial: Vec<Rational> = Vec::new();
    initial.push(Rational::from_int(1));
    for _ in 1..states {
        initial.push(Rational::zero());
    }
    let config = Config {
        channel_count: c,
        queue_capacity: k,
        arrival_rate: Rational::new(lam_num, 1),
        service_rate: Rational::new(mu_num, 1),
        initial_state: initial,
        horizon_time: Rational::from_int(1),
        iteration_count: 100,
        step_size: Rational::new(1, 100),
    };
    QueuingSystem::new(config).expect("valid scenario")
}

#[test]
fn scenario_a_load_factor() {
    let qs = scenario(30, 5, 3, 3);
    assert_eq!(qs.calculate_load_factor().unwrap(), Rational::from_int(6));
}

#[test]
fn scenario_a_idle_probability() {
    let qs = scenario(30, 5, 3, 3);
    assert_eq!(
        qs.calculate_probability_of_downtime().unwrap(),
        Rational::new(1, 565)
    );
}

#[test]
fn scenario_a_state_probabilities() {
    let qs = scenario(30, 5, 3, 3);
    let probs = qs.calculate_probabilities().unwrap();
    assert_eq!(probs.len(), 4);
    assert_eq!(probs[0], Rational::new(1, 565));
    assert_eq!(probs[1], Rational::new(6, 565));
    assert_eq!(probs[2], Rational::new(18, 565));
    assert_eq!(probs[3], Rational::new(36, 565));
}

#[test]
fn scenario_a_queue_probabilities() {
    let qs = scenario(30, 5, 3, 3);
    let probs = qs.calculate_queue_probabilities().unwrap();
    assert_eq!(probs.len(), 3);
    assert_eq!(probs[0], Rational::new(72, 565));
    assert_eq!(probs[1], Rational::new(144, 565));
    assert_eq!(probs[2], Rational::new(288, 565));
}

#[test]
fn scenario_a_rejection_probability() {
    let qs = scenario(30, 5, 3, 3);
    assert_eq!(
        qs.calculate_rejection_probability().unwrap(),
        Rational::new(288, 565)
    );
}

#[test]
fn scenario_a_derived_metrics() {
    let qs = scenario(30, 5, 3, 3);
    // Lq = rho^(c+1) / ((c-1)! * (c-rho)^2) * P0 = 1296 / 18 / 565
    assert_eq!(
        qs.calculate_average_number_of_requests_in_queue().unwrap(),
        Rational::new(72, 565)
    );
    // Wq = Lq / lambda
    assert_eq!(
        qs.calculate_average_waiting_time_in_queue().unwrap(),
        Rational::new(12, 2825)
    );
    // L = Lq + rho
    assert_eq!(
        qs.calculate_total_number_of_requests().unwrap(),
        Rational::new(3462, 565)
    );
    // W = L / lambda, the textbook relation
    assert_eq!(
        qs.calculate_average_waiting_time().unwrap(),
        Rational::new(577, 2825)
    );
    assert_eq!(
        qs.calculate_average_time_in_system().unwrap(),
        Rational::new(577, 2825)
    );
}

#[test]
fn scenario_a_simple_means() {
    let qs = scenario(30, 5, 3, 3);
    // lambda * T with T = 1
    assert_eq!(
        qs.calculate_average_incoming_requests_during_t().unwrap(),
        Rational::from_int(30)
    );
    // 1 / mu
    assert_eq!(
        qs.calculate_average_service_time_per_request().unwrap(),
        Rational::new(1, 5)
    );
    // rho * T
    assert_eq!(
        qs.average_service_time_per_channel_for_t().unwrap(),
        Rational::from_int(6)
    );
}

#[test]
fn scenario_a_busy_channels() {
    let qs = scenario(30, 5, 3, 3);
    // sum of min(i, c) * P_i = (0 + 6 + 36 + 108 + 216 + 432 + 864) / 565
    assert_eq!(
        qs.calculate_average_busy_channels().unwrap(),
        Rational::new(1662, 565)
    );
}

#[test]
fn scenario_a_full_metrics_record() {
    let qs = scenario(30, 5, 3, 3);
    let m = qs.calculate_metrics().unwrap();
    assert_eq!(m.load_factor, Rational::from_int(6));
    assert_eq!(m.idle_probability, Rational::new(1, 565));
    assert_eq!(m.rejection_probability, Rational::new(288, 565));
    assert_eq!(m.average_queue_length, Rational::new(72, 565));
    assert_eq!(m.average_waiting_time_in_queue, Rational::new(12, 2825));
    assert_eq!(m.total_requests, Rational::new(3462, 565));
    assert_eq!(m.average_waiting_time, Rational::new(577, 2825));
    assert_eq!(m.average_time_in_system, Rational::new(577, 2825));
    assert_eq!(m.state_probabilities.len(), 4);
    assert_eq!(m.queue_probabilities.len(), 3);
}

#[test]
fn analyzer_is_idempotent() {
    // two calls with identical parameters produce bit-identical results
    let qs = scenario(30, 5, 3, 3);
    let m1 = qs.calculate_metrics().unwrap();
    let m2 = qs.calculate_metrics().unwrap();
    assert_eq!(m1.load_factor, m2.load_factor);
    assert_eq!(m1.idle_probability, m2.idle_probability);
    assert_eq!(m1.state_probabilities, m2.state_probabilities);
    assert_eq!(m1.queue_probabilities, m2.queue_probabilities);
    assert_eq!(m1.rejection_probability, m2.rejection_probability);
    assert_eq!(m1.average_incoming_requests, m2.average_incoming_requests);
    assert_eq!(m1.average_service_time, m2.average_service_time);
    assert_eq!(m1.average_busy_channels, m2.average_busy_channels);
    assert_eq!(m1.average_queue_length, m2.average_queue_length);
    assert_eq!(
        m1.average_waiting_time_in_queue,
        m2.average_waiting_time_in_queue
    );
    assert_eq!(m1.total_requests, m2.total_requests);
    assert_eq!(m1.average_waiting_time, m2.average_waiting_time);
    assert_eq!(m1.average_time_in_system, m2.average_time_in_system);
}

#[test]
fn scenario_b_loss_system() {
    // M/M/1/1: lambda = 2, mu = 5, c = 1, K = 0
    let qs = scenario(2, 5, 1, 0);
    // P0 = mu / (lambda + mu) = 5/7
    assert_eq!(
        qs.calculate_probability_of_downtime().unwrap(),
        Rational::new(5, 7)
    );
    // blocking probability P1 = 2/7
    assert_eq!(
        qs.calculate_rejection_probability().unwrap(),
        Rational::new(2, 7)
    );
    // with zero queue capacity the rejection probability equals the last
    // per-channel probability P_c exactly
    let probs = qs.calculate_probabilities().unwrap();
    assert_eq!(probs.len(), 2);
    assert_eq!(probs[1], qs.calculate_rejection_probability().unwrap());
    assert_eq!(qs.calculate_queue_probabilities().unwrap().len(), 0);
}

#[test]
fn loss_model_rejection_matches_last_channel_probability() {
    // another pure-loss system: c = 2, K = 0
    let qs = scenario(3, 2, 2, 0);
    let probs = qs.calculate_probabilities().unwrap();
    assert_eq!(
        probs[probs.len() - 1],
        qs.calculate_rejection_probability().unwrap()
    );
}

#[test]
fn undefined_result_when_load_factor_equals_channels() {
    // rho = 10 / 5 = 2 = c
    let qs = scenario(10, 5, 2, 3);
    assert_eq!(
        qs.calculate_average_number_of_requests_in_queue(),
        Err(Error::UndefinedResult)
    );
    assert_eq!(
        qs.calculate_average_waiting_time_in_queue(),
        Err(Error::UndefinedResult)
    );
    assert_eq!(
        qs.calculate_total_number_of_requests(),
        Err(Error::UndefinedResult)
    );
    assert_eq!(
        qs.calculate_average_waiting_time(),
        Err(Error::UndefinedResult)
    );
    assert_eq!(
        qs.calculate_average_time_in_system(),
        Err(Error::UndefinedResult)
    );
    assert!(matches!(qs.calculate_metrics(), Err(Error::UndefinedResult)));
    // the probabilities themselves stay well defined
    assert!(qs.calculate_probability_of_downtime().is_ok());
}

#[test]
fn factorial_values() {
    assert_eq!(<QueuingSystem as QueuingSystemCharacteristics>::factorial(0), 1);
    assert_eq!(<QueuingSystem as QueuingSystemCharacteristics>::factorial(1), 1);
    assert_eq!(<QueuingSystem as QueuingSystemCharacteristics>::factorial(5), 120);
    assert_eq!(
        <QueuingSystem as QueuingSystemCharacteristics>::factorial(20),
        2432902008176640000
    );
}

#[test]
fn overflow_is_reported() {
    // rho = 3 * 2^61 does not fit the canonical representation
    let big: i64 = 0x2000_0000_0000_0000;
    let qs = scenario(1, 1, 1, 0);
    let lam = Rational::new(big, 1);
    let mu = Rational::new(1, 3);
    let config = Config {
        channel_count: 1,
        queue_capacity: 0,
        arrival_rate: lam,
        service_rate: mu,
        initial_state: vec![Rational::from_int(1), Rational::zero()],
        horizon_time: Rational::from_int(1),
        iteration_count: 1,
        step_size: Rational::new(1, 10),
    };
    let huge = QueuingSystem::new(config).unwrap();
    assert_eq!(huge.calculate_load_factor(), Err(Error::Overflow));
    // the small system stays fine
    assert!(qs.calculate_load_factor().is_ok());
}
