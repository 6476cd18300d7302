use refind_conf::progress::{first_step, next_step, Next};

#[test]
fn first_step_starts_at_the_first_step() {
    assert_eq!(first_step(3), Next::Run(0));
    assert_eq!(first_step(1), Next::Run(0));
    assert_eq!(first_step(0), Next::Done);
}

#[test]
fn next_step_goes_on_after_a_success() {
    assert_eq!(next_step(3, 0, true), Next::Run(1));
    assert_eq!(next_step(3, 1, true), Next::Run(2));
    assert_eq!(next_step(3, 2, true), Next::Done);
    assert_eq!(next_step(1, 0, true), Next::Done);
    assert_eq!(next_step(0, 0, true), Next::Done);
    assert_eq!(next_step(3, usize::MAX, true), Next::Done);
}

#[test]
fn next_step_stops_at_a_failure() {
    assert_eq!(next_step(3, 0, false), Next::Abort);
    assert_eq!(next_step(3, 2, false), Next::Abort);
    assert_eq!(next_step(2, 1, false), Next::Abort);
}

fn carried_out(steps: usize, outcomes: &[bool]) -> (Vec<usize>, Next) {
    let mut ran = Vec::new();
    let mut next = first_step(steps);
    while let Next::Run(position) = next {
        ran.push(position);
        next = next_step(steps, position, outcomes[position]);
    }
    (ran, next)
}

#[test]
fn a_plan_runs_in_order_to_its_end_or_to_the_first_failure() {
    assert_eq!(carried_out(3, &[true, true, true]), (vec![0, 1, 2], Next::Done));
    assert_eq!(carried_out(3, &[true, false, true]), (vec![0, 1], Next::Abort));
    assert_eq!(carried_out(3, &[false, true, true]), (vec![0], Next::Abort));
    assert_eq!(carried_out(2, &[true, false]), (vec![0, 1], Next::Abort));
    assert_eq!(carried_out(0, &[]), (vec![], Next::Done));
}
