use narrative_field::runs::{iterate, trajectory};

type Point = (f64, f64, f64);

fn distance(a: &Point, b: &Point) -> f64 {
    ((a.0 - b.0).powi(2) + (a.1 - b.1).powi(2) + (a.2 - b.2).powi(2)).sqrt()
}

/// One convergence step toward `target` at `rate`, as a resolution takes it.
fn converge_toward(target: Point, rate: f64) -> impl Fn(&Point) -> Point {
    move |p: &Point| {
        (
            p.0 + (target.0 - p.0) * rate,
            p.1 + (target.1 - p.1) * rate,
            p.2 + (target.2 - p.2) * rate,
        )
    }
}

#[test]
fn test_trajectory() {
    let traj = trajectory((0.0, 0.0, 0.0), 5, converge_toward((10.0, 0.0, 0.0), 0.5));
    assert_eq!(traj.len(), 6);
}

#[test]
fn test_trajectory_converges() {
    let fixed = (10.0, 0.0, 0.0);
    let traj = trajectory((0.0, 0.0, 0.0), 20, converge_toward(fixed, 0.5));
    let last = traj.last().unwrap();
    assert!(distance(last, &fixed) < distance(&(0.0, 0.0, 0.0), &fixed));
}

#[test]
fn test_resolve_tension() {
    // (magnitude, decay rate); each step decays over the resolution's convergence rate 0.5.
    let decay = |t: &(f64, f64)| (t.0 * (-t.1 * 0.5).exp(), t.1);
    let resolved = iterate((10.0, 0.5), 10, decay);
    assert!(resolved.0 < 10.0);
}

#[test]
fn trajectory_records_every_state() {
    let traj = trajectory(1u64, 4, |x: &u64| x * 3);
    assert_eq!(traj, vec![1, 3, 9, 27, 81]);
}

#[test]
fn trajectory_of_zero_steps_is_the_start() {
    let traj = trajectory(7i32, 0, |x: &i32| x + 1);
    assert_eq!(traj, vec![7]);
}

#[test]
fn trajectory_first_state_is_start() {
    let traj = trajectory(String::from("a"), 3, |s: &String| format!("{}b", s));
    assert_eq!(traj[0], "a");
    assert_eq!(traj[3], "abbb");
}

#[test]
fn iterate_applies_step_the_given_number_of_times() {
    assert_eq!(iterate(1u64, 10, |x: &u64| x * 2), 1024);
}

#[test]
fn iterate_of_zero_steps_is_the_start() {
    assert_eq!(iterate(42u8, 0, |x: &u8| x / 2), 42);
}

#[test]
fn iterate_ends_where_trajectory_ends() {
    let step = |x: &i64| 3 * x - 5;
    let traj = trajectory(4i64, 6, step);
    assert_eq!(iterate(4i64, 6, step), *traj.last().unwrap());
}

#[test]
fn iterate_in_two_stretches_equals_one() {
    let step = |x: &u32| (x * 7 + 1) % 101;
    let midway = iterate(5u32, 4, step);
    assert_eq!(iterate(midway, 9, step), iterate(5u32, 13, step));
    let whole = trajectory(5u32, 13, step);
    let head = trajectory(5u32, 4, step);
    let tail = trajectory(midway, 9, step);
    let mut joined = head.clone();
    joined.extend_from_slice(&tail[1..]);
    assert_eq!(joined, whole);
}

#[test]
fn tension_decay_shrinks_every_step() {
    let decay = |t: &(f64, f64)| (t.0 * (-t.1 * 0.5).exp(), t.1);
    let states = trajectory((10.0, 0.5), 10, decay);
    for pair in states.windows(2) {
        assert!(pair[1].0 < pair[0].0);
    }
}

#[test]
fn shorter_trajectory_is_prefix_of_longer() {
    let step = |x: &u64| x * x % 1009 + 2;
    let shorter = trajectory(3u64, 5, step);
    let longer = trajectory(3u64, 12, step);
    assert_eq!(shorter[..], longer[..6]);
}

#[test]
fn iterate_one_more_step_takes_one_step_from_the_shorter_end() {
    let step = |x: &i32| 2 * x - 3;
    let before = iterate(10i32, 7, step);
    assert_eq!(iterate(10i32, 8, step), step(&before));
    assert_eq!(iterate(10i32, 0, step), 10);
}
