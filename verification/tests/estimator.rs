use line_follower::estimator::{prepare, Prepared, Rounds, Snapshot, MAX_ROUNDS};
use line_follower::window::MAX_WINDOW;

fn snapshot(x: &[i32], n: usize) -> Snapshot {
    match prepare(x, n) {
        Prepared::Several(s) => s,
        _ => panic!("a window of {} samples has a snapshot", n),
    }
}

#[test]
fn empty_window_is_settled() {
    assert!(matches!(prepare(&[], 0), Prepared::Empty));
    assert!(matches!(prepare(&[7, 8, 9], 0), Prepared::Empty));
}

#[test]
fn single_sample_is_settled() {
    assert!(matches!(prepare(&[7], 1), Prepared::Single(7)));
    assert!(matches!(prepare(&[-3, 8, 9], 1), Prepared::Single(-3)));
    assert!(matches!(prepare(&[i32::MIN], 1), Prepared::Single(i32::MIN)));
}

#[test]
fn window_gives_a_sorted_snapshot() {
    let s = snapshot(&[10, 100, 10, 10], 4);
    assert_eq!(s.len(), 4);
    assert_eq!(s.to_vec(), vec![10, 10, 10, 100]);
    assert_eq!(s.get(0), 10);
    assert_eq!(s.get(3), 100);
    assert_eq!(s.sum(), 130);
}

#[test]
fn snapshot_takes_the_first_samples_only() {
    let s = snapshot(&[5, 1, 4, 99, -99], 3);
    assert_eq!(s.to_vec(), vec![1, 4, 5]);
    assert_eq!(s.sum(), 10);
}

#[test]
fn snapshot_leaves_the_window_as_it_was() {
    let x = [3, 1, 2];
    let s = snapshot(&x, 3);
    assert_eq!(s.to_vec(), vec![1, 2, 3]);
    assert_eq!(x, [3, 1, 2]);
}

#[test]
fn snapshot_does_not_depend_on_the_order() {
    let a = [4, 8, 15, 16, 23, 42, 15, 4];
    let b = [42, 15, 4, 4, 23, 8, 16, 15];
    let (sa, sb) = (snapshot(&a, 8), snapshot(&b, 8));
    assert_eq!(sa.to_vec(), sb.to_vec());
    assert_eq!(sa.to_vec(), vec![4, 4, 8, 15, 15, 16, 23, 42]);
    assert_eq!(sa.sum(), sb.sum());
    assert_eq!(sa.sum(), 127);
}

#[test]
fn constant_window_is_its_own_snapshot() {
    let x = [-7; 16];
    let s = snapshot(&x, 16);
    assert_eq!(s.to_vec(), x.to_vec());
    assert_eq!(s.sum(), -7 * 16);
}

#[test]
fn sum_is_exact_at_the_extremes() {
    let top = [i32::MAX; 64];
    assert_eq!(snapshot(&top, MAX_WINDOW).sum(), 64 * i32::MAX as i64);
    let bottom = [i32::MIN; 64];
    assert_eq!(snapshot(&bottom, MAX_WINDOW).sum(), 64 * i32::MIN as i64);
}

#[test]
fn capture_accepts_every_length() {
    assert_eq!(Snapshot::capture(&[], 0).len(), 0);
    assert_eq!(Snapshot::capture(&[], 0).sum(), 0);
    assert_eq!(Snapshot::capture(&[9, 1], 1).to_vec(), vec![9]);
    let full: Vec<i32> = (0..64).rev().collect();
    assert_eq!(Snapshot::capture(&full, 64).to_vec(), (0..64).collect::<Vec<i32>>());
}

#[test]
fn fresh_schedule_has_all_rounds_ahead() {
    let r = Rounds::new();
    assert!(r.pending());
    assert_eq!(r.rounds_used(), 0);
}

#[test]
fn schedule_stops_at_convergence() {
    let mut r = Rounds::new();
    r.advance(false);
    r.advance(false);
    assert!(r.pending());
    r.advance(true);
    assert!(!r.pending());
    assert_eq!(r.rounds_used(), 3);
    // Nothing is recorded once the schedule has ended.
    r.advance(false);
    assert!(!r.pending());
    assert_eq!(r.rounds_used(), 3);
}

#[test]
fn schedule_ends_after_the_last_round() {
    let mut r = Rounds::new();
    let mut rounds = 0;
    while r.pending() {
        r.advance(false);
        rounds += 1;
    }
    assert_eq!(rounds, 30);
    assert_eq!(MAX_ROUNDS, 30);
    assert_eq!(r.rounds_used(), 30);
    r.advance(false);
    assert_eq!(r.rounds_used(), 30);
    assert!(!r.pending());
}

#[test]
fn convergence_in_the_first_round_uses_one_round() {
    let mut r = Rounds::new();
    r.advance(true);
    assert!(!r.pending());
    assert_eq!(r.rounds_used(), 1);
}

#[test]
fn convergence_in_the_last_round_is_recorded() {
    let mut r = Rounds::new();
    for _ in 0..29 {
        r.advance(false);
    }
    assert!(r.pending());
    r.advance(true);
    assert!(!r.pending());
    assert_eq!(r.rounds_used(), 30);
}
