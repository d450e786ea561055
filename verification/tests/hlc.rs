use graphite::hlc::{HLTimestamp, State};

fn hlts(s: i64, l: u16) -> HLTimestamp {
    HLTimestamp::new(s, l)
}

#[test]
fn it_works() {
    let zero = hlts(0, 0);
    let ops = vec![
        // Test cases in the form (seconds, event_ts, outcome).
        // Specifying event_ts as zero corresponds to calling `get_time`,
        // otherwise `update`.
        (2, zero, hlts(2, 0)),
        (2, zero, hlts(2, 1)),           // clock didn't move
        (1, zero, hlts(2, 2)),           // clock moved back
        (3, zero, hlts(3, 0)),           // finally ahead again
        (3, hlts(1, 3), hlts(3, 1)),     // event happens, seconds ahead but unchanged
        (3, hlts(3, 1), hlts(3, 2)),     // event happens at seconds, which is still unchanged
        (3, hlts(3, 99), hlts(3, 100)),  // event with larger logical, seconds unchanged
        (3, hlts(4, 100), hlts(4, 101)), // event with larger seconds, our seconds behind
        (5, hlts(4, 0), hlts(5, 0)),     // event behind seconds, but ahead of previous state
        (4, hlts(5, 99), hlts(5, 100)),
        (0, hlts(5, 50), hlts(5, 101)), // event at state, lower logical than state
    ];

    // Prepare fake clock and create State.
    let mut times = ops.iter().rev().map(|op| op.0).collect::<Vec<i64>>();
    let mut s = State::new_with(move || times.pop().unwrap());

    for op in &ops {
        let t = if op.1 == zero {
            s.get_time()
        } else {
            s.update(op.1.clone())
        };
        assert_eq!(t, op.2);
    }
}

#[test]
fn timestamps_order_by_seconds_then_logical() {
    let early = hlts(0, 0);
    let middle = hlts(1, 0);
    let late = hlts(1, 1);
    assert!(early < middle && middle < late);
    assert!(early < late);
    assert!(hlts(1, 65535) < hlts(2, 0));
    assert!(hlts(-1, 7) < hlts(0, 0));
    assert!(!(hlts(3, 4) < hlts(3, 4)));
    assert!(hlts(3, 4) <= hlts(3, 4));
    assert!(hlts(3, 5) > hlts(3, 4));
    assert!(hlts(4, 0) >= hlts(3, 9));
    assert_eq!(hlts(3, 4), hlts(3, 4));
    assert_ne!(hlts(3, 4), hlts(3, 5));
    assert_eq!(hlts(3, 4).cmp(&hlts(3, 5)), std::cmp::Ordering::Less);
    assert_eq!(hlts(4, 0).cmp(&hlts(3, 5)), std::cmp::Ordering::Greater);
    assert_eq!(hlts(4, 0).partial_cmp(&hlts(4, 0)), Some(std::cmp::Ordering::Equal));
}

#[test]
fn new_keeps_its_parts() {
    let t = HLTimestamp::new(-12, 34);
    assert_eq!(t.seconds, -12);
    assert_eq!(t.logical, 34);
    assert_eq!(t.seconds(), -12);
    assert_eq!(t.logical(), 34);
}

#[test]
fn get_time_increases_when_time_stalls_or_regresses() {
    let mut times = vec![3, 1, 2, 2];
    let mut s = State::new_with(move || times.pop().unwrap());
    assert_eq!(s.time(), hlts(0, 0));
    let a = s.get_time();
    let b = s.get_time();
    let c = s.get_time();
    let d = s.get_time();
    assert_eq!(a, hlts(2, 0));
    assert_eq!(b, hlts(2, 1));
    assert_eq!(c, hlts(2, 2));
    assert_eq!(d, hlts(3, 0));
    assert!(a < b && b < c && c < d);
    assert_eq!(s.time(), d);
}

#[test]
fn update_with_local_seconds_ahead_advances_the_local_counter() {
    let mut times = vec![3, 3];
    let mut s = State::new_with(move || times.pop().unwrap());
    assert_eq!(s.get_time(), hlts(3, 0));
    assert_eq!(s.update(hlts(1, 3)), hlts(3, 1));
}

#[test]
fn update_with_equal_seconds_takes_the_larger_counter() {
    let mut times = vec![0, 5];
    let mut s = State::new_with(move || times.pop().unwrap());
    assert_eq!(s.get_time(), hlts(5, 0));
    // Local state (5, 0); bring it to (5, 50) through a merge with (5, 49).
    let mut more = vec![0, 0];
    let mut t = State::new_with(move || more.pop().unwrap());
    assert_eq!(t.update(hlts(5, 49)), hlts(5, 50));
    assert_eq!(t.update(hlts(5, 99)), hlts(5, 100));
    assert_eq!(s.update(hlts(5, 0)), hlts(5, 1));
}

#[test]
fn tick_follows_the_physical_time_or_counts() {
    assert_eq!(hlts(2, 7).tick(3), hlts(3, 0));
    assert_eq!(hlts(2, 7).tick(2), hlts(2, 8));
    assert_eq!(hlts(2, 7).tick(-5), hlts(2, 8));
    assert_eq!(hlts(2, 65535).tick(3), hlts(3, 0));
    assert_eq!(hlts(i64::MAX, 0).tick(i64::MAX), hlts(i64::MAX, 1));
}

#[test]
fn merge_follows_its_four_cases() {
    // Physical time ahead of both sides.
    assert_eq!(hlts(4, 9).merge(5, hlts(4, 0)), hlts(5, 0));
    // Remote seconds ahead.
    assert_eq!(hlts(3, 100).merge(3, hlts(4, 100)), hlts(4, 101));
    // Local seconds ahead.
    assert_eq!(hlts(3, 0).merge(3, hlts(1, 3)), hlts(3, 1));
    // Equal seconds: the larger counter, plus one.
    assert_eq!(hlts(5, 50).merge(0, hlts(5, 99)), hlts(5, 100));
    assert_eq!(hlts(5, 100).merge(0, hlts(5, 50)), hlts(5, 101));
    assert_eq!(hlts(5, 7).merge(5, hlts(5, 7)), hlts(5, 8));
    // Physical time ahead of one side only does not reset the counter.
    assert_eq!(hlts(2, 3).merge(5, hlts(9, 1)), hlts(9, 2));
    assert_eq!(hlts(9, 3).merge(5, hlts(2, 1)), hlts(9, 4));
}

#[test]
fn merge_is_later_than_both_sides() {
    let local = hlts(7, 3);
    let remote = hlts(7, 9);
    let merged = local.merge(6, remote);
    assert!(local < merged);
    assert!(remote < merged);
}

#[test]
fn system_clock_starts_at_zero_and_moves_on() {
    let mut s = State::new();
    assert_eq!(s.time(), hlts(0, 0));
    let a = s.get_time();
    let b = s.get_time();
    assert!(hlts(0, 0) < a);
    assert!(a < b);
    // The system's time is well past the year 2001.
    assert!(a.seconds > 1_000_000_000);
}

#[test]
fn sendable_clock_is_behind_a_mutex() {
    let mu = State::new_sendable();
    let first = {
        let mut s = mu.lock().unwrap();
        s.get_time()
    };
    let second = {
        let mut s = mu.lock().unwrap();
        s.update(hlts(12345, 89))
    };
    assert!(first < second);
    assert!(hlts(12345, 89) < second);
}

#[test]
fn a_timestamp_reads_as_seconds_plus_logical() {
    assert_eq!(HLTimestamp::new(1, 2).to_string(), "1+2");
    assert_eq!(HLTimestamp::new(0, 0).to_string(), "0+0");
    assert_eq!(HLTimestamp::new(42, 0).to_string(), "42+0");
    assert_eq!(HLTimestamp::new(-5, 65535).to_string(), "-5+65535");
    assert_eq!(HLTimestamp::new(1_700_000_000, 10).to_string(), "1700000000+10");
    assert_eq!(HLTimestamp::new(i64::MAX, 9).to_string(), "9223372036854775807+9");
    assert_eq!(HLTimestamp::new(i64::MIN, 100).to_string(), "-9223372036854775808+100");
}

#[test]
fn the_first_timestamp_of_a_clock_reads_its_source() {
    let mut times = vec![42, 43, 44];
    let mut s = State::new_with(move || times.pop().unwrap());
    let ts = s.get_time();
    assert_eq!(ts.to_string(), "44+0");
}
