use graphite::codec::MAX_NESTING;
use graphite::event::{Action, Datum, Event};
use graphite::hlc::HLTimestamp;
use graphite::storage::{
    decode_row, encode_event, EventStorage, Operation, Row, StoreError,
};

fn event(id: u128, seconds: i64, logical: u16) -> Event {
    Event {
        id,
        hlc: HLTimestamp::new(seconds, logical),
        action: Action::AddFact {
            subject: id + 1000,
            predicate: String::from("title"),
            datum: Datum::String(format!("event {}", id)),
        },
        actor: 77,
        version: 0,
    }
}

fn too_deep(id: u128, seconds: i64, logical: u16) -> Event {
    let mut action = Action::Transaction { actions: Vec::new() };
    for _ in 0..MAX_NESTING {
        action = Action::Transaction { actions: vec![action] };
    }
    Event { id, hlc: HLTimestamp::new(seconds, logical), action, actor: 77, version: 0 }
}

fn replay(log: &EventStorage) -> Vec<Event> {
    let mut seen = Vec::new();
    let outcome = log.play(|e| {
        seen.push(e);
        true
    });
    assert_eq!(outcome, Ok(()));
    seen
}

fn replay_from(log: &EventStorage, seconds: i64, logical: u16) -> Vec<(i64, u16)> {
    let mut seen = Vec::new();
    let outcome = log.play_from(HLTimestamp::new(seconds, logical), |e| {
        seen.push((e.hlc.seconds, e.hlc.logical));
        true
    });
    assert_eq!(outcome, Ok(()));
    seen
}

#[test]
fn a_new_log_is_empty() {
    let log = EventStorage::new();
    assert_eq!(log.len(), 0);
    assert!(!log.contains(1));
    assert_eq!(replay(&log), Vec::new());
    assert_eq!(log.first_at_or_after(HLTimestamp::new(0, 0)), 0);
}

#[test]
fn a_recorded_event_is_replayed_equal_in_every_field() {
    let event = Event {
        id: 0xa1a2a3a4b1b2c1c2d1d2d3d4d5d6d7d8,
        hlc: HLTimestamp::new(1_700_000_000, 12),
        action: Action::Transaction {
            actions: vec![
                Action::CreateEntity { id: 5 },
                Action::AddFact {
                    subject: 5,
                    predicate: String::from("weight"),
                    datum: Datum::Float(72.5f64.to_bits()),
                },
                Action::RemoveFact { subject: 5, predicate: String::from("old") },
                Action::DeleteEntity { id: 4 },
            ],
        },
        actor: 0xffeeddccbbaa99887766554433221100,
        version: 3,
    };
    let again = event.clone();
    assert_eq!(again, event);
    let mut log = EventStorage::new();
    assert_eq!(log.record(event), Ok(()));
    let seen = replay(&log);
    assert_eq!(seen.len(), 1);
    assert_eq!(seen[0], again);
    assert_eq!(seen[0].id, again.id);
    assert_eq!(seen[0].hlc, again.hlc);
    assert_eq!(seen[0].action, again.action);
    assert_eq!(seen[0].actor, again.actor);
    assert_eq!(seen[0].version, again.version);
}

#[test]
fn copies_are_equal_to_what_they_copy() {
    let deep = too_deep(4, 5, 6);
    assert_eq!(deep.clone(), deep);
    assert_eq!(deep.action.clone(), deep.action);
    let datum = Datum::String(String::from("copy"));
    assert_eq!(datum.clone(), datum);
    let row = encode_event(&event(9, -3, 4)).unwrap();
    assert_eq!(row.clone(), row);
}

#[test]
fn a_row_holds_the_fields_of_its_event() {
    let row = encode_event(&event(9, -3, 4)).unwrap();
    assert_eq!(row.id, 9);
    assert_eq!(row.hlc_seconds, -3);
    assert_eq!(row.hlc_logical, 4);
    assert_eq!(row.actor, 77);
    assert_eq!(row.version, 0);
    assert_eq!(row.action[0], 1);
    assert_eq!(decode_row(&row), Ok(event(9, -3, 4)));
}

#[test]
fn an_event_without_payload_has_no_row() {
    assert_eq!(encode_event(&too_deep(1, 1, 1)), Err(StoreError::Serialization));
}

#[test]
fn a_row_with_a_broken_payload_holds_no_event() {
    let mut row = encode_event(&event(9, 1, 1)).unwrap();
    row.action.push(0);
    assert_eq!(decode_row(&row), Err(StoreError::Serialization));
}

#[test]
fn events_are_replayed_in_timestamp_order_whatever_the_order_of_recording() {
    let stamps = [(5, 0), (2, 7), (9, 1), (2, 0), (5, 3), (-1, 9), (2, 8), (5, 1)];
    let mut log = EventStorage::new();
    for (k, (seconds, logical)) in stamps.iter().enumerate() {
        assert_eq!(log.record(event(k as u128, *seconds, *logical)), Ok(()));
    }
    assert_eq!(log.len(), 8);
    let seen: Vec<(i64, u16)> =
        replay(&log).iter().map(|e| (e.hlc.seconds, e.hlc.logical)).collect();
    assert_eq!(seen, vec![(-1, 9), (2, 0), (2, 7), (2, 8), (5, 0), (5, 1), (5, 3), (9, 1)]);
    let ids: Vec<u128> = replay(&log).iter().map(|e| e.id).collect();
    assert_eq!(ids, vec![5, 3, 1, 6, 0, 7, 4, 2]);
}

#[test]
fn events_with_equal_timestamps_are_replayed_in_the_order_of_recording() {
    let mut log = EventStorage::new();
    for id in [3u128, 1, 2] {
        assert_eq!(log.record(event(id, 4, 4)), Ok(()));
    }
    assert_eq!(log.record(event(9, 4, 3)), Ok(()));
    let ids: Vec<u128> = replay(&log).iter().map(|e| e.id).collect();
    assert_eq!(ids, vec![9, 3, 1, 2]);
}

#[test]
fn events_are_read_by_their_place_in_the_replay_order() {
    let mut log = EventStorage::new();
    assert_eq!(log.record(event(1, 8, 0)), Ok(()));
    assert_eq!(log.record(event(2, 3, 0)), Ok(()));
    assert_eq!(log.event_at(0), Ok(event(2, 3, 0)));
    assert_eq!(log.event_at(1), Ok(event(1, 8, 0)));
    let mut broken = encode_event(&event(3, 5, 0)).unwrap();
    broken.action.clear();
    let log = EventStorage::open(vec![broken]).unwrap();
    assert_eq!(log.event_at(0), Err(StoreError::Serialization));
}

#[test]
fn an_identifier_is_recorded_once() {
    let mut log = EventStorage::new();
    assert_eq!(log.record(event(1, 1, 0)), Ok(()));
    assert_eq!(
        log.record(event(1, 2, 0)),
        Err(StoreError::Persistence { operation: Operation::Insert })
    );
    assert_eq!(log.len(), 1);
    assert!(log.contains(1));
    assert_eq!(replay(&log), vec![event(1, 1, 0)]);
}

#[test]
fn an_event_without_payload_is_not_recorded() {
    let mut log = EventStorage::new();
    assert_eq!(log.record(event(1, 1, 0)), Ok(()));
    // Serialization comes before the identifier is looked at.
    assert_eq!(log.record(too_deep(1, 2, 0)), Err(StoreError::Serialization));
    assert_eq!(log.record(too_deep(2, 2, 0)), Err(StoreError::Serialization));
    assert_eq!(replay(&log), vec![event(1, 1, 0)]);
}

#[test]
fn a_batch_is_recorded_as_a_whole() {
    let mut log = EventStorage::new();
    assert_eq!(log.record(event(1, 5, 0)), Ok(()));
    assert_eq!(log.record_batch(vec![event(2, 9, 0), event(3, 1, 0), event(4, 5, 0)]), Ok(()));
    let ids: Vec<u128> = replay(&log).iter().map(|e| e.id).collect();
    assert_eq!(ids, vec![3, 1, 4, 2]);
    assert_eq!(log.record_batch(Vec::new()), Ok(()));
    assert_eq!(log.len(), 4);
}

#[test]
fn a_batch_whose_second_event_has_no_payload_leaves_nothing() {
    let mut log = EventStorage::new();
    let outcome = log.record_batch(vec![event(1, 1, 0), too_deep(2, 2, 0), event(3, 3, 0)]);
    assert_eq!(outcome, Err(StoreError::Serialization));
    assert_eq!(log.len(), 0);
    assert_eq!(replay(&log), Vec::new());
}

#[test]
fn a_batch_that_fails_at_its_last_event_leaves_the_log_as_it_was() {
    let mut log = EventStorage::new();
    assert_eq!(log.record(event(7, 4, 0)), Ok(()));
    let taken = log.record_batch(vec![event(1, 1, 0), event(2, 2, 0), event(7, 3, 0)]);
    assert_eq!(taken, Err(StoreError::Persistence { operation: Operation::Insert }));
    assert_eq!(replay(&log), vec![event(7, 4, 0)]);
    let twice = log.record_batch(vec![event(1, 1, 0), event(2, 2, 0), event(1, 3, 0)]);
    assert_eq!(twice, Err(StoreError::Persistence { operation: Operation::Insert }));
    assert_eq!(replay(&log), vec![event(7, 4, 0)]);
    assert!(!log.contains(1));
    assert!(!log.contains(2));
}

#[test]
fn the_first_failure_of_a_batch_is_reported() {
    let mut log = EventStorage::new();
    assert_eq!(log.record(event(7, 4, 0)), Ok(()));
    let first = log.record_batch(vec![event(7, 1, 0), too_deep(2, 2, 0)]);
    assert_eq!(first, Err(StoreError::Persistence { operation: Operation::Insert }));
    let second = log.record_batch(vec![too_deep(2, 2, 0), event(7, 1, 0)]);
    assert_eq!(second, Err(StoreError::Serialization));
    assert_eq!(log.len(), 1);
}

#[test]
fn play_from_selects_by_seconds_first_and_logical_second() {
    let mut log = EventStorage::new();
    let stamps = [(1, 9), (2, 3), (2, 5), (2, 7), (3, 0), (4, 6)];
    for (k, (seconds, logical)) in stamps.iter().enumerate() {
        assert_eq!(log.record(event(k as u128, *seconds, *logical)), Ok(()));
    }
    // Later seconds with a smaller counter are in; equal seconds with a
    // smaller counter are out.
    assert_eq!(replay_from(&log, 2, 5), vec![(2, 5), (2, 7), (3, 0), (4, 6)]);
    assert_eq!(replay_from(&log, 2, 6), vec![(2, 7), (3, 0), (4, 6)]);
    assert_eq!(replay_from(&log, 2, 8), vec![(3, 0), (4, 6)]);
    assert_eq!(replay_from(&log, 0, 0).len(), 6);
    assert_eq!(replay_from(&log, 1, 9).len(), 6);
    assert_eq!(replay_from(&log, 4, 6), vec![(4, 6)]);
    assert_eq!(replay_from(&log, 4, 7), Vec::new());
    assert_eq!(log.first_at_or_after(HLTimestamp::new(2, 5)), 2);
    assert_eq!(log.first_at_or_after(HLTimestamp::new(2, 6)), 3);
    assert_eq!(log.first_at_or_after(HLTimestamp::new(9, 0)), 6);
}

#[test]
fn events_from_a_timestamp_come_in_replay_order() {
    let mut log = EventStorage::new();
    for (id, seconds, logical) in [(1u128, 7, 0), (2, 3, 9), (3, 3, 1), (4, 9, 0)] {
        assert_eq!(log.record(event(id, seconds, logical)), Ok(()));
    }
    assert_eq!(
        log.events_from(HLTimestamp::new(i64::MIN, 0)),
        Ok(vec![event(3, 3, 1), event(2, 3, 9), event(1, 7, 0), event(4, 9, 0)])
    );
    assert_eq!(
        log.events_from(HLTimestamp::new(3, 2)),
        Ok(vec![event(2, 3, 9), event(1, 7, 0), event(4, 9, 0)])
    );
    assert_eq!(log.events_from(HLTimestamp::new(9, 1)), Ok(Vec::new()));
    let mut broken = encode_event(&event(5, 8, 0)).unwrap();
    broken.action.truncate(3);
    let log = EventStorage::open(vec![encode_event(&event(1, 7, 0)).unwrap(), broken]).unwrap();
    assert_eq!(log.events_from(HLTimestamp::new(0, 0)), Err(StoreError::Serialization));
    assert_eq!(log.events_from(HLTimestamp::new(8, 1)), Ok(Vec::new()));
}

#[test]
fn replay_stops_where_the_visitor_gives_up() {
    let mut log = EventStorage::new();
    for id in 0..5u128 {
        assert_eq!(log.record(event(id, id as i64, 0)), Ok(()));
    }
    let mut seen = Vec::new();
    let outcome = log.play(|e| {
        seen.push(e.id);
        e.id != 2
    });
    assert_eq!(outcome, Err(StoreError::Replay));
    assert_eq!(seen, vec![0, 1, 2]);
    let mut later = Vec::new();
    let outcome = log.play_from(HLTimestamp::new(3, 0), |e| {
        later.push(e.id);
        false
    });
    assert_eq!(outcome, Err(StoreError::Replay));
    assert_eq!(later, vec![3]);
}

#[test]
fn replay_stops_at_a_row_that_holds_no_event() {
    let mut broken = encode_event(&event(2, 2, 0)).unwrap();
    broken.action[0] = 9;
    let rows = vec![
        encode_event(&event(3, 3, 0)).unwrap(),
        broken,
        encode_event(&event(1, 1, 0)).unwrap(),
    ];
    let log = EventStorage::open(rows).unwrap();
    let mut seen = Vec::new();
    let outcome = log.play(|e| {
        seen.push(e.id);
        true
    });
    assert_eq!(outcome, Err(StoreError::Serialization));
    assert_eq!(seen, vec![1]);
    assert_eq!(replay_from(&log, 3, 0), vec![(3, 0)]);
}

#[test]
fn open_puts_stored_rows_in_replay_order() {
    let rows: Vec<Row> = [(4, 4), (1, 1), (3, 0), (1, 0)]
        .iter()
        .enumerate()
        .map(|(k, (seconds, logical))| encode_event(&event(k as u128, *seconds, *logical)).unwrap())
        .collect();
    let mut log = EventStorage::open(rows).unwrap();
    let ids: Vec<u128> = replay(&log).iter().map(|e| e.id).collect();
    assert_eq!(ids, vec![3, 1, 2, 0]);
    assert_eq!(log.record(event(9, 2, 0)), Ok(()));
    let ids: Vec<u128> = replay(&log).iter().map(|e| e.id).collect();
    assert_eq!(ids, vec![3, 1, 9, 2, 0]);
    assert_eq!(EventStorage::open(Vec::new()).unwrap().len(), 0);
}

#[test]
fn open_refuses_rows_that_share_an_identifier() {
    let rows = vec![
        encode_event(&event(1, 1, 0)).unwrap(),
        encode_event(&event(2, 2, 0)).unwrap(),
        encode_event(&event(1, 3, 0)).unwrap(),
    ];
    assert!(matches!(EventStorage::open(rows), Err(StoreError::Open)));
}
