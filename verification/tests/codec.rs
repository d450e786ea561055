use graphite::codec::{decode_action, encode_action, MAX_NESTING};
use graphite::event::{Action, Datum};

fn nested(levels: usize) -> Action {
    let mut action = Action::Transaction { actions: Vec::new() };
    let mut level = 1;
    while level < levels {
        action = Action::Transaction { actions: vec![action] };
        level += 1;
    }
    action
}

fn sample() -> Action {
    Action::Transaction {
        actions: vec![
            Action::CreateEntity { id: 1 },
            Action::AddFact {
                subject: 1,
                predicate: String::from("name"),
                datum: Datum::String(String::from("Grüße, 世界")),
            },
            Action::AddFact { subject: 1, predicate: String::from("age"), datum: Datum::Integer(-42) },
            Action::AddFact {
                subject: 1,
                predicate: String::from("height"),
                datum: Datum::Float(1.85f64.to_bits()),
            },
            Action::AddFact { subject: 1, predicate: String::new(), datum: Datum::Boolean(true) },
            Action::AddFact {
                subject: 1,
                predicate: String::from("born"),
                datum: Datum::DateTime(i64::MIN),
            },
            Action::AddFact {
                subject: 1,
                predicate: String::from("friend"),
                datum: Datum::Entity(u128::MAX),
            },
            Action::Transaction {
                actions: vec![
                    Action::RemoveFact { subject: 1, predicate: String::from("age") },
                    Action::DeleteEntity { id: 1 },
                ],
            },
        ],
    }
}

#[test]
fn create_entity_is_a_tag_and_sixteen_bytes() {
    let bytes = encode_action(&Action::CreateEntity { id: 0x0102 }).unwrap();
    let mut expected = vec![0u8, 0x02, 0x01];
    expected.extend_from_slice(&[0u8; 14]);
    assert_eq!(bytes, expected);
}

#[test]
fn add_fact_lays_out_subject_predicate_and_datum() {
    let action =
        Action::AddFact { subject: 3, predicate: String::from("ab"), datum: Datum::Integer(-1) };
    let bytes = encode_action(&action).unwrap();
    let mut expected = vec![1u8, 3];
    expected.extend_from_slice(&[0u8; 15]);
    expected.extend_from_slice(&[2, 0, 0, 0, 0, 0, 0, 0]);
    expected.extend_from_slice(b"ab");
    expected.push(1);
    expected.extend_from_slice(&[0xff, 0xff, 0xff, 0xff, 0xff, 0xff, 0xff, 0x7f]);
    assert_eq!(bytes, expected);
}

#[test]
fn signed_integers_are_shifted_to_unsigned() {
    let of = |i: i64| {
        let action = Action::AddFact { subject: 0, predicate: String::new(), datum: Datum::DateTime(i) };
        let bytes = encode_action(&action).unwrap();
        let mut word = [0u8; 8];
        word.copy_from_slice(&bytes[26..34]);
        u64::from_le_bytes(word)
    };
    assert_eq!(of(i64::MIN), 0);
    assert_eq!(of(-1), (1u64 << 63) - 1);
    assert_eq!(of(0), 1u64 << 63);
    assert_eq!(of(i64::MAX), u64::MAX);
}

#[test]
fn transaction_counts_its_actions() {
    let action = Action::Transaction {
        actions: vec![Action::DeleteEntity { id: 0 }, Action::DeleteEntity { id: 0 }],
    };
    let bytes = encode_action(&action).unwrap();
    assert_eq!(bytes.len(), 1 + 8 + 2 * 17);
    assert_eq!(&bytes[..9], &[4, 2, 0, 0, 0, 0, 0, 0, 0]);
    assert_eq!(bytes[9], 3);
    assert_eq!(bytes[26], 3);
}

#[test]
fn every_kind_of_action_survives_the_round_trip() {
    let bytes = encode_action(&sample()).unwrap();
    assert_eq!(decode_action(&bytes), Some(sample()));
}

#[test]
fn float_bits_survive_the_round_trip() {
    for value in [0.0f64, -0.0, 1.5, f64::INFINITY, f64::NAN, f64::MIN_POSITIVE] {
        let action = Action::AddFact {
            subject: 9,
            predicate: String::from("x"),
            datum: Datum::Float(value.to_bits()),
        };
        let bytes = encode_action(&action).unwrap();
        match decode_action(&bytes) {
            Some(Action::AddFact { datum: Datum::Float(bits), .. }) => {
                assert_eq!(bits, value.to_bits())
            }
            other => panic!("unexpected {:?}", other),
        }
    }
}

#[test]
fn transactions_nest_to_the_limit_and_no_deeper() {
    assert_eq!(MAX_NESTING, 32);
    let deepest = encode_action(&nested(MAX_NESTING)).unwrap();
    assert_eq!(decode_action(&deepest), Some(nested(MAX_NESTING)));
    assert_eq!(encode_action(&nested(MAX_NESTING + 1)), None);
}

#[test]
fn payload_nested_too_deep_is_refused() {
    // 33 transactions of one action each, around an empty one.
    let mut bytes = Vec::new();
    for _ in 0..MAX_NESTING {
        bytes.extend_from_slice(&[4, 1, 0, 0, 0, 0, 0, 0, 0]);
    }
    bytes.extend_from_slice(&[4, 0, 0, 0, 0, 0, 0, 0, 0]);
    assert_eq!(decode_action(&bytes), None);
    // One level less is the deepest action there is.
    assert_eq!(decode_action(&bytes[9..]), Some(nested(MAX_NESTING)));
}

#[test]
fn what_is_no_payload_is_refused() {
    let good = encode_action(&Action::RemoveFact { subject: 5, predicate: String::from("p") }).unwrap();
    assert!(decode_action(&good).is_some());
    // Nothing at all.
    assert_eq!(decode_action(&[]), None);
    // Cut short.
    assert_eq!(decode_action(&good[..good.len() - 1]), None);
    // Bytes left over.
    let mut longer = good.clone();
    longer.push(0);
    assert_eq!(decode_action(&longer), None);
    // An unknown tag.
    let mut tagged = good.clone();
    tagged[0] = 5;
    assert_eq!(decode_action(&tagged), None);
    // A text longer than what is left.
    let mut long_text = good.clone();
    long_text[17] = 2;
    assert_eq!(decode_action(&long_text), None);
    // A transaction that announces more actions than follow.
    assert_eq!(decode_action(&[4, 1, 0, 0, 0, 0, 0, 0, 0]), None);
    assert_eq!(decode_action(&[4, 0xff, 0xff, 0xff, 0xff, 0xff, 0xff, 0xff, 0xff]), None);
}

#[test]
fn text_must_be_utf8() {
    let mut bytes = encode_action(&Action::RemoveFact { subject: 5, predicate: String::from("ab") })
        .unwrap();
    let last = bytes.len() - 1;
    bytes[last] = 0xff;
    assert_eq!(decode_action(&bytes), None);
    bytes[last - 1] = 0xc3;
    bytes[last] = 0xa9;
    assert_eq!(
        decode_action(&bytes),
        Some(Action::RemoveFact { subject: 5, predicate: String::from("é") })
    );
}

#[test]
fn truth_values_are_zero_or_one() {
    let action = Action::AddFact { subject: 0, predicate: String::new(), datum: Datum::Boolean(false) };
    let mut bytes = encode_action(&action).unwrap();
    let last = bytes.len() - 1;
    assert_eq!(&bytes[last - 1..], &[3, 0]);
    bytes[last] = 1;
    assert_eq!(
        decode_action(&bytes),
        Some(Action::AddFact { subject: 0, predicate: String::new(), datum: Datum::Boolean(true) })
    );
    bytes[last] = 2;
    assert_eq!(decode_action(&bytes), None);
    bytes[last - 1] = 6;
    bytes[last] = 0;
    assert_eq!(decode_action(&bytes), None);
}
