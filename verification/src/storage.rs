//! The event log: rows keyed by timestamp, appended one by one or in atomic
//! batches, and replayed in the order of their timestamps.
//!
//! A row holds an event as it is stored: its identifier, the two parts of
//! its timestamp, the payload of its action, its actor and its version. The
//! log keeps its rows in replay order and holds each identifier once.
//!
//! The log decides; it does not write to disk. A program that keeps the rows
//! in a database hands the stored rows to `EventStorage::open`, writes the
//! row that `encode_event` gives for each event it records, and reports the
//! failures of its database in the terms of `StoreError`.

use crate::codec::action_bytes;
use crate::codec::decode_action;
use crate::codec::encodable;
use crate::codec::encode_action;
use crate::codec::is_payload;
use crate::codec::lemma_payload_round_trip;
use crate::codec::payload_action;
use crate::event::Event;
use crate::event::EventView;
use crate::hlc::HLTimestamp;
use vstd::prelude::*;

verus! {

/// The step of storage work at which a failure occurred. The log itself
/// fails at `Insert` alone; the other steps are those of a database around
/// it.
#[derive(Debug, Clone, Copy, PartialEq, Eq, Structural)]
pub enum Operation {
    Open,
    Prepare,
    Insert,
    Commit,
    Select,
}

/// Why an operation of the log failed.
#[derive(Debug, Clone, Copy, PartialEq, Eq, Structural)]
pub enum StoreError {
    /// The storage could not be set up.
    Open,
    /// An action has no payload, or a payload is that of no action.
    Serialization,
    /// A row could not be written or read.
    Persistence { operation: Operation },
    /// The visitor of a replay failed.
    Replay,
}

/// An event as it is stored.
#[derive(Debug, PartialEq, Eq)]
pub struct Row {
    pub id: u128,
    pub hlc_seconds: i64,
    pub hlc_logical: u16,
    pub action: Vec<u8>,
    pub actor: u128,
    pub version: u32,
}

/// The mathematical value of a `Row`.
pub struct RowView {
    pub id: u128,
    pub hlc: HLTimestamp,
    pub action: Seq<u8>,
    pub actor: u128,
    pub version: u32,
}

impl View for Row {
    type V = RowView;

    open spec fn view(&self) -> RowView {
        RowView {
            id: self.id,
            hlc: HLTimestamp { seconds: self.hlc_seconds, logical: self.hlc_logical },
            action: self.action@,
            actor: self.actor,
            version: self.version,
        }
    }
}

impl Clone for Row {
    fn clone(&self) -> (copy: Row)
        ensures
            copy@ == self@,
    {
        let action = self.action.clone();
        Row {
            id: self.id,
            hlc_seconds: self.hlc_seconds,
            hlc_logical: self.hlc_logical,
            action,
            actor: self.actor,
            version: self.version,
        }
    }
}

/// The row that stores an event.
pub open spec fn row_of(e: EventView) -> RowView
    recommends
        encodable(e.action),
{
    RowView { id: e.id, hlc: e.hlc, action: action_bytes(e.action), actor: e.actor, version: e.version }
}

/// The event that a row stores, if its payload is that of an action.
pub open spec fn event_of(r: RowView) -> Option<EventView> {
    if is_payload(r.action) {
        Some(
            EventView {
                id: r.id,
                hlc: r.hlc,
                action: payload_action(r.action),
                actor: r.actor,
                version: r.version,
            },
        )
    } else {
        None
    }
}

/// An event that is stored and read back is the same in every field.
pub proof fn lemma_event_round_trip(e: EventView)
    requires
        encodable(e.action),
    ensures
        event_of(row_of(e)) == Some(e),
{
    lemma_payload_round_trip(e.action);
}

/// The row that stores `event`, or `Serialization` if its action has no
/// payload.
pub fn encode_event(event: &Event) -> (r: Result<Row, StoreError>)
    ensures
        match r {
            Ok(row) => encodable(event@.action) && row@ == row_of(event@),
            Err(e) => !encodable(event@.action) && e == StoreError::Serialization,
        },
{
    match encode_action(&event.action) {
        Some(action) => Ok(
            Row {
                id: event.id,
                hlc_seconds: event.hlc.seconds,
                hlc_logical: event.hlc.logical,
                action,
                actor: event.actor,
                version: event.version,
            },
        ),
        None => Err(StoreError::Serialization),
    }
}

/// The event that `row` stores, or `Serialization` if its payload is that
/// of no action.
pub fn decode_row(row: &Row) -> (r: Result<Event, StoreError>)
    ensures
        match r {
            Ok(event) => event_of(row@) == Some(event@),
            Err(e) => event_of(row@) is None && e == StoreError::Serialization,
        },
{
    match decode_action(row.action.as_slice()) {
        Some(action) => Ok(
            Event {
                id: row.id,
                hlc: HLTimestamp::new(row.hlc_seconds, row.hlc_logical),
                action,
                actor: row.actor,
                version: row.version,
            },
        ),
        None => Err(StoreError::Serialization),
    }
}

/// Whether rows stand in replay order: none is later than a row behind it.
pub open spec fn ascending(rows: Seq<RowView>) -> bool {
    forall|i: int, j: int|
        0 <= i < j < rows.len() ==> (#[trigger] rows[i]).hlc.at_or_before((#[trigger] rows[j]).hlc)
}

/// Whether a row with identifier `id` is among `rows`.
pub open spec fn has_id(rows: Seq<RowView>, id: u128) -> bool {
    exists|i: int| 0 <= i < rows.len() && (#[trigger] rows[i]).id == id
}

/// Whether no identifier occurs in two of the rows.
pub open spec fn distinct_ids(rows: Seq<RowView>) -> bool {
    forall|i: int, j: int|
        0 <= i < j < rows.len() ==> (#[trigger] rows[i]).id != (#[trigger] rows[j]).id
}

/// The place at which a row stamped `t` enters rows in replay order: behind
/// every row that is not later than `t`.
pub open spec fn slot(rows: Seq<RowView>, t: HLTimestamp) -> int
    decreases rows.len(),
{
    if rows.len() > 0 && t.before(rows.last().hlc) {
        slot(rows.drop_last(), t)
    } else {
        rows.len() as int
    }
}

/// The rows after `row` has entered at its place.
pub open spec fn placed(rows: Seq<RowView>, row: RowView) -> Seq<RowView> {
    rows.insert(slot(rows, row.hlc), row)
}

/// What recording one event does to the rows of a log: the rows with the
/// event's row in its place, `Serialization` if its action has no payload,
/// and otherwise `Persistence` at `Insert` if its identifier is taken.
pub open spec fn recorded(rows: Seq<RowView>, e: EventView) -> Result<Seq<RowView>, StoreError> {
    if !encodable(e.action) {
        Err(StoreError::Serialization)
    } else if has_id(rows, e.id) {
        Err(StoreError::Persistence { operation: Operation::Insert })
    } else {
        Ok(placed(rows, row_of(e)))
    }
}

/// Every row from `slot` on is later than `t`, and the row before it is not.
pub proof fn lemma_slot_divides(rows: Seq<RowView>, t: HLTimestamp)
    ensures
        0 <= slot(rows, t) <= rows.len(),
        forall|i: int| slot(rows, t) <= i < rows.len() ==> t.before((#[trigger] rows[i]).hlc),
        slot(rows, t) > 0 ==> rows[slot(rows, t) - 1].hlc.at_or_before(t),
    decreases rows.len(),
{
    if rows.len() > 0 && t.before(rows.last().hlc) {
        lemma_slot_divides(rows.drop_last(), t);
        assert forall|i: int| slot(rows, t) <= i < rows.len() implies t.before(
            (#[trigger] rows[i]).hlc,
        ) by {
            if i < rows.len() - 1 {
                assert(rows.drop_last()[i] == rows[i]);
            }
        }
    }
}

/// A row that enters at its place adds its identifier to those of the rows,
/// and keeps the identifiers distinct if its own is new.
pub proof fn lemma_placed_ids(rows: Seq<RowView>, row: RowView)
    ensures
        forall|id: u128| has_id(placed(rows, row), id) <==> has_id(rows, id) || id == row.id,
        distinct_ids(rows) && !has_id(rows, row.id) ==> distinct_ids(placed(rows, row)),
{
    let at = slot(rows, row.hlc);
    let after = placed(rows, row);
    lemma_slot_divides(rows, row.hlc);
    assert forall|id: u128| has_id(after, id) <==> has_id(rows, id) || id == row.id by {
        if has_id(after, id) {
            let k = choose|k: int| 0 <= k < after.len() && (#[trigger] after[k]).id == id;
            if k < at {
                assert(rows[k].id == id);
            } else if k > at {
                assert(rows[k - 1].id == id);
            }
        }
        if has_id(rows, id) {
            let k = choose|k: int| 0 <= k < rows.len() && (#[trigger] rows[k]).id == id;
            if k < at {
                assert(after[k].id == id);
            } else {
                assert(after[k + 1].id == id);
            }
        }
        if id == row.id {
            assert(after[at].id == id);
        }
    }
    if distinct_ids(rows) && !has_id(rows, row.id) {
        assert forall|i: int, j: int| 0 <= i < j < after.len() implies (#[trigger] after[i]).id != (
        #[trigger] after[j]).id by {
            let a = if i < at { i } else { i - 1 };
            let b = if j < at { j } else { j - 1 };
            if i != at {
                assert(after[i] == rows[a]);
            }
            if j != at {
                assert(after[j] == rows[b]);
            }
        }
    }
}

/// A row that enters at its place keeps the rows in replay order.
pub proof fn lemma_placed_keeps_order(rows: Seq<RowView>, row: RowView)
    requires
        ascending(rows),
    ensures
        ascending(placed(rows, row)),
{
    let at = slot(rows, row.hlc);
    let after = placed(rows, row);
    lemma_slot_divides(rows, row.hlc);
    assert forall|i: int, j: int| 0 <= i < j < after.len() implies (#[trigger] after[i]).hlc.at_or_before(
        (#[trigger] after[j]).hlc,
    ) by {
        if j < at {
            assert(after[i] == rows[i] && after[j] == rows[j]);
        } else if j == at {
            assert(after[i] == rows[i]);
            if i < at - 1 {
                assert(rows[i].hlc.at_or_before(rows[at - 1].hlc));
            }
        } else if i < at {
            assert(after[i] == rows[i] && after[j] == rows[j - 1]);
        } else if i == at {
            assert(after[j] == rows[j - 1]);
        } else {
            assert(after[i] == rows[i - 1] && after[j] == rows[j - 1]);
        }
    }
}

/// The views of a list of events, in order.
pub open spec fn event_views(events: Seq<Event>) -> Seq<EventView> {
    events.map_values(|e: Event| e@)
}

/// The views of a list of rows, in order.
pub open spec fn row_views(rows: Seq<Row>) -> Seq<RowView> {
    rows.map_values(|row: Row| row@)
}

/// The rows after each of `new` has entered at its place, one after the
/// other.
pub open spec fn placed_all(rows: Seq<RowView>, new: Seq<RowView>) -> Seq<RowView>
    decreases new.len(),
{
    if new.len() == 0 {
        rows
    } else {
        placed(placed_all(rows, new.drop_last()), new.last())
    }
}

/// What recording a list of events one after the other does to the rows of
/// a log: the rows with every event's row in its place, or the failure of
/// the first event that cannot be recorded.
pub open spec fn recorded_all(rows: Seq<RowView>, events: Seq<EventView>) -> Result<
    Seq<RowView>,
    StoreError,
>
    decreases events.len(),
{
    if events.len() == 0 {
        Ok(rows)
    } else {
        match recorded_all(rows, events.drop_last()) {
            Ok(sofar) => recorded(sofar, events.last()),
            Err(e) => Err(e),
        }
    }
}

/// The index of the first of `rows` that is at or after `t`: every row
/// before it is earlier than `t`.
pub open spec fn first_at_or_after(rows: Seq<RowView>, t: HLTimestamp) -> int
    decreases rows.len(),
{
    if rows.len() > 0 && t.at_or_before(rows.last().hlc) {
        first_at_or_after(rows.drop_last(), t)
    } else {
        rows.len() as int
    }
}

/// Whether `start` divides `rows` at `t`: the rows before it are earlier
/// than `t`, and the rows from it on are at or after `t`, by seconds first
/// and logical counter second.
pub open spec fn divides_at(rows: Seq<RowView>, start: int, t: HLTimestamp) -> bool {
    &&& 0 <= start <= rows.len()
    &&& forall|i: int| 0 <= i < start ==> (#[trigger] rows[i]).hlc.before(t)
    &&& forall|i: int| start <= i < rows.len() ==> t.at_or_before((#[trigger] rows[i]).hlc)
}

/// Whether the visitor `f` may answer `answer` when it is handed the event
/// that `row` stores.
pub open spec fn handed<F: FnMut(Event) -> bool>(row: RowView, f: F, answer: bool) -> bool {
    exists|e: Event| event_of(row) == Some(e@) && #[trigger] call_ensures(f, (e,), answer)
}

/// Whether `r` is an outcome of replaying `rows` from index `start` to the
/// visitor `f`: `Ok` if every row holds an event and the visitor went on
/// after each; otherwise the rows up to some row `k` were so, and either
/// row `k` holds no event (`Serialization`) or the visitor gave up on its
/// event (`Replay`).
pub open spec fn replayed<F: FnMut(Event) -> bool>(
    rows: Seq<RowView>,
    start: int,
    f: F,
    r: Result<(), StoreError>,
) -> bool {
    match r {
        Ok(()) => forall|i: int| start <= i < rows.len() ==> handed(#[trigger] rows[i], f, true),
        Err(e) => exists|k: int|
            {
                &&& start <= k < rows.len()
                &&& forall|i: int| start <= i < k ==> handed(#[trigger] rows[i], f, true)
                &&& match e {
                    StoreError::Serialization => event_of(#[trigger] rows[k]) is None,
                    StoreError::Replay => handed(rows[k], f, false),
                    _ => false,
                }
            },
    }
}

/// Once an event of a list fails to be recorded, the whole list fails with
/// that failure.
pub proof fn lemma_failure_persists(rows: Seq<RowView>, events: Seq<EventView>, k: int)
    requires
        0 <= k <= events.len(),
        recorded_all(rows, events.take(k)) is Err,
    ensures
        recorded_all(rows, events) == recorded_all(rows, events.take(k)),
    decreases events.len(),
{
    if k == events.len() {
        assert(events.take(k) == events);
    } else {
        assert(events.drop_last().take(k) == events.take(k));
        lemma_failure_persists(rows, events.drop_last(), k);
    }
}

/// Rows that enter one after the other add their identifiers to those of
/// the rows, and none is lost or added.
pub proof fn lemma_placed_all_keeps_rows(rows: Seq<RowView>, new: Seq<RowView>)
    ensures
        placed_all(rows, new).to_multiset() == rows.to_multiset().add(new.to_multiset()),
        forall|id: u128| has_id(placed_all(rows, new), id) <==> has_id(rows, id) || has_id(new, id),
    decreases new.len(),
{
    broadcast use vstd::seq_lib::group_to_multiset_ensures;

    if new.len() == 0 {
        assert(new.to_multiset() == vstd::multiset::Multiset::<RowView>::empty());
        assert(rows.to_multiset().add(new.to_multiset()) == rows.to_multiset());
    } else {
        let front = new.drop_last();
        let sofar = placed_all(rows, front);
        let row = new.last();
        lemma_placed_all_keeps_rows(rows, front);
        lemma_placed_ids(sofar, row);
        lemma_slot_divides(sofar, row.hlc);
        let at = slot(sofar, row.hlc);
        let after = placed(sofar, row);
        assert(after.remove(at) == sofar);
        assert(after[at] == row);
        assert(after.to_multiset() == sofar.to_multiset().insert(row));
        assert(front.push(row) == new);
        assert(new.to_multiset() == front.to_multiset().insert(row));
        assert(sofar.to_multiset().insert(row) == rows.to_multiset().add(new.to_multiset()));
        assert forall|id: u128| has_id(after, id) <==> has_id(rows, id) || has_id(new, id) by {
            if has_id(front, id) {
                let k = choose|k: int| 0 <= k < front.len() && (#[trigger] front[k]).id == id;
                assert(new[k].id == id);
            }
            if has_id(new, id) {
                let k = choose|k: int| 0 <= k < new.len() && (#[trigger] new[k]).id == id;
                if k < front.len() {
                    assert(front[k].id == id);
                }
            }
        }
    }
}

/// Rows that enter one after the other leave the rows in replay order,
/// whatever the order in which they come.
pub proof fn lemma_placed_all_keeps_order(rows: Seq<RowView>, new: Seq<RowView>)
    requires
        ascending(rows),
    ensures
        ascending(placed_all(rows, new)),
    decreases new.len(),
{
    if new.len() > 0 {
        lemma_placed_all_keeps_order(rows, new.drop_last());
        lemma_placed_keeps_order(placed_all(rows, new.drop_last()), new.last());
    }
}

/// Whether no two of the rows have the same timestamp.
pub open spec fn distinct_stamps(rows: Seq<RowView>) -> bool {
    forall|i: int, j: int|
        0 <= i < j < rows.len() ==> (#[trigger] rows[i]).hlc != (#[trigger] rows[j]).hlc
}

/// Rows with distinct timestamps have one replay order: two sequences in
/// replay order that hold the same rows are the same sequence.
pub proof fn lemma_replay_order_is_unique(a: Seq<RowView>, b: Seq<RowView>)
    requires
        ascending(a),
        ascending(b),
        distinct_stamps(a),
        a.to_multiset() == b.to_multiset(),
    ensures
        a == b,
    decreases a.len(),
{
    broadcast use vstd::seq_lib::group_to_multiset_ensures;

    assert(a.len() == a.to_multiset().len());
    assert(b.len() == b.to_multiset().len());
    if a.len() > 0 {
        let n = a.len() - 1;
        assert(b.contains(b[n]));
        assert(a.to_multiset().count(b[n]) > 0);
        assert(a.contains(b[n]));
        let i = choose|i: int| 0 <= i < a.len() && a[i] == b[n];
        assert(a.contains(a[n]));
        assert(b.to_multiset().count(a[n]) > 0);
        assert(b.contains(a[n]));
        let j = choose|j: int| 0 <= j < b.len() && b[j] == a[n];
        if i < n {
            assert(a[i].hlc.at_or_before(a[n].hlc));
        }
        if j < n {
            assert(b[j].hlc.at_or_before(b[n].hlc));
        }
        assert(a[n] == b[n]);
        let a0 = a.drop_last();
        let b0 = b.drop_last();
        assert(a0 == a.remove(n));
        assert(b0 == b.remove(n));
        assert(a0.to_multiset() == b0.to_multiset());
        assert forall|x: int, y: int| 0 <= x < y < a0.len() implies (#[trigger] a0[x]).hlc.at_or_before(
            (#[trigger] a0[y]).hlc,
        ) && a0[x].hlc != a0[y].hlc by {
            assert(a0[x] == a[x] && a0[y] == a[y]);
        }
        assert forall|x: int, y: int| 0 <= x < y < b0.len() implies (#[trigger] b0[x]).hlc.at_or_before(
            (#[trigger] b0[y]).hlc,
        ) by {
            assert(b0[x] == b[x] && b0[y] == b[y]);
        }
        lemma_replay_order_is_unique(a0, b0);
        assert(a == a0.push(a[n]));
        assert(b == b0.push(b[n]));
    }
}

/// Events with distinct timestamps are replayed in one order, in whatever
/// order their rows enter the log.
pub proof fn lemma_replay_order_ignores_arrival(rows: Seq<RowView>, other: Seq<RowView>)
    requires
        distinct_stamps(rows),
        rows.to_multiset() == other.to_multiset(),
    ensures
        placed_all(Seq::empty(), rows) == placed_all(Seq::empty(), other),
{
    broadcast use vstd::seq_lib::group_to_multiset_ensures;

    let a = placed_all(Seq::empty(), rows);
    let b = placed_all(Seq::empty(), other);
    lemma_placed_all_keeps_order(Seq::empty(), rows);
    lemma_placed_all_keeps_order(Seq::empty(), other);
    lemma_placed_all_keeps_rows(Seq::empty(), rows);
    lemma_placed_all_keeps_rows(Seq::empty(), other);
    assert(Seq::<RowView>::empty().to_multiset() == vstd::multiset::Multiset::<RowView>::empty());
    assert(a.to_multiset() == rows.to_multiset());
    assert(b.to_multiset() == rows.to_multiset());
    assert forall|i: int, j: int| 0 <= i < j < a.len() implies (#[trigger] a[i]).hlc != (
    #[trigger] a[j]).hlc by {
        assert(a.contains(a[i]) && a.contains(a[j]));
        assert(rows.to_multiset().count(a[i]) > 0 && rows.to_multiset().count(a[j]) > 0);
        assert(rows.contains(a[i]) && rows.contains(a[j]));
        let x = choose|x: int| 0 <= x < rows.len() && rows[x] == a[i];
        let y = choose|y: int| 0 <= y < rows.len() && rows[y] == a[j];
        if x == y {
            // The row would occur twice in `a`, and so in `rows`.
            assert(a[i] == a[j]);
            lemma_twice_in_sequence(a, i, j);
            lemma_once_in_distinct(rows, x);
        }
    }
    lemma_replay_order_is_unique(a, b);
}

/// A value at two places of a sequence occurs at least twice in it.
proof fn lemma_twice_in_sequence(s: Seq<RowView>, i: int, j: int)
    requires
        0 <= i < j < s.len(),
        s[i] == s[j],
    ensures
        s.to_multiset().count(s[i]) >= 2,
{
    broadcast use vstd::seq_lib::group_to_multiset_ensures;

    let shorter = s.remove(j);
    assert(shorter[i] == s[i]);
    assert(shorter.contains(s[i]));
    assert(shorter.to_multiset().count(s[i]) > 0);
    assert(shorter.to_multiset() == s.to_multiset().remove(s[j]));
}

/// A row of rows with distinct timestamps occurs once among them.
proof fn lemma_once_in_distinct(rows: Seq<RowView>, x: int)
    requires
        distinct_stamps(rows),
        0 <= x < rows.len(),
    ensures
        rows.to_multiset().count(rows[x]) == 1,
{
    broadcast use vstd::seq_lib::group_to_multiset_ensures;

    let shorter = rows.remove(x);
    assert(shorter.to_multiset() == rows.to_multiset().remove(rows[x]));
    if shorter.to_multiset().count(rows[x]) > 0 {
        assert(shorter.contains(rows[x]));
        let k = choose|k: int| 0 <= k < shorter.len() && shorter[k] == rows[x];
        if k < x {
            assert(rows[k] == rows[x]);
        } else {
            assert(rows[k + 1] == rows[x]);
        }
    }
}

/// When a list of events is recorded: exactly if every action has a
/// payload and every identifier is new to the rows and to the list. The
/// rows are then those with every event's row in its place.
pub proof fn lemma_recorded_all_succeeds(rows: Seq<RowView>, events: Seq<EventView>)
    ensures
        recorded_all(rows, events) is Ok <==> {
            &&& forall|k: int| 0 <= k < events.len() ==> encodable((#[trigger] events[k]).action)
            &&& forall|k: int| 0 <= k < events.len() ==> !has_id(rows, (#[trigger] events[k]).id)
            &&& forall|i: int, j: int|
                0 <= i < j < events.len() ==> (#[trigger] events[i]).id != (#[trigger] events[j]).id
        },
        recorded_all(rows, events) is Ok ==> recorded_all(rows, events) == Ok::<
            Seq<RowView>,
            StoreError,
        >(placed_all(rows, events.map_values(|e: EventView| row_of(e)))),
    decreases events.len(),
{
    let new = events.map_values(|e: EventView| row_of(e));
    if events.len() > 0 {
        let front = events.drop_last();
        let last = events.last();
        let staged = front.map_values(|e: EventView| row_of(e));
        lemma_recorded_all_succeeds(rows, front);
        lemma_placed_all_keeps_rows(rows, staged);
        assert(new.drop_last() == staged);
        assert(new.last() == row_of(last));
        assert forall|k: int| 0 <= k < front.len() implies front[k] == events[k] by {}
        if recorded_all(rows, front) is Ok {
            let sofar = placed_all(rows, staged);
            if has_id(staged, last.id) {
                let k = choose|k: int| 0 <= k < staged.len() && (#[trigger] staged[k]).id == last.id;
                assert(events[k].id == events[events.len() - 1].id);
            }
            if recorded_all(rows, events) is Err && encodable(last.action) && !has_id(
                rows,
                last.id,
            ) {
                let k = choose|k: int| 0 <= k < staged.len() && (#[trigger] staged[k]).id == last.id;
                assert(events[k].id == last.id);
            }
            if recorded_all(rows, events) is Ok {
                assert forall|i: int, j: int| 0 <= i < j < events.len() implies (
                #[trigger] events[i]).id != (#[trigger] events[j]).id by {
                    if j == events.len() - 1 {
                        assert(staged[i].id == events[i].id);
                    } else {
                        assert(front[i] == events[i] && front[j] == events[j]);
                    }
                }
            }
        } else {
            if forall|k: int| 0 <= k < front.len() ==> encodable((#[trigger] front[k]).action) {
                if forall|k: int| 0 <= k < front.len() ==> !has_id(rows, (#[trigger] front[k]).id) {
                    let (i, j) = choose|i: int, j: int|
                        0 <= i < j < front.len() && (#[trigger] front[i]).id == (
                        #[trigger] front[j]).id;
                    assert(events[i].id == events[j].id);
                } else {
                    let k = choose|k: int|
                        0 <= k < front.len() && has_id(rows, (#[trigger] front[k]).id);
                    assert(has_id(rows, events[k].id));
                }
            } else {
                let k = choose|k: int|
                    0 <= k < front.len() && !encodable((#[trigger] front[k]).action);
                assert(!encodable(events[k].action));
            }
        }
    }
}

/// Batch atomicity: if the event at `k` cannot be recorded behind the
/// events before it, the whole list fails with its failure, so that
/// `record_batch` leaves none of the events in the log.
pub proof fn lemma_batch_fails_as_a_whole(rows: Seq<RowView>, events: Seq<EventView>, k: int)
    requires
        0 <= k < events.len(),
        recorded_all(rows, events.take(k)) is Ok,
        recorded(recorded_all(rows, events.take(k)).unwrap(), events[k]) is Err,
    ensures
        recorded_all(rows, events) == recorded(
            recorded_all(rows, events.take(k)).unwrap(),
            events[k],
        ),
{
    assert(events.take(k + 1).drop_last() == events.take(k));
    lemma_failure_persists(rows, events, k + 1);
}

/// An event that is recorded is in the log, and the row that holds it
/// gives back the event, equal in every field.
pub proof fn lemma_recorded_event_is_replayed(rows: Seq<RowView>, e: EventView)
    requires
        recorded(rows, e) is Ok,
    ensures
        0 <= slot(rows, e.hlc) < recorded(rows, e).unwrap().len(),
        recorded(rows, e).unwrap()[slot(rows, e.hlc)] == row_of(e),
        event_of(recorded(rows, e).unwrap()[slot(rows, e.hlc)]) == Some(e),
{
    lemma_slot_divides(rows, e.hlc);
    lemma_event_round_trip(e);
}

/// In rows in replay order, the rows from `first_at_or_after` on are those
/// at or after `t`, by seconds first and logical counter second, and the
/// rows before it are those earlier than `t`.
pub proof fn lemma_first_at_or_after_divides(rows: Seq<RowView>, t: HLTimestamp)
    requires
        ascending(rows),
    ensures
        divides_at(rows, first_at_or_after(rows, t), t),
    decreases rows.len(),
{
    if rows.len() > 0 && t.at_or_before(rows.last().hlc) {
        let front = rows.drop_last();
        assert forall|i: int, j: int| 0 <= i < j < front.len() implies (#[trigger] front[i]).hlc.at_or_before(
            (#[trigger] front[j]).hlc,
        ) by {
            assert(front[i] == rows[i] && front[j] == rows[j]);
        }
        lemma_first_at_or_after_divides(front, t);
        assert forall|i: int| 0 <= i < first_at_or_after(rows, t) implies (#[trigger] rows[i]).hlc.before(
            t,
        ) by {
            assert(front[i] == rows[i]);
        }
        assert forall|i: int| first_at_or_after(rows, t) <= i < rows.len() implies t.at_or_before(
            (#[trigger] rows[i]).hlc,
        ) by {
            if i < rows.len() - 1 {
                assert(front[i] == rows[i]);
            }
        }
    } else if rows.len() > 0 {
        assert forall|i: int| 0 <= i < rows.len() implies (#[trigger] rows[i]).hlc.before(t) by {
            if i < rows.len() - 1 {
                assert(rows[i].hlc.at_or_before(rows[rows.len() - 1].hlc));
            }
        }
    }
}

/// An append-only log of events in replay order.
///
/// Its view is the sequence of its rows, in the order in which they are
/// replayed.
pub struct EventStorage {
    rows: Vec<Row>,
}

impl View for EventStorage {
    type V = Seq<RowView>;

    closed spec fn view(&self) -> Seq<RowView> {
        self.rows@.map_values(|row: Row| row@)
    }
}

impl EventStorage {
    /// The invariant of a log: its rows stand in replay order, and no
    /// identifier occurs twice.
    pub open spec fn wf(&self) -> bool {
        ascending(self@) && distinct_ids(self@)
    }

    /// An empty log.
    pub fn new() -> (log: EventStorage)
        ensures
            log.wf(),
            log@ == Seq::<RowView>::empty(),
    {
        EventStorage { rows: Vec::new() }
    }

    /// The number of events in the log.
    pub fn len(&self) -> (n: usize)
        ensures
            n == self@.len(),
    {
        self.rows.len()
    }

    /// The event at place `index` of the replay order, or `Serialization` if
    /// the row there holds no event.
    pub fn event_at(&self, index: usize) -> (r: Result<Event, StoreError>)
        requires
            index < self@.len(),
        ensures
            match r {
                Ok(event) => event_of(self@[index as int]) == Some(event@),
                Err(e) => event_of(self@[index as int]) is None && e == StoreError::Serialization,
            },
    {
        decode_row(&self.rows[index])
    }

    /// Whether an event with identifier `id` is in the log.
    pub fn contains(&self, id: u128) -> (found: bool)
        ensures
            found == has_id(self@, id),
    {
        let mut i: usize = 0;
        while i < self.rows.len()
            invariant
                i <= self.rows.len(),
                forall|k: int| 0 <= k < i ==> (#[trigger] self@[k]).id != id,
            decreases self.rows.len() - i,
        {
            if self.rows[i].id == id {
                assert(self@[i as int].id == id);
                return true;
            }
            i = i + 1;
        }
        false
    }

    /// The place at which a row stamped `t` enters: found from the end,
    /// where most rows enter.
    fn slot_for(&self, t: HLTimestamp) -> (at: usize)
        ensures
            at == slot(self@, t),
    {
        let mut at: usize = self.rows.len();
        assert(self@.take(at as int) == self@);
        while at > 0 && t < HLTimestamp::new(self.rows[at - 1].hlc_seconds, self.rows[at - 1].hlc_logical)
            invariant
                at <= self.rows.len(),
                slot(self@, t) == slot(self@.take(at as int), t),
            decreases at,
        {
            assert(self@.take(at as int).drop_last() == self@.take(at - 1));
            at = at - 1;
        }
        at
    }

    /// Appends one event. It becomes a row at its place in replay order.
    ///
    /// Fails with `Serialization` if the action has no payload, and
    /// otherwise with `Persistence` at `Insert` if the log holds an event
    /// with the same identifier. A failure leaves the log as it was.
    pub fn record(&mut self, envelope: Event) -> (r: Result<(), StoreError>)
        requires
            old(self).wf(),
        ensures
            final(self).wf(),
            match recorded(old(self)@, envelope@) {
                Ok(rows) => r is Ok && final(self)@ == rows,
                Err(e) => r == Err::<(), StoreError>(e) && final(self)@ == old(self)@,
            },
    {
        let row = match encode_event(&envelope) {
            Ok(row) => row,
            Err(e) => {
                return Err(e);
            },
        };
        if self.contains(row.id) {
            return Err(StoreError::Persistence { operation: Operation::Insert });
        }
        self.place(row);
        Ok(())
    }

    /// Puts a row with a new identifier in its place.
    fn place(&mut self, row: Row)
        requires
            old(self).wf(),
            !has_id(old(self)@, row.id),
        ensures
            final(self).wf(),
            final(self)@ == placed(old(self)@, row@),
    {
        let at = self.slot_for(HLTimestamp::new(row.hlc_seconds, row.hlc_logical));
        proof {
            lemma_slot_divides(self@, row@.hlc);
            lemma_placed_keeps_order(self@, row@);
            lemma_placed_ids(self@, row@);
        }
        self.rows.insert(at, row);
        assert(self@ == placed(old(self)@, row@));
    }

    /// Appends a list of events, all or none.
    ///
    /// The events are recorded one after the other as by `record`. The
    /// first that cannot be recorded fails the batch with its failure, and
    /// the log is left as it was before the call.
    pub fn record_batch(&mut self, envelopes: Vec<Event>) -> (r: Result<(), StoreError>)
        requires
            old(self).wf(),
        ensures
            final(self).wf(),
            match recorded_all(old(self)@, event_views(envelopes@)) {
                Ok(rows) => r is Ok && final(self)@ == rows,
                Err(e) => r == Err::<(), StoreError>(e) && final(self)@ == old(self)@,
            },
    {
        let ghost events = event_views(envelopes@);
        let mut staged: Vec<Row> = Vec::new();
        let mut i: usize = 0;
        while i < envelopes.len()
            invariant
                i <= envelopes.len(),
                events == event_views(envelopes@),
                self.wf(),
                self@ == old(self)@,
                recorded_all(self@, events.take(i as int)) == Ok::<Seq<RowView>, StoreError>(
                    placed_all(self@, row_views(staged@)),
                ),
                distinct_ids(row_views(staged@)),
                forall|k: int|
                    0 <= k < staged@.len() ==> !has_id(self@, (#[trigger] row_views(staged@)[k]).id),
            decreases envelopes.len() - i,
        {
            let ghost before = row_views(staged@);
            proof {
                lemma_placed_all_keeps_rows(self@, before);
                assert(events.take(i + 1).drop_last() == events.take(i as int));
                assert(events.take(i + 1).last() == envelopes@[i as int]@);
            }
            let row = match encode_event(&envelopes[i]) {
                Ok(row) => row,
                Err(e) => {
                    proof {
                        lemma_failure_persists(self@, events, i + 1);
                    }
                    return Err(e);
                },
            };
            if self.contains(row.id) || holds(&staged, row.id) {
                proof {
                    lemma_failure_persists(self@, events, i + 1);
                }
                return Err(StoreError::Persistence { operation: Operation::Insert });
            }
            staged.push(row);
            proof {
                let after = row_views(staged@);
                assert(after.drop_last() == before);
                assert(after.last() == row_of(events[i as int]));
                assert forall|a: int, b: int| 0 <= a < b < after.len() implies (#[trigger] after[a]).id
                    != (#[trigger] after[b]).id by {
                    if b < before.len() {
                        assert(after[a] == before[a] && after[b] == before[b]);
                    } else {
                        assert(after[a] == before[a]);
                    }
                }
                assert forall|k: int| 0 <= k < staged@.len() implies !has_id(
                    self@,
                    (#[trigger] row_views(staged@)[k]).id,
                ) by {
                    if k < before.len() {
                        assert(after[k] == before[k]);
                    }
                }
            }
            i = i + 1;
        }
        proof {
            assert(events.take(i as int) == events);
        }
        let ghost new = row_views(staged@);
        for row in it: staged.into_iter()
            invariant
                it.seq() == staged@,
                new == row_views(staged@),
                distinct_ids(new),
                forall|k: int| 0 <= k < new.len() ==> !has_id(old(self)@, (#[trigger] new[k]).id),
                old(self).wf(),
                self.wf(),
                self@ == placed_all(old(self)@, new.take(it.index() as int)),
        {
            proof {
                let done = new.take(it.index() as int);
                lemma_placed_all_keeps_rows(old(self)@, done);
                if has_id(done, row.id) {
                    let k = choose|k: int| 0 <= k < done.len() && (#[trigger] done[k]).id == row.id;
                    assert(new[k].id == new[it.index() as int].id);
                }
                assert(new.take(it.index() + 1).drop_last() == done);
                assert(new.take(it.index() + 1).last() == row@);
            }
            self.place(row);
        }
        proof {
            assert(new.take(new.len() as int) == new);
        }
        Ok(())
    }

    /// Replays every event in replay order: hands each to `visitor` until
    /// it answers `false` or a row holds no event.
    ///
    /// Fails with `Replay` once the visitor answers `false`, and with
    /// `Serialization` at a row whose payload is that of no action; events
    /// behind that row are not handed out.
    pub fn play<F: FnMut(Event) -> bool>(&self, visitor: F) -> (r: Result<(), StoreError>)
        requires
            forall|e: Event| call_requires(visitor, (e,)),
        ensures
            replayed(self@, 0, visitor, r),
    {
        self.play_behind(0, visitor)
    }

    /// Replays, as `play` does, the events at or after `hlc`: those with
    /// more seconds, whatever their logical counter, and those with the
    /// same seconds and a logical counter that is not smaller. The two
    /// parts are compared as one key, never each on its own.
    pub fn play_from<F: FnMut(Event) -> bool>(&self, hlc: HLTimestamp, visitor: F) -> (r: Result<
        (),
        StoreError,
    >)
        requires
            self.wf(),
            forall|e: Event| call_requires(visitor, (e,)),
        ensures
            divides_at(self@, first_at_or_after(self@, hlc), hlc),
            replayed(self@, first_at_or_after(self@, hlc), visitor, r),
    {
        let start = self.first_at_or_after(hlc);
        proof {
            lemma_first_at_or_after_divides(self@, hlc);
        }
        self.play_behind(start, visitor)
    }

    /// The events at or after `hlc`, in replay order: all of them, or
    /// `Serialization` if one of their rows holds no event.
    pub fn events_from(&self, hlc: HLTimestamp) -> (r: Result<Vec<Event>, StoreError>)
        requires
            self.wf(),
        ensures
            divides_at(self@, first_at_or_after(self@, hlc), hlc),
            match r {
                Ok(events) => {
                    &&& events@.len() == self@.len() - first_at_or_after(self@, hlc)
                    &&& forall|i: int|
                        0 <= i < events@.len() ==> event_of(
                            self@[first_at_or_after(self@, hlc) + i],
                        ) == Some((#[trigger] events@[i])@)
                },
                Err(e) => e == StoreError::Serialization && exists|k: int|
                    first_at_or_after(self@, hlc) <= k < self@.len() && event_of(
                        #[trigger] self@[k],
                    ) is None,
            },
    {
        let start = self.first_at_or_after(hlc);
        proof {
            lemma_first_at_or_after_divides(self@, hlc);
        }
        let mut events: Vec<Event> = Vec::new();
        let mut i: usize = start;
        while i < self.rows.len()
            invariant
                start == first_at_or_after(self@, hlc),
                divides_at(self@, start as int, hlc),
                start <= i <= self.rows.len(),
                self.rows.len() == self@.len(),
                events@.len() == i - start,
                forall|k: int|
                    0 <= k < events@.len() ==> event_of(self@[start + k]) == Some(
                        (#[trigger] events@[k])@,
                    ),
            decreases self.rows.len() - i,
        {
            match decode_row(&self.rows[i]) {
                Ok(event) => {
                    events.push(event);
                },
                Err(e) => {
                    assert(event_of(self@[i as int]) is None);
                    return Err(e);
                },
            }
            i = i + 1;
        }
        Ok(events)
    }

    /// The index of the first event at or after `hlc`, or the number of
    /// events if there is none.
    pub fn first_at_or_after(&self, hlc: HLTimestamp) -> (start: usize)
        ensures
            start == first_at_or_after(self@, hlc),
            self.wf() ==> divides_at(self@, start as int, hlc),
    {
        proof {
            if self.wf() {
                lemma_first_at_or_after_divides(self@, hlc);
            }
        }
        let mut at: usize = self.rows.len();
        assert(self@.take(at as int) == self@);
        while at > 0 && hlc <= HLTimestamp::new(
            self.rows[at - 1].hlc_seconds,
            self.rows[at - 1].hlc_logical,
        )
            invariant
                at <= self.rows.len(),
                first_at_or_after(self@, hlc) == first_at_or_after(self@.take(at as int), hlc),
            decreases at,
        {
            assert(self@.take(at as int).drop_last() == self@.take(at - 1));
            at = at - 1;
        }
        at
    }

    /// Replays the events from index `start` on.
    fn play_behind<F: FnMut(Event) -> bool>(&self, start: usize, visitor: F) -> (r: Result<
        (),
        StoreError,
    >)
        requires
            forall|e: Event| call_requires(visitor, (e,)),
        ensures
            replayed(self@, start as int, visitor, r),
    {
        let mut f = visitor;
        let mut i: usize = start;
        while i < self.rows.len()
            invariant
                start <= i,
                f == visitor,
                forall|e: Event| call_requires(f, (e,)),
                forall|k: int|
                    start <= k < i && k < self@.len() ==> handed(#[trigger] self@[k], visitor, true),
            decreases self.rows.len() - i,
        {
            let event = match decode_row(&self.rows[i]) {
                Ok(event) => event,
                Err(e) => {
                    assert(event_of(self@[i as int]) is None);
                    return Err(e);
                },
            };
            let ghost handed_over = event;
            let go_on = f(event);
            assert(call_ensures(visitor, (handed_over,), go_on));
            assert(handed(self@[i as int], visitor, go_on));
            if !go_on {
                return Err(StoreError::Replay);
            }
            i = i + 1;
        }
        Ok(())
    }

    /// Opens a log on stored rows, which may come in any order.
    ///
    /// Fails with `Open` if two of the rows have the same identifier.
    pub fn open(rows: Vec<Row>) -> (r: Result<EventStorage, StoreError>)
        ensures
            match r {
                Ok(log) => distinct_ids(row_views(rows@)) && log.wf() && log@ == placed_all(
                    Seq::empty(),
                    row_views(rows@),
                ),
                Err(e) => !distinct_ids(row_views(rows@)) && e == StoreError::Open,
            },
    {
        let ghost stored = row_views(rows@);
        let mut log = EventStorage::new();
        for row in it: rows.into_iter()
            invariant
                it.seq() == rows@,
                stored == row_views(rows@),
                log.wf(),
                log@ == placed_all(Seq::empty(), stored.take(it.index() as int)),
                distinct_ids(stored.take(it.index() as int)),
        {
            let ghost done = stored.take(it.index() as int);
            proof {
                lemma_placed_all_keeps_rows(Seq::empty(), done);
                assert(stored.take(it.index() + 1).drop_last() == done);
                assert(stored.take(it.index() + 1).last() == row@);
                assert(!has_id(Seq::<RowView>::empty(), row.id));
                assert(has_id(log@, row.id) <==> has_id(done, row.id));
            }
            if log.contains(row.id) {
                proof {
                    let k = choose|k: int| 0 <= k < done.len() && (#[trigger] done[k]).id == row.id;
                    assert(stored[k].id == stored[it.index() as int].id);
                }
                return Err(StoreError::Open);
            }
            log.place(row);
            proof {
                let next = stored.take(it.index() + 1);
                assert forall|a: int, b: int| 0 <= a < b < next.len() implies (#[trigger] next[a]).id
                    != (#[trigger] next[b]).id by {
                    if b < done.len() {
                        assert(next[a] == done[a] && next[b] == done[b]);
                    } else {
                        assert(next[a] == done[a]);
                    }
                }
            }
        }
        proof {
            assert(stored.take(stored.len() as int) == stored);
        }
        Ok(log)
    }
}

/// Whether a row with identifier `id` is among `rows`.
fn holds(rows: &Vec<Row>, id: u128) -> (found: bool)
    ensures
        found == has_id(row_views(rows@), id),
{
    let mut i: usize = 0;
    while i < rows.len()
        invariant
            i <= rows.len(),
            forall|k: int| 0 <= k < i ==> (#[trigger] row_views(rows@)[k]).id != id,
        decreases rows.len() - i,
    {
        if rows[i].id == id {
            assert(row_views(rows@)[i as int].id == id);
            return true;
        }
        i = i + 1;
    }
    false
}

} // verus!
