//! The event model: data, actions, events, and the creator that stamps
//! actions into events.
//!
//! Identifiers are UUIDs held as their 128-bit value. A floating-point datum
//! is held as the 64 bits of its IEEE 754 representation.

use crate::hlc::HLTimestamp;
use crate::hlc::State;
use vstd::prelude::*;

verus! {

/// A value attached to a fact.
#[derive(Debug, PartialEq)]
pub enum Datum {
    String(String),
    Integer(i64),
    /// The bits of an IEEE 754 double.
    Float(u64),
    Boolean(bool),
    /// Seconds since the Unix epoch.
    DateTime(i64),
    /// The identifier of an entity.
    Entity(u128),
}

/// A state change. A transaction groups actions and may hold transactions.
#[derive(Debug, PartialEq)]
pub enum Action {
    CreateEntity { id: u128 },
    AddFact { subject: u128, predicate: String, datum: Datum },
    RemoveFact { subject: u128, predicate: String },
    DeleteEntity { id: u128 },
    Transaction { actions: Vec<Action> },
}

/// The record of one action: who caused it, and when.
#[derive(Debug, PartialEq)]
pub struct Event {
    /// The unique identifier of the event.
    pub id: u128,
    /// When the event happened.
    pub hlc: HLTimestamp,
    /// What was done.
    pub action: Action,
    /// The identifier of whoever did it.
    pub actor: u128,
    /// The version of the event's layout.
    pub version: u32,
}

/// The mathematical value of a `Datum`.
pub enum DatumView {
    String(Seq<char>),
    Integer(i64),
    Float(u64),
    Boolean(bool),
    DateTime(i64),
    Entity(u128),
}

/// The mathematical value of an `Action`.
pub enum ActionView {
    CreateEntity { id: u128 },
    AddFact { subject: u128, predicate: Seq<char>, datum: DatumView },
    RemoveFact { subject: u128, predicate: Seq<char> },
    DeleteEntity { id: u128 },
    Transaction { actions: Seq<ActionView> },
}

/// The mathematical value of an `Event`.
pub struct EventView {
    pub id: u128,
    pub hlc: HLTimestamp,
    pub action: ActionView,
    pub actor: u128,
    pub version: u32,
}

impl View for Datum {
    type V = DatumView;

    open spec fn view(&self) -> DatumView {
        match self {
            Datum::String(s) => DatumView::String(s@),
            Datum::Integer(i) => DatumView::Integer(*i),
            Datum::Float(bits) => DatumView::Float(*bits),
            Datum::Boolean(b) => DatumView::Boolean(*b),
            Datum::DateTime(t) => DatumView::DateTime(*t),
            Datum::Entity(id) => DatumView::Entity(*id),
        }
    }
}

impl View for Action {
    type V = ActionView;

    open spec fn view(&self) -> ActionView
        decreases self,
    {
        match self {
            Action::CreateEntity { id } => ActionView::CreateEntity { id: *id },
            Action::AddFact { subject, predicate, datum } => ActionView::AddFact {
                subject: *subject,
                predicate: predicate@,
                datum: datum@,
            },
            Action::RemoveFact { subject, predicate } => ActionView::RemoveFact {
                subject: *subject,
                predicate: predicate@,
            },
            Action::DeleteEntity { id } => ActionView::DeleteEntity { id: *id },
            Action::Transaction { actions } => ActionView::Transaction {
                actions: action_views(actions@),
            },
        }
    }
}

/// The views of a list of actions, in order.
pub open spec fn action_views(list: Seq<Action>) -> Seq<ActionView>
    decreases list,
{
    if list.len() == 0 {
        Seq::empty()
    } else {
        action_views(list.drop_last()).push(list.last()@)
    }
}

/// `action_views` keeps the length and views each action in its place.
pub proof fn lemma_action_views(list: Seq<Action>)
    ensures
        action_views(list).len() == list.len(),
        forall|i: int|
            #![trigger action_views(list)[i]]
            #![trigger list[i]@]
            0 <= i < list.len() ==> action_views(list)[i] == list[i]@,
    decreases list.len(),
{
    if list.len() > 0 {
        let front = list.drop_last();
        lemma_action_views(front);
        assert(action_views(list) == action_views(front).push(list.last()@));
        assert forall|i: int| 0 <= i < list.len() implies #[trigger] action_views(list)[i]
            == list[i]@ by {}
    }
}

impl View for Event {
    type V = EventView;

    open spec fn view(&self) -> EventView {
        EventView {
            id: self.id,
            hlc: self.hlc,
            action: self.action@,
            actor: self.actor,
            version: self.version,
        }
    }
}

impl Clone for Datum {
    fn clone(&self) -> (copy: Datum)
        ensures
            copy@ == self@,
    {
        match self {
            Datum::String(s) => Datum::String(s.clone()),
            Datum::Integer(i) => Datum::Integer(*i),
            Datum::Float(bits) => Datum::Float(*bits),
            Datum::Boolean(b) => Datum::Boolean(*b),
            Datum::DateTime(t) => Datum::DateTime(*t),
            Datum::Entity(id) => Datum::Entity(*id),
        }
    }
}

impl Clone for Action {
    fn clone(&self) -> (copy: Action)
        ensures
            copy@ == self@,
        decreases self,
    {
        match self {
            Action::CreateEntity { id } => Action::CreateEntity { id: *id },
            Action::AddFact { subject, predicate, datum } => Action::AddFact {
                subject: *subject,
                predicate: predicate.clone(),
                datum: datum.clone(),
            },
            Action::RemoveFact { subject, predicate } => Action::RemoveFact {
                subject: *subject,
                predicate: predicate.clone(),
            },
            Action::DeleteEntity { id } => Action::DeleteEntity { id: *id },
            Action::Transaction { actions } => {
                let mut copies: Vec<Action> = Vec::new();
                let mut i: usize = 0;
                while i < actions.len()
                    invariant
                        *self == (Action::Transaction { actions: *actions }),
                        i <= actions.len(),
                        copies@.len() == i,
                        forall|k: int| 0 <= k < i ==> (#[trigger] copies@[k])@ == actions@[k]@,
                    decreases actions.len() - i,
                {
                    assert(decreases_to!(*self => (*self)->actions));
                    let copy = actions[i].clone();
                    copies.push(copy);
                    i = i + 1;
                }
                proof {
                    lemma_action_views(copies@);
                    lemma_action_views(actions@);
                    assert(action_views(copies@) =~= action_views(actions@));
                }
                Action::Transaction { actions: copies }
            },
        }
    }
}

impl Clone for Event {
    fn clone(&self) -> (copy: Event)
        ensures
            copy@ == self@,
    {
        Event {
            id: self.id,
            hlc: self.hlc,
            action: self.action.clone(),
            actor: self.actor,
            version: self.version,
        }
    }
}

/// Whether `id` has the version and variant bits of a random (version 4)
/// UUID.
pub open spec fn is_random_uuid(id: u128) -> bool {
    id & 0x0000_0000_0000_f000_c000_0000_0000_0000u128
        == 0x0000_0000_0000_4000_8000_0000_0000_0000u128
}

/// `uuid::Uuid::new_v4`, as the 128-bit value that `Uuid::as_u128` gives:
/// random bits, but for the version and variant bits of a version 4 UUID.
#[verifier::external_body]
fn fresh_id() -> (id: u128)
    ensures
        is_random_uuid(id),
{
    uuid::Uuid::new_v4().as_u128()
}

/// Turns actions into events on behalf of one actor, stamping them with its
/// own clock.
pub struct EventCreator<F> {
    actor: u128,
    hlc: State<F>,
}

impl EventCreator<()> {
    /// A creator for `actor` on the system's time, its clock merged with
    /// `hlt`, the last timestamp known, so that its events come after it.
    pub fn new(actor: u128, hlt: HLTimestamp) -> (creator: EventCreator<impl FnMut() -> i64>)
        requires
            hlt.logical < u16::MAX,
        ensures
            creator.actor() == actor,
            exists|p: i64|
                creator.clock()@ == (HLTimestamp { seconds: 0, logical: 0 }).merged(p, hlt),
            hlt.before(creator.clock()@),
            call_requires(creator.clock().source(), ()),
    {
        let mut hlc = State::new();
        hlc.update(hlt);
        EventCreator { actor, hlc }
    }
}

impl<F: FnMut() -> i64> EventCreator<F> {
    /// The actor whose events these are.
    pub closed spec fn actor(&self) -> u128 {
        self.actor
    }

    /// The creator's clock.
    pub closed spec fn clock(&self) -> State<F> {
        self.hlc
    }

    /// A creator for `actor` on the time source `now`, its clock merged
    /// with `hlt`, the last timestamp known, so that its events come after
    /// it.
    pub fn new_with(actor: u128, hlt: HLTimestamp, now: F) -> (creator: EventCreator<F>)
        requires
            call_requires(now, ()),
            forall|p: i64|
                call_ensures(now, (), p) ==> (HLTimestamp { seconds: 0, logical: 0 }).can_merge(
                    p,
                    hlt,
                ),
        ensures
            creator.actor() == actor,
            creator.clock().source() == now,
            exists|p: i64|
                call_ensures(now, (), p) && creator.clock()@ == (HLTimestamp {
                    seconds: 0,
                    logical: 0,
                }).merged(p, hlt),
            hlt.before(creator.clock()@),
    {
        let mut hlc = State::new_with(now);
        hlc.update(hlt);
        EventCreator { actor, hlc }
    }

    /// The latest timestamp of the creator's clock.
    pub fn time(&self) -> (t: HLTimestamp)
        ensures
            t == self.clock()@,
    {
        self.hlc.time()
    }

    /// The event of `action`: stamped with the next timestamp of the clock,
    /// which is later than every one before, under a fresh identifier, by
    /// this creator's actor, at version 0.
    ///
    /// The source of time must be callable, and the clock's logical counter
    /// must have room whatever the source returns.
    pub fn create(&mut self, action: Action) -> (event: Event)
        requires
            call_requires(old(self).clock().source(), ()),
            forall|p: i64|
                call_ensures(old(self).clock().source(), (), p) ==> old(self).clock()@.can_tick(p),
        ensures
            final(self).actor() == old(self).actor(),
            final(self).clock().source() == old(self).clock().source(),
            final(self).clock()@ == event.hlc,
            exists|p: i64|
                call_ensures(old(self).clock().source(), (), p) && event.hlc == old(
                    self,
                ).clock()@.ticked(p),
            old(self).clock()@.before(event.hlc),
            is_random_uuid(event.id),
            event.action == action,
            event.actor == old(self).actor(),
            event.version == 0,
    {
        let hlc = self.hlc.get_time();
        Event { id: fresh_id(), hlc, action, actor: self.actor, version: 0 }
    }
}

} // verus!
