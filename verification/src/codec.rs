//! The payload of an action: a compact binary form, and its inverse.
//!
//! An action is laid out as a tag byte followed by its fields. Identifiers
//! take 16 bytes and integers 8, little-endian; a signed integer is shifted
//! by 2^63 to an unsigned one first. A text is its length in bytes, as an
//! integer, followed by its UTF-8 bytes. A transaction is the number of its
//! actions followed by the actions. Transactions nest to at most
//! `MAX_NESTING` levels: a deeper action has no payload.

use crate::event::Action;
use crate::event::ActionView;
use crate::event::Datum;
use crate::event::DatumView;
use crate::event::action_views;
use crate::event::lemma_action_views;
use vstd::bytes::spec_u128_from_le_bytes;
use vstd::bytes::spec_u128_to_le_bytes;
use vstd::bytes::spec_u64_from_le_bytes;
use vstd::bytes::spec_u64_to_le_bytes;
use vstd::bytes::u128_from_le_bytes;
use vstd::bytes::u64_from_le_bytes;
use vstd::bytes::u128_to_le_bytes;
use vstd::bytes::u64_to_le_bytes;
use vstd::prelude::*;
use vstd::slice::slice_subrange;
use vstd::slice::slice_to_vec;
use vstd::string::StrSliceExecFns;
use vstd::string::StringSliceAdditionalSpecFns;
use vstd::utf8::decode_utf8;
use vstd::utf8::encode_utf8;
use vstd::utf8::valid_utf8;

verus! {

/// The number of levels to which transactions may nest in a payload.
pub const MAX_NESTING: usize = 32;

/// A signed integer as an unsigned one: shifted by 2^63, which keeps the
/// order.
pub open spec fn biased(x: i64) -> u64 {
    (x - i64::MIN) as u64
}

/// The byte of a truth value.
pub open spec fn flag_byte(b: bool) -> u8 {
    if b {
        1
    } else {
        0
    }
}

/// Whether the UTF-8 length of a text fits the 8 bytes of its length field.
pub open spec fn text_fits(s: Seq<char>) -> bool {
    encode_utf8(s).len() <= u64::MAX
}

/// The bytes of a text: its UTF-8 length, then its UTF-8 bytes.
pub open spec fn text_bytes(s: Seq<char>) -> Seq<u8> {
    spec_u64_to_le_bytes(encode_utf8(s).len() as u64) + encode_utf8(s)
}

/// Whether a datum has a payload: its text, if it is one, must fit.
pub open spec fn datum_fits(d: DatumView) -> bool {
    d matches DatumView::String(s) ==> text_fits(s)
}

/// The bytes of a datum: its tag, then its value.
pub open spec fn datum_bytes(d: DatumView) -> Seq<u8> {
    match d {
        DatumView::String(s) => seq![0u8] + text_bytes(s),
        DatumView::Integer(i) => seq![1u8] + spec_u64_to_le_bytes(biased(i)),
        DatumView::Float(bits) => seq![2u8] + spec_u64_to_le_bytes(bits),
        DatumView::Boolean(b) => seq![3u8, flag_byte(b)],
        DatumView::DateTime(t) => seq![4u8] + spec_u64_to_le_bytes(biased(t)),
        DatumView::Entity(id) => seq![5u8] + spec_u128_to_le_bytes(id),
    }
}

/// Whether an action has a payload when transactions may nest to `limit`
/// levels: its texts and the lengths of its transactions fit their length
/// fields, and no transaction lies deeper than `limit`.
pub open spec fn encodable_within(a: ActionView, limit: nat) -> bool
    decreases a,
{
    match a {
        ActionView::CreateEntity { .. } => true,
        ActionView::AddFact { predicate, datum, .. } => text_fits(predicate) && datum_fits(datum),
        ActionView::RemoveFact { predicate, .. } => text_fits(predicate),
        ActionView::DeleteEntity { .. } => true,
        ActionView::Transaction { actions } => limit > 0 && actions.len() <= u64::MAX
            && forall|i: int|
            0 <= i < actions.len() ==> encodable_within(
                #[trigger] actions[i],
                (limit - 1) as nat,
            ),
    }
}

/// Whether an action has a payload.
pub open spec fn encodable(a: ActionView) -> bool {
    encodable_within(a, MAX_NESTING as nat)
}

/// The payload of an action: its tag, then its fields in order.
pub open spec fn action_bytes(a: ActionView) -> Seq<u8>
    decreases a,
{
    match a {
        ActionView::CreateEntity { id } => seq![0u8] + spec_u128_to_le_bytes(id),
        ActionView::AddFact { subject, predicate, datum } => seq![1u8] + spec_u128_to_le_bytes(
            subject,
        ) + text_bytes(predicate) + datum_bytes(datum),
        ActionView::RemoveFact { subject, predicate } => seq![2u8] + spec_u128_to_le_bytes(
            subject,
        ) + text_bytes(predicate),
        ActionView::DeleteEntity { id } => seq![3u8] + spec_u128_to_le_bytes(id),
        ActionView::Transaction { actions } => seq![4u8] + spec_u64_to_le_bytes(
            actions.len() as u64,
        ) + actions_bytes(actions),
    }
}

/// The payloads of a list of actions, one after the other.
pub open spec fn actions_bytes(list: Seq<ActionView>) -> Seq<u8>
    decreases list,
{
    if list.len() == 0 {
        Seq::empty()
    } else {
        actions_bytes(list.drop_last()) + action_bytes(list.last())
    }
}

/// `biased`, computed without leaving the range of either type.
fn bias(x: i64) -> (u: u64)
    ensures
        u == biased(x),
{
    if x >= 0 {
        (x as u64) + 0x8000_0000_0000_0000u64
    } else {
        (x - i64::MIN) as u64
    }
}

/// Appends the 8 bytes of an integer.
fn put_word(out: &mut Vec<u8>, v: u64)
    ensures
        final(out)@ == old(out)@ + spec_u64_to_le_bytes(v),
{
    let mut bytes = u64_to_le_bytes(v);
    out.append(&mut bytes);
}

/// Appends the 16 bytes of an identifier.
fn put_id(out: &mut Vec<u8>, v: u128)
    ensures
        final(out)@ == old(out)@ + spec_u128_to_le_bytes(v),
{
    let mut bytes = u128_to_le_bytes(v);
    out.append(&mut bytes);
}

/// Appends the bytes of a text.
fn put_text(out: &mut Vec<u8>, s: &String)
    ensures
        final(out)@ == old(out)@ + text_bytes(s@),
        text_fits(s@),
{
    let mut bytes = s.as_str().as_bytes_vec();
    put_word(out, bytes.len() as u64);
    out.append(&mut bytes);
}

/// Appends the bytes of a datum.
fn put_datum(out: &mut Vec<u8>, d: &Datum)
    ensures
        final(out)@ == old(out)@ + datum_bytes(d@),
        datum_fits(d@),
{
    match d {
        Datum::String(s) => {
            out.push(0u8);
            put_text(out, s);
        },
        Datum::Integer(i) => {
            out.push(1u8);
            put_word(out, bias(*i));
        },
        Datum::Float(bits) => {
            out.push(2u8);
            put_word(out, *bits);
        },
        Datum::Boolean(b) => {
            out.push(3u8);
            out.push(if *b { 1u8 } else { 0u8 });
        },
        Datum::DateTime(t) => {
            out.push(4u8);
            put_word(out, bias(*t));
        },
        Datum::Entity(id) => {
            out.push(5u8);
            put_id(out, *id);
        },
    }
}

/// Appends the payload of an action, if it nests within `budget` levels.
/// What it has appended when it gives up is of no use.
fn put_action(out: &mut Vec<u8>, a: &Action, budget: usize) -> (ok: bool)
    ensures
        ok == encodable_within(a@, budget as nat),
        ok ==> final(out)@ == old(out)@ + action_bytes(a@),
    decreases budget,
{
    match a {
        Action::CreateEntity { id } => {
            out.push(0u8);
            put_id(out, *id);
            true
        },
        Action::AddFact { subject, predicate, datum } => {
            out.push(1u8);
            put_id(out, *subject);
            put_text(out, predicate);
            put_datum(out, datum);
            true
        },
        Action::RemoveFact { subject, predicate } => {
            out.push(2u8);
            put_id(out, *subject);
            put_text(out, predicate);
            true
        },
        Action::DeleteEntity { id } => {
            out.push(3u8);
            put_id(out, *id);
            true
        },
        Action::Transaction { actions } => {
            if budget == 0 {
                return false;
            }
            out.push(4u8);
            put_word(out, actions.len() as u64);
            let ghost head = out@;
            let ghost list = a@->actions;
            proof {
                lemma_action_views(actions@);
            }
            let mut i: usize = 0;
            while i < actions.len()
                invariant
                    budget > 0,
                    i <= actions.len(),
                    a@ == (ActionView::Transaction { actions: list }),
                    list.len() == actions.len(),
                    forall|k: int| 0 <= k < list.len() ==> list[k] == #[trigger] actions@[k]@,
                    out@ == head + actions_bytes(list.take(i as int)),
                    forall|k: int|
                        0 <= k < i ==> encodable_within(#[trigger] list[k], (budget - 1) as nat),
                decreases actions.len() - i,
            {
                let ok = put_action(out, &actions[i], budget - 1);
                if !ok {
                    assert(!encodable_within(a@, budget as nat));
                    return false;
                }
                proof {
                    assert(list.take(i + 1).drop_last() == list.take(i as int));
                }
                i = i + 1;
            }
            proof {
                assert(list.take(i as int) == list);
            }
            true
        },
    }
}

/// The payload of an action, if it has one: none if its transactions nest
/// deeper than `MAX_NESTING`.
pub fn encode_action(a: &Action) -> (payload: Option<Vec<u8>>)
    ensures
        match payload {
            Some(bytes) => encodable(a@) && bytes@ == action_bytes(a@),
            None => !encodable(a@),
        },
{
    let mut out: Vec<u8> = Vec::new();
    if put_action(&mut out, a, MAX_NESTING) {
        Some(out)
    } else {
        None
    }
}

/// The signed integer that `biased` maps to `u`.
pub open spec fn unbiased(u: u64) -> i64 {
    (u + i64::MIN) as i64
}

/// The integer whose 8 bytes stand at `pos` of `s`, and the position behind
/// them.
spec fn parse_word(s: Seq<u8>, pos: int) -> Option<(u64, int)> {
    if 0 <= pos && pos + 8 <= s.len() {
        Some((spec_u64_from_le_bytes(s.subrange(pos, pos + 8)), pos + 8))
    } else {
        None
    }
}

/// The identifier whose 16 bytes stand at `pos` of `s`, and the position
/// behind them.
spec fn parse_id(s: Seq<u8>, pos: int) -> Option<(u128, int)> {
    if 0 <= pos && pos + 16 <= s.len() {
        Some((spec_u128_from_le_bytes(s.subrange(pos, pos + 16)), pos + 16))
    } else {
        None
    }
}

/// The text whose bytes stand at `pos` of `s`, and the position behind
/// them.
spec fn parse_text(s: Seq<u8>, pos: int) -> Option<(Seq<char>, int)> {
    match parse_word(s, pos) {
        Some((n, start)) => if start + n <= s.len() && valid_utf8(s.subrange(start, start + n)) {
            Some((decode_utf8(s.subrange(start, start + n)), start + n))
        } else {
            None
        },
        None => None,
    }
}

/// The datum whose bytes stand at `pos` of `s`, and the position behind
/// them.
spec fn parse_datum(s: Seq<u8>, pos: int) -> Option<(DatumView, int)> {
    if !(0 <= pos < s.len()) {
        None
    } else if s[pos] == 0 {
        match parse_text(s, pos + 1) {
            Some((text, next)) => Some((DatumView::String(text), next)),
            None => None,
        }
    } else if s[pos] == 1 {
        match parse_word(s, pos + 1) {
            Some((w, next)) => Some((DatumView::Integer(unbiased(w)), next)),
            None => None,
        }
    } else if s[pos] == 2 {
        match parse_word(s, pos + 1) {
            Some((w, next)) => Some((DatumView::Float(w), next)),
            None => None,
        }
    } else if s[pos] == 3 {
        if pos + 1 < s.len() && s[pos + 1] <= 1 {
            Some((DatumView::Boolean(s[pos + 1] == 1), pos + 2))
        } else {
            None
        }
    } else if s[pos] == 4 {
        match parse_word(s, pos + 1) {
            Some((w, next)) => Some((DatumView::DateTime(unbiased(w)), next)),
            None => None,
        }
    } else if s[pos] == 5 {
        match parse_id(s, pos + 1) {
            Some((id, next)) => Some((DatumView::Entity(id), next)),
            None => None,
        }
    } else {
        None
    }
}

/// The action, nested to at most `depth` levels, whose payload stands at
/// `pos` of `s`, and the position behind it.
spec fn parse_action(s: Seq<u8>, pos: int, depth: nat) -> Option<(ActionView, int)>
    decreases depth, 0nat,
{
    if !(0 <= pos < s.len()) {
        None
    } else if s[pos] == 0 {
        match parse_id(s, pos + 1) {
            Some((id, next)) => Some((ActionView::CreateEntity { id }, next)),
            None => None,
        }
    } else if s[pos] == 1 {
        match parse_id(s, pos + 1) {
            Some((subject, at_text)) => match parse_text(s, at_text) {
                Some((predicate, at_datum)) => match parse_datum(s, at_datum) {
                    Some((datum, next)) => Some(
                        (ActionView::AddFact { subject, predicate, datum }, next),
                    ),
                    None => None,
                },
                None => None,
            },
            None => None,
        }
    } else if s[pos] == 2 {
        match parse_id(s, pos + 1) {
            Some((subject, at_text)) => match parse_text(s, at_text) {
                Some((predicate, next)) => Some(
                    (ActionView::RemoveFact { subject, predicate }, next),
                ),
                None => None,
            },
            None => None,
        }
    } else if s[pos] == 3 {
        match parse_id(s, pos + 1) {
            Some((id, next)) => Some((ActionView::DeleteEntity { id }, next)),
            None => None,
        }
    } else if s[pos] == 4 && depth > 0 {
        match parse_word(s, pos + 1) {
            Some((count, at_list)) => match parse_actions(
                s,
                at_list,
                count as nat,
                (depth - 1) as nat,
                Seq::empty(),
            ) {
                Some((actions, next)) => Some((ActionView::Transaction { actions }, next)),
                None => None,
            },
            None => None,
        }
    } else {
        None
    }
}

/// The `count` actions whose payloads stand one after the other at `pos`
/// of `s`, behind the actions `found` before, and the position behind them.
spec fn parse_actions(
    s: Seq<u8>,
    pos: int,
    count: nat,
    depth: nat,
    found: Seq<ActionView>,
) -> Option<(Seq<ActionView>, int)>
    decreases depth, count + 1,
{
    if count == 0 {
        Some((found, pos))
    } else {
        match parse_action(s, pos, depth) {
            Some((a, next)) => parse_actions(s, next, (count - 1) as nat, depth, found.push(a)),
            None => None,
        }
    }
}

/// `unbiased`, computed without leaving the range of either type.
fn unbias(u: u64) -> (x: i64)
    ensures
        x == unbiased(u),
{
    if u >= 0x8000_0000_0000_0000u64 {
        (u - 0x8000_0000_0000_0000u64) as i64
    } else {
        (u as i64) + i64::MIN
    }
}

/// `String::from_utf8`: the text whose UTF-8 bytes are `bytes`, or none if
/// `bytes` is not valid UTF-8.
#[verifier::external_body]
fn text_from_utf8(bytes: Vec<u8>) -> (text: Option<String>)
    ensures
        match text {
            Some(s) => encode_utf8(s@) == bytes@,
            None => !valid_utf8(bytes@),
        },
{
    match String::from_utf8(bytes) {
        Ok(s) => Some(s),
        Err(_) => None,
    }
}

/// Reads the integer at `pos`.
fn take_word(data: &[u8], pos: usize) -> (r: Option<(u64, usize)>)
    ensures
        match r {
            Some((v, next)) => parse_word(data@, pos as int) == Some((v, next as int)),
            None => parse_word(data@, pos as int) is None,
        },
{
    if pos <= data.len() && data.len() - pos >= 8 {
        let v = u64_from_le_bytes(slice_subrange(data, pos, pos + 8));
        Some((v, pos + 8))
    } else {
        None
    }
}

/// Reads the identifier at `pos`.
fn take_id(data: &[u8], pos: usize) -> (r: Option<(u128, usize)>)
    ensures
        match r {
            Some((v, next)) => parse_id(data@, pos as int) == Some((v, next as int)),
            None => parse_id(data@, pos as int) is None,
        },
{
    if pos <= data.len() && data.len() - pos >= 16 {
        let v = u128_from_le_bytes(slice_subrange(data, pos, pos + 16));
        Some((v, pos + 16))
    } else {
        None
    }
}

/// Reads the text at `pos`.
fn take_text(data: &[u8], pos: usize) -> (r: Option<(String, usize)>)
    ensures
        match r {
            Some((text, next)) => parse_text(data@, pos as int) == Some((text@, next as int)),
            None => parse_text(data@, pos as int) is None,
        },
{
    match take_word(data, pos) {
        Some((n, start)) => {
            if n > (data.len() - start) as u64 {
                return None;
            }
            let end = start + n as usize;
            match text_from_utf8(slice_to_vec(slice_subrange(data, start, end))) {
                Some(text) => {
                    proof {
                        vstd::utf8::encode_utf8_valid_utf8(text@);
                        vstd::utf8::encode_utf8_decode_utf8(text@);
                    }
                    Some((text, end))
                },
                None => None,
            }
        },
        None => None,
    }
}

/// Reads the datum at `pos`.
fn take_datum(data: &[u8], pos: usize) -> (r: Option<(Datum, usize)>)
    ensures
        match r {
            Some((d, next)) => parse_datum(data@, pos as int) == Some((d@, next as int)),
            None => parse_datum(data@, pos as int) is None,
        },
{
    if pos >= data.len() {
        return None;
    }
    let tag = data[pos];
    if tag == 0 {
        match take_text(data, pos + 1) {
            Some((text, next)) => Some((Datum::String(text), next)),
            None => None,
        }
    } else if tag == 1 {
        match take_word(data, pos + 1) {
            Some((w, next)) => Some((Datum::Integer(unbias(w)), next)),
            None => None,
        }
    } else if tag == 2 {
        match take_word(data, pos + 1) {
            Some((w, next)) => Some((Datum::Float(w), next)),
            None => None,
        }
    } else if tag == 3 {
        if data.len() - pos >= 2 && data[pos + 1] <= 1 {
            Some((Datum::Boolean(data[pos + 1] == 1), pos + 2))
        } else {
            None
        }
    } else if tag == 4 {
        match take_word(data, pos + 1) {
            Some((w, next)) => Some((Datum::DateTime(unbias(w)), next)),
            None => None,
        }
    } else if tag == 5 {
        match take_id(data, pos + 1) {
            Some((id, next)) => Some((Datum::Entity(id), next)),
            None => None,
        }
    } else {
        None
    }
}

/// Reads the action at `pos`, nested to at most `depth` levels.
fn take_action(data: &[u8], pos: usize, depth: usize) -> (r: Option<(Action, usize)>)
    ensures
        match r {
            Some((a, next)) => parse_action(data@, pos as int, depth as nat) == Some(
                (a@, next as int),
            ),
            None => parse_action(data@, pos as int, depth as nat) is None,
        },
    decreases depth, 0nat,
{
    if pos >= data.len() {
        return None;
    }
    let tag = data[pos];
    if tag == 0 {
        match take_id(data, pos + 1) {
            Some((id, next)) => Some((Action::CreateEntity { id }, next)),
            None => None,
        }
    } else if tag == 1 {
        match take_id(data, pos + 1) {
            Some((subject, at_text)) => match take_text(data, at_text) {
                Some((predicate, at_datum)) => match take_datum(data, at_datum) {
                    Some((datum, next)) => Some((Action::AddFact { subject, predicate, datum }, next)),
                    None => None,
                },
                None => None,
            },
            None => None,
        }
    } else if tag == 2 {
        match take_id(data, pos + 1) {
            Some((subject, at_text)) => match take_text(data, at_text) {
                Some((predicate, next)) => Some((Action::RemoveFact { subject, predicate }, next)),
                None => None,
            },
            None => None,
        }
    } else if tag == 3 {
        match take_id(data, pos + 1) {
            Some((id, next)) => Some((Action::DeleteEntity { id }, next)),
            None => None,
        }
    } else if tag == 4 && depth > 0 {
        match take_word(data, pos + 1) {
            Some((count, at_list)) => match take_actions(data, at_list, count, depth - 1) {
                Some((actions, next)) => Some((Action::Transaction { actions }, next)),
                None => None,
            },
            None => None,
        }
    } else {
        None
    }
}

/// Reads `count` actions from `pos` on.
fn take_actions(data: &[u8], pos: usize, count: u64, depth: usize) -> (r: Option<
    (Vec<Action>, usize),
>)
    ensures
        match r {
            Some((list, next)) => parse_actions(
                data@,
                pos as int,
                count as nat,
                depth as nat,
                Seq::empty(),
            ) == Some((action_views(list@), next as int)),
            None => parse_actions(data@, pos as int, count as nat, depth as nat, Seq::empty())
                is None,
        },
    decreases depth, 1nat,
{
    let mut list: Vec<Action> = Vec::new();
    let mut at: usize = pos;
    let mut done: u64 = 0;
    while done < count
        invariant
            done <= count,
            parse_actions(data@, pos as int, count as nat, depth as nat, Seq::empty())
                == parse_actions(
                data@,
                at as int,
                (count - done) as nat,
                depth as nat,
                action_views(list@),
            ),
        decreases count - done,
    {
        match take_action(data, at, depth) {
            Some((a, next)) => {
                proof {
                    assert(list@.push(a).drop_last() == list@);
                }
                list.push(a);
                at = next;
            },
            None => {
                return None;
            },
        }
        done = done + 1;
    }
    Some((list, at))
}

/// `part` stands in `s` at `pos`.
spec fn holds_at(s: Seq<u8>, pos: int, part: Seq<u8>) -> bool {
    0 <= pos && pos + part.len() <= s.len() && s.subrange(pos, pos + part.len()) == part
}

/// Where two parts stand joined, each stands in its place.
proof fn lemma_holds_at_split(s: Seq<u8>, pos: int, a: Seq<u8>, b: Seq<u8>)
    requires
        holds_at(s, pos, a + b),
    ensures
        holds_at(s, pos, a),
        holds_at(s, pos + a.len(), b),
{
    let whole = s.subrange(pos, pos + (a + b).len());
    assert(s.subrange(pos, pos + a.len()) == whole.subrange(0, a.len() as int));
    assert((a + b).subrange(0, a.len() as int) == a);
    assert(s.subrange(pos + a.len(), pos + a.len() + b.len()) == whole.subrange(
        a.len() as int,
        (a + b).len() as int,
    ));
    assert((a + b).subrange(a.len() as int, (a + b).len() as int) == b);
}

/// Where two parts stand one behind the other, they stand joined.
proof fn lemma_holds_at_join(s: Seq<u8>, pos: int, a: Seq<u8>, b: Seq<u8>)
    requires
        holds_at(s, pos, a),
        holds_at(s, pos + a.len(), b),
    ensures
        holds_at(s, pos, a + b),
{
    assert(s.subrange(pos, pos + (a + b).len()) == s.subrange(pos, pos + a.len()) + s.subrange(
        pos + a.len(),
        pos + a.len() + b.len(),
    ));
}

/// `biased` and `unbiased` invert each other.
proof fn lemma_bias_inverts(x: i64, u: u64)
    ensures
        unbiased(biased(x)) == x,
        biased(unbiased(u)) == u,
{
}

/// The payloads of a list are the first payload followed by those of the
/// rest.
proof fn lemma_actions_bytes_front(list: Seq<ActionView>)
    requires
        list.len() > 0,
    ensures
        actions_bytes(list) == action_bytes(list.first()) + actions_bytes(list.drop_first()),
    decreases list.len(),
{
    let front = list.drop_last();
    let rest = list.drop_first();
    assert(actions_bytes(list) == actions_bytes(front) + action_bytes(list.last()));
    if list.len() == 1 {
        assert(Seq::<u8>::empty() + action_bytes(list.last()) == action_bytes(list.first())
            + Seq::<u8>::empty());
    } else {
        lemma_actions_bytes_front(front);
        assert(rest.drop_last() == front.drop_first());
        assert((action_bytes(list.first()) + actions_bytes(front.drop_first())) + action_bytes(
            list.last(),
        ) == action_bytes(list.first()) + (actions_bytes(front.drop_first()) + action_bytes(
            list.last(),
        )));
    }
}

/// Parsing the bytes of an integer yields the integer.
proof fn lemma_word_parses(s: Seq<u8>, pos: int, v: u64)
    requires
        holds_at(s, pos, spec_u64_to_le_bytes(v)),
    ensures
        parse_word(s, pos) == Some((v, pos + 8)),
        spec_u64_to_le_bytes(v).len() == 8,
{
    vstd::bytes::lemma_auto_spec_u64_to_from_le_bytes();
}

/// Parsing the bytes of an identifier yields the identifier.
proof fn lemma_id_parses(s: Seq<u8>, pos: int, v: u128)
    requires
        holds_at(s, pos, spec_u128_to_le_bytes(v)),
    ensures
        parse_id(s, pos) == Some((v, pos + 16)),
        spec_u128_to_le_bytes(v).len() == 16,
{
    vstd::bytes::lemma_auto_spec_u128_to_from_le_bytes();
}

/// Parsing the bytes of a text yields the text.
proof fn lemma_text_parses(s: Seq<u8>, pos: int, text: Seq<char>)
    requires
        text_fits(text),
        holds_at(s, pos, text_bytes(text)),
    ensures
        parse_text(s, pos) == Some((text, pos + text_bytes(text).len())),
{
    let body = encode_utf8(text);
    let head = spec_u64_to_le_bytes(body.len() as u64);
    lemma_holds_at_split(s, pos, head, body);
    lemma_word_parses(s, pos, body.len() as u64);
    vstd::utf8::encode_utf8_valid_utf8(text);
    vstd::utf8::encode_utf8_decode_utf8(text);
}

/// Parsing the bytes of a datum yields the datum.
proof fn lemma_datum_parses(s: Seq<u8>, pos: int, d: DatumView)
    requires
        datum_fits(d),
        holds_at(s, pos, datum_bytes(d)),
    ensures
        parse_datum(s, pos) == Some((d, pos + datum_bytes(d).len())),
{
    match d {
        DatumView::String(text) => {
            lemma_holds_at_split(s, pos, seq![0u8], text_bytes(text));
            lemma_text_parses(s, pos + 1, text);
            assert(s[pos] == s.subrange(pos, pos + 1)[0]);
        },
        DatumView::Integer(i) => {
            lemma_holds_at_split(s, pos, seq![1u8], spec_u64_to_le_bytes(biased(i)));
            lemma_word_parses(s, pos + 1, biased(i));
            lemma_bias_inverts(i, 0);
            assert(s[pos] == s.subrange(pos, pos + 1)[0]);
        },
        DatumView::Float(bits) => {
            lemma_holds_at_split(s, pos, seq![2u8], spec_u64_to_le_bytes(bits));
            lemma_word_parses(s, pos + 1, bits);
            assert(s[pos] == s.subrange(pos, pos + 1)[0]);
        },
        DatumView::Boolean(b) => {},
        DatumView::DateTime(t) => {
            lemma_holds_at_split(s, pos, seq![4u8], spec_u64_to_le_bytes(biased(t)));
            lemma_word_parses(s, pos + 1, biased(t));
            lemma_bias_inverts(t, 0);
            assert(s[pos] == s.subrange(pos, pos + 1)[0]);
        },
        DatumView::Entity(id) => {
            lemma_holds_at_split(s, pos, seq![5u8], spec_u128_to_le_bytes(id));
            lemma_id_parses(s, pos + 1, id);
            assert(s[pos] == s.subrange(pos, pos + 1)[0]);
        },
    }
}

/// Parsing the payload of an action yields the action.
proof fn lemma_action_parses(s: Seq<u8>, pos: int, a: ActionView, depth: nat)
    requires
        encodable_within(a, depth),
        holds_at(s, pos, action_bytes(a)),
    ensures
        parse_action(s, pos, depth) == Some((a, pos + action_bytes(a).len())),
    decreases a,
{
    match a {
        ActionView::CreateEntity { id } => {
            lemma_holds_at_split(s, pos, seq![0u8], spec_u128_to_le_bytes(id));
            lemma_id_parses(s, pos + 1, id);
            assert(s[pos] == s.subrange(pos, pos + 1)[0]);
        },
        ActionView::AddFact { subject, predicate, datum } => {
            let id = spec_u128_to_le_bytes(subject);
            lemma_holds_at_split(s, pos, seq![1u8] + id + text_bytes(predicate), datum_bytes(datum));
            lemma_holds_at_split(s, pos, seq![1u8] + id, text_bytes(predicate));
            lemma_holds_at_split(s, pos, seq![1u8], id);
            lemma_id_parses(s, pos + 1, subject);
            lemma_text_parses(s, pos + 17, predicate);
            lemma_datum_parses(s, pos + 17 + text_bytes(predicate).len(), datum);
            assert(s[pos] == s.subrange(pos, pos + 1)[0]);
        },
        ActionView::RemoveFact { subject, predicate } => {
            let id = spec_u128_to_le_bytes(subject);
            lemma_holds_at_split(s, pos, seq![2u8] + id, text_bytes(predicate));
            lemma_holds_at_split(s, pos, seq![2u8], id);
            lemma_id_parses(s, pos + 1, subject);
            lemma_text_parses(s, pos + 17, predicate);
            assert(s[pos] == s.subrange(pos, pos + 1)[0]);
        },
        ActionView::DeleteEntity { id } => {
            lemma_holds_at_split(s, pos, seq![3u8], spec_u128_to_le_bytes(id));
            lemma_id_parses(s, pos + 1, id);
            assert(s[pos] == s.subrange(pos, pos + 1)[0]);
        },
        ActionView::Transaction { actions } => {
            let count = spec_u64_to_le_bytes(actions.len() as u64);
            lemma_holds_at_split(s, pos, seq![4u8] + count, actions_bytes(actions));
            lemma_holds_at_split(s, pos, seq![4u8], count);
            lemma_word_parses(s, pos + 1, actions.len() as u64);
            lemma_actions_parse(s, pos + 9, actions, (depth - 1) as nat, Seq::empty());
            assert(s[pos] == s.subrange(pos, pos + 1)[0]);
        },
    }
}

/// Parsing the payloads of a list of actions yields the list, behind what
/// was found before.
proof fn lemma_actions_parse(
    s: Seq<u8>,
    pos: int,
    list: Seq<ActionView>,
    depth: nat,
    found: Seq<ActionView>,
)
    requires
        forall|i: int| 0 <= i < list.len() ==> encodable_within(#[trigger] list[i], depth),
        holds_at(s, pos, actions_bytes(list)),
    ensures
        parse_actions(s, pos, list.len(), depth, found) == Some(
            (found + list, pos + actions_bytes(list).len()),
        ),
    decreases list,
{
    if list.len() > 0 {
        let first = list.first();
        let rest = list.drop_first();
        lemma_actions_bytes_front(list);
        lemma_holds_at_split(s, pos, action_bytes(first), actions_bytes(rest));
        lemma_action_parses(s, pos, first, depth);
        assert forall|i: int| 0 <= i < rest.len() implies encodable_within(
            #[trigger] rest[i],
            depth,
        ) by {}
        lemma_actions_parse(s, pos + action_bytes(first).len(), rest, depth, found.push(first));
    }
}

/// What parses as an integer is the bytes of that integer.
proof fn lemma_word_parsed(s: Seq<u8>, pos: int)
    requires
        parse_word(s, pos) is Some,
    ensures
        holds_at(s, pos, spec_u64_to_le_bytes(parse_word(s, pos).unwrap().0)),
        parse_word(s, pos).unwrap().1 == pos + 8,
        spec_u64_to_le_bytes(parse_word(s, pos).unwrap().0).len() == 8,
{
    vstd::bytes::lemma_auto_spec_u64_to_from_le_bytes();
}

/// What parses as an identifier is the bytes of that identifier.
proof fn lemma_id_parsed(s: Seq<u8>, pos: int)
    requires
        parse_id(s, pos) is Some,
    ensures
        holds_at(s, pos, spec_u128_to_le_bytes(parse_id(s, pos).unwrap().0)),
        parse_id(s, pos).unwrap().1 == pos + 16,
        spec_u128_to_le_bytes(parse_id(s, pos).unwrap().0).len() == 16,
{
    vstd::bytes::lemma_auto_spec_u128_to_from_le_bytes();
}

/// What parses as a text is the bytes of that text.
proof fn lemma_text_parsed(s: Seq<u8>, pos: int)
    requires
        parse_text(s, pos) is Some,
    ensures
        text_fits(parse_text(s, pos).unwrap().0),
        holds_at(s, pos, text_bytes(parse_text(s, pos).unwrap().0)),
        parse_text(s, pos).unwrap().1 == pos + text_bytes(parse_text(s, pos).unwrap().0).len(),
{
    let (n, start) = parse_word(s, pos).unwrap();
    let body = s.subrange(start, start + n);
    lemma_word_parsed(s, pos);
    vstd::utf8::decode_utf8_encode_utf8(body);
    lemma_holds_at_join(s, pos, spec_u64_to_le_bytes(n), body);
}

/// The byte at a position stands there.
proof fn lemma_tag_holds(s: Seq<u8>, pos: int, tag: u8)
    requires
        0 <= pos < s.len(),
        s[pos] == tag,
    ensures
        holds_at(s, pos, seq![tag]),
{
    assert(s.subrange(pos, pos + 1) == seq![tag]);
}

/// What parses as a datum is the bytes of that datum.
proof fn lemma_datum_parsed(s: Seq<u8>, pos: int)
    requires
        parse_datum(s, pos) is Some,
    ensures
        datum_fits(parse_datum(s, pos).unwrap().0),
        holds_at(s, pos, datum_bytes(parse_datum(s, pos).unwrap().0)),
        parse_datum(s, pos).unwrap().1 == pos + datum_bytes(parse_datum(s, pos).unwrap().0).len(),
{
    let tag = s[pos];
    lemma_tag_holds(s, pos, tag);
    if tag == 0 {
        lemma_text_parsed(s, pos + 1);
        lemma_holds_at_join(s, pos, seq![0u8], text_bytes(parse_text(s, pos + 1).unwrap().0));
    } else if tag == 1 {
        let w = parse_word(s, pos + 1).unwrap().0;
        lemma_word_parsed(s, pos + 1);
        lemma_bias_inverts(0, w);
        lemma_holds_at_join(s, pos, seq![1u8], spec_u64_to_le_bytes(w));
    } else if tag == 2 {
        let w = parse_word(s, pos + 1).unwrap().0;
        lemma_word_parsed(s, pos + 1);
        lemma_holds_at_join(s, pos, seq![2u8], spec_u64_to_le_bytes(w));
    } else if tag == 3 {
        assert(s.subrange(pos, pos + 2) == seq![3u8, s[pos + 1]]);
    } else if tag == 4 {
        let w = parse_word(s, pos + 1).unwrap().0;
        lemma_word_parsed(s, pos + 1);
        lemma_bias_inverts(0, w);
        lemma_holds_at_join(s, pos, seq![4u8], spec_u64_to_le_bytes(w));
    } else {
        let id = parse_id(s, pos + 1).unwrap().0;
        lemma_id_parsed(s, pos + 1);
        lemma_holds_at_join(s, pos, seq![5u8], spec_u128_to_le_bytes(id));
    }
}

/// What parses as an action is the payload of that action.
proof fn lemma_action_parsed(s: Seq<u8>, pos: int, depth: nat)
    requires
        parse_action(s, pos, depth) is Some,
    ensures
        encodable_within(parse_action(s, pos, depth).unwrap().0, depth),
        holds_at(s, pos, action_bytes(parse_action(s, pos, depth).unwrap().0)),
        parse_action(s, pos, depth).unwrap().1 == pos + action_bytes(
            parse_action(s, pos, depth).unwrap().0,
        ).len(),
    decreases depth, 0nat,
{
    let tag = s[pos];
    lemma_tag_holds(s, pos, tag);
    if tag == 0 {
        let id = parse_id(s, pos + 1).unwrap().0;
        lemma_id_parsed(s, pos + 1);
        lemma_holds_at_join(s, pos, seq![0u8], spec_u128_to_le_bytes(id));
    } else if tag == 1 {
        let (subject, at_text) = parse_id(s, pos + 1).unwrap();
        let (predicate, at_datum) = parse_text(s, at_text).unwrap();
        let (datum, next) = parse_datum(s, at_datum).unwrap();
        let id = spec_u128_to_le_bytes(subject);
        lemma_id_parsed(s, pos + 1);
        lemma_text_parsed(s, at_text);
        lemma_datum_parsed(s, at_datum);
        lemma_holds_at_join(s, pos, seq![1u8], id);
        lemma_holds_at_join(s, pos, seq![1u8] + id, text_bytes(predicate));
        lemma_holds_at_join(s, pos, seq![1u8] + id + text_bytes(predicate), datum_bytes(datum));
    } else if tag == 2 {
        let (subject, at_text) = parse_id(s, pos + 1).unwrap();
        let (predicate, next) = parse_text(s, at_text).unwrap();
        let id = spec_u128_to_le_bytes(subject);
        lemma_id_parsed(s, pos + 1);
        lemma_text_parsed(s, at_text);
        lemma_holds_at_join(s, pos, seq![2u8], id);
        lemma_holds_at_join(s, pos, seq![2u8] + id, text_bytes(predicate));
    } else if tag == 3 {
        let id = parse_id(s, pos + 1).unwrap().0;
        lemma_id_parsed(s, pos + 1);
        lemma_holds_at_join(s, pos, seq![3u8], spec_u128_to_le_bytes(id));
    } else {
        let (count, at_list) = parse_word(s, pos + 1).unwrap();
        let below = (depth - 1) as nat;
        let (actions, next) = parse_actions(s, at_list, count as nat, below, Seq::empty()).unwrap();
        lemma_word_parsed(s, pos + 1);
        lemma_actions_parsed(s, at_list, count as nat, below, Seq::empty());
        assert(actions.skip(0) == actions);
        lemma_holds_at_join(s, pos, seq![4u8], spec_u64_to_le_bytes(count));
        lemma_holds_at_join(
            s,
            pos,
            seq![4u8] + spec_u64_to_le_bytes(count),
            actions_bytes(actions),
        );
    }
}

/// What parses as a list of actions is, behind what was found before, the
/// payloads of those actions.
proof fn lemma_actions_parsed(s: Seq<u8>, pos: int, count: nat, depth: nat, found: Seq<ActionView>)
    requires
        parse_actions(s, pos, count, depth, found) is Some,
        0 <= pos <= s.len(),
    ensures
        ({
            let (all, next) = parse_actions(s, pos, count, depth, found).unwrap();
            let list = all.skip(found.len() as int);
            &&& all.len() == found.len() + count
            &&& all.take(found.len() as int) == found
            &&& forall|i: int| 0 <= i < list.len() ==> encodable_within(#[trigger] list[i], depth)
            &&& holds_at(s, pos, actions_bytes(list))
            &&& next == pos + actions_bytes(list).len()
        }),
    decreases depth, count + 1,
{
    let (all, next) = parse_actions(s, pos, count, depth, found).unwrap();
    let list = all.skip(found.len() as int);
    if count == 0 {
        assert(s.subrange(pos, pos) == Seq::<u8>::empty());
    } else {
        let (a, middle) = parse_action(s, pos, depth).unwrap();
        lemma_action_parsed(s, pos, depth);
        lemma_actions_parsed(s, middle, (count - 1) as nat, depth, found.push(a));
        let k = found.len() as int;
        let rest = all.skip(k + 1);
        assert(all[k] == all.take(k + 1)[k]);
        assert(list.drop_first() == rest);
        lemma_actions_bytes_front(list);
        lemma_holds_at_join(s, pos, action_bytes(a), actions_bytes(rest));
        assert forall|i: int| 0 <= i < list.len() implies encodable_within(
            #[trigger] list[i],
            depth,
        ) by {
            if i > 0 {
                assert(list[i] == rest[i - 1]);
            }
        }
    }
}

/// Whether `bytes` is the payload of an action.
pub open spec fn is_payload(bytes: Seq<u8>) -> bool {
    exists|v: ActionView| encodable(v) && #[trigger] action_bytes(v) == bytes
}

/// The action whose payload `bytes` is, where it is one.
pub open spec fn payload_action(bytes: Seq<u8>) -> ActionView
    recommends
        is_payload(bytes),
{
    choose|v: ActionView| encodable(v) && #[trigger] action_bytes(v) == bytes
}

/// Two actions with the same payload are the same action.
pub proof fn lemma_payload_determines_action(a: ActionView, b: ActionView)
    requires
        encodable(a),
        encodable(b),
        action_bytes(a) == action_bytes(b),
    ensures
        a == b,
{
    let s = action_bytes(a);
    assert(s.subrange(0, s.len() as int) == s);
    lemma_action_parses(s, 0, a, MAX_NESTING as nat);
    lemma_action_parses(s, 0, b, MAX_NESTING as nat);
}

/// Decoding inverts encoding: the payload of an action is a payload, and
/// its action is that action.
pub proof fn lemma_payload_round_trip(a: ActionView)
    requires
        encodable(a),
    ensures
        is_payload(action_bytes(a)),
        payload_action(action_bytes(a)) == a,
{
    lemma_payload_determines_action(a, payload_action(action_bytes(a)));
}

/// The action of a payload: the one action whose payload it is, or none if
/// it is the payload of no action.
pub fn decode_action(payload: &[u8]) -> (action: Option<Action>)
    ensures
        match action {
            Some(a) => encodable(a@) && payload@ == action_bytes(a@) && is_payload(payload@)
                && a@ == payload_action(payload@),
            None => !is_payload(payload@),
        },
{
    let parsed = take_action(payload, 0, MAX_NESTING);
    proof {
        assert(payload@.subrange(0, payload@.len() as int) == payload@);
        if parse_action(payload@, 0, MAX_NESTING as nat) is Some {
            lemma_action_parsed(payload@, 0, MAX_NESTING as nat);
        }
        assert forall|v: ActionView| encodable(v) && payload@ == #[trigger] action_bytes(
            v,
        ) implies parse_action(payload@, 0, MAX_NESTING as nat) == Some(
            (v, payload@.len() as int),
        ) by {
            lemma_action_parses(payload@, 0, v, MAX_NESTING as nat);
        }
    }
    match parsed {
        Some((a, next)) => {
            if next == payload.len() {
                proof {
                    lemma_payload_round_trip(a@);
                }
                Some(a)
            } else {
                None
            }
        },
        None => None,
    }
}

} // verus!
