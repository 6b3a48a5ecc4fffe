//! Updates that the server sends without being asked.

use grammers_tl_types::enums::Updates;
use grammers_tl_types::{Deserializable, Serializable};
use vstd::prelude::*;

use crate::octets::{
    law_signed_numbers_are_read_back, le_bytes, le_signed_32, twos_complement_32,
    twos_complement_64,
};

verus! {

/// `grammers_tl_types::enums::Updates`: what happened on the server.
#[verifier::external_type_specification]
#[verifier::external_body]
pub struct ExUpdates(grammers_tl_types::enums::Updates);

/// The updates that `bytes` write, if they write any.
pub uninterp spec fn updates_in(bytes: Seq<u8>) -> Option<Updates>;

/// The updates of the `messages.invitedUsers` that `bytes` write without its identifier, if they
/// write one.
pub uninterp spec fn invited_in(bytes: Seq<u8>) -> Option<Updates>;

/// The `updateShort` of an `updateDeleteMessages`.
pub uninterp spec fn short_deletion(
    messages: Seq<i32>,
    pts: i32,
    pts_count: i32,
    date: i32,
) -> Updates;

/// The identifier of `messages.affectedMessages`.
pub const AFFECTED_MESSAGES: u32 = 0x84d1_9185;

/// The identifier of `ping_delay_disconnect`.
pub const PING_DELAY_DISCONNECT: u32 = 0xf342_7b8c;

/// The two counters of the `messages.affectedMessages` at the start of `bytes`, if there is one.
pub open spec fn affected_in(bytes: Seq<u8>) -> Option<(i32, i32)> {
    if bytes.len() >= 12 && bytes.take(4) == le_bytes(AFFECTED_MESSAGES as nat, 4) {
        Some((le_signed_32(bytes.subrange(4, 8)), le_signed_32(bytes.subrange(8, 12))))
    } else {
        None
    }
}

/// `Updates::from_bytes`: the contract says only that the result is a function of the bytes, which
/// `updates_in` names.
#[verifier::external_body]
fn parse_updates(bytes: &[u8]) -> (updates: Option<Updates>)
    ensures
        updates == updates_in(bytes@),
{
    Updates::from_bytes(bytes).ok()
}

/// `messages::AffectedMessages::from_bytes`: reads the identifier and the two counters after it,
/// and pays no heed to what follows.
#[verifier::external_body]
fn parse_affected_messages(bytes: &[u8]) -> (counters: Option<(i32, i32)>)
    ensures
        counters == affected_in(bytes@),
{
    match grammers_tl_types::enums::messages::AffectedMessages::from_bytes(bytes) {
        Ok(grammers_tl_types::enums::messages::AffectedMessages::Messages(affected)) => {
            Some((affected.pts, affected.pts_count))
        },
        Err(_) => None,
    }
}

/// `types::messages::InvitedUsers::from_bytes`, of which the field `updates` is taken: the
/// contract says only that the result is a function of the bytes, which `invited_in` names.
#[verifier::external_body]
fn parse_invited_users(bytes: &[u8]) -> (updates: Option<Updates>)
    ensures
        updates == invited_in(bytes@),
{
    match grammers_tl_types::types::messages::InvitedUsers::from_bytes(bytes) {
        Ok(invited) => Some(invited.updates),
        Err(_) => None,
    }
}

/// `types::UpdateShort` of a `types::UpdateDeleteMessages`, converted to `Updates`: the contract
/// says only that the result is a function of the fields, which `short_deletion` names.
#[verifier::external_body]
fn make_short_deletion(messages: Vec<i32>, pts: i32, pts_count: i32, date: i32) -> (updates:
    Updates)
    ensures
        updates == short_deletion(messages@, pts, pts_count, date),
{
    let deletion = grammers_tl_types::types::UpdateDeleteMessages { messages, pts, pts_count };
    grammers_tl_types::types::UpdateShort { update: deletion.into(), date }.into()
}

/// `functions::PingDelayDisconnect::to_bytes`: the identifier, then the two fields, each with its
/// least significant byte first.
#[verifier::external_body]
pub(crate) fn ping_body(ping_id: i64, disconnect_delay: i32) -> (body: Vec<u8>)
    ensures
        body@ == ping_request(ping_id, disconnect_delay),
{
    grammers_tl_types::functions::PingDelayDisconnect { ping_id, disconnect_delay }.to_bytes()
}

/// A request to be pinged back, and to be disconnected from when nothing follows in time.
pub open spec fn ping_request(ping_id: i64, disconnect_delay: i32) -> Seq<u8> {
    le_bytes(PING_DELAY_DISCONNECT as nat, 4) + le_bytes(twos_complement_64(ping_id), 8) + le_bytes(
        twos_complement_32(disconnect_delay),
        4,
    )
}

/// Which of the readings of an update counts. Counters of affected messages stand for the deletion
/// of messages, which is what they mostly come with.
pub open spec fn chosen_update(
    full: Option<Updates>,
    affected: Option<(i32, i32)>,
    invited: Option<Updates>,
) -> Option<Updates> {
    match (full, affected) {
        (Some(updates), _) => Some(updates),
        (None, Some((pts, pts_count))) => Some(short_deletion(seq![], pts, pts_count, 0)),
        (None, None) => invited,
    }
}

/// Chooses among the readings of an update.
pub fn choose_update(
    full: Option<Updates>,
    affected: Option<(i32, i32)>,
    invited: Option<Updates>,
) -> (chosen: Option<Updates>)
    ensures
        chosen == chosen_update(full, affected, invited),
{
    match full {
        Some(updates) => Some(updates),
        None => match affected {
            Some((pts, pts_count)) => {
                let messages: Vec<i32> = Vec::new();
                assert(messages@ =~= seq![]);
                Some(make_short_deletion(messages, pts, pts_count, 0))
            },
            None => invited,
        },
    }
}

/// What an update says.
pub open spec fn update_of(bytes: Seq<u8>) -> Option<Updates> {
    chosen_update(updates_in(bytes), affected_in(bytes), invited_in(bytes))
}

/// Reads an update.
pub fn read_update(bytes: &[u8]) -> (update: Option<Updates>)
    ensures
        update == update_of(bytes@),
{
    match parse_updates(bytes) {
        Some(updates) => Some(updates),
        None => {
            let affected = parse_affected_messages(bytes);
            let invited = if affected.is_none() {
                parse_invited_users(bytes)
            } else {
                None
            };
            choose_update(None, affected, invited)
        },
    }
}

/// A reading as `Updates` always counts. Counters of affected messages, as the server writes them,
/// count where there is no such reading, and stand for a deletion of no particular messages with
/// these counters. The users that were invited count only where neither can be read.
pub proof fn law_readings_of_an_update(bytes: Seq<u8>, pts: i32, pts_count: i32)
    ensures
        updates_in(bytes) is Some ==> update_of(bytes) == updates_in(bytes),
        updates_in(bytes) is None && bytes.len() >= 12 && bytes.take(12) == seq![
            0x85u8,
            0x91u8,
            0xd1u8,
            0x84u8,
        ] + le_bytes(twos_complement_32(pts), 4) + le_bytes(twos_complement_32(pts_count), 4)
            ==> update_of(bytes) == Some(short_deletion(Seq::empty(), pts, pts_count, 0)),
        updates_in(bytes) is None && (bytes.len() < 12 || bytes.take(4) != seq![
            0x85u8,
            0x91u8,
            0xd1u8,
            0x84u8,
        ]) ==> update_of(bytes) == invited_in(bytes),
{
    let id = seq![0x85u8, 0x91u8, 0xd1u8, 0x84u8];
    reveal_with_fuel(le_bytes, 5);
    assert(le_bytes(AFFECTED_MESSAGES as nat, 4) =~= id);
    let one = le_bytes(twos_complement_32(pts), 4);
    let two = le_bytes(twos_complement_32(pts_count), 4);
    if bytes.len() >= 12 && bytes.take(12) == id + one + two {
        let written = bytes.take(12);
        assert(bytes.take(4) =~= written.take(4));
        assert(written.take(4) =~= id);
        assert(bytes.subrange(4, 8) =~= written.subrange(4, 8));
        assert(written.subrange(4, 8) =~= one);
        assert(bytes.subrange(8, 12) =~= written.subrange(8, 12));
        assert(written.subrange(8, 12) =~= two);
        law_signed_numbers_are_read_back(pts);
        law_signed_numbers_are_read_back(pts_count);
    }
}

} // verus!
