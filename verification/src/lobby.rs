//! Room creation: a fresh room code, and the host and guest tokens, of which
//! the server keeps only hashes.
use vstd::prelude::*;
use vstd::utf8::encode_utf8;

use crate::crypto::{
    base64_unpadded_len, base64_url_encode, encode_base64_url, is_base64_url_char, random_below,
    random_bytes_32, sha256, sha256_digest,
};
use crate::room_code::{
    all_codes_taken, index_chars, index_key, room_code_at, CODE_SPACE,
};
use crate::server::{counters_of, creation_counted, in_current_window, room_ok, AppState, IpKey};
use crate::state::Room;

verus! {

broadcast use vstd::std_specs::hash::group_hash_axioms;

/// How many random codes are drawn before the code space is searched in
/// order for a free one.
pub const RANDOM_CODE_ATTEMPTS: u64 = 64;

/// The answer to a room creation: the room code, and the host and guest
/// tokens, each returned exactly once.
pub struct CreateRoomResponse {
    pub room_id: String,
    pub host_token: String,
    pub guest_token: String,
}

#[derive(PartialEq, Eq, Structural, Debug, Clone, Copy)]
pub enum CreateRoomError {
    /// The client used up its room creations for the current window.
    TooManyRequests,
    /// The room limit is reached, or no room code is free.
    ServiceUnavailable,
}

/// `t` is a token as issued: the unpadded URL-safe base64 encoding of 32
/// bytes.
pub open spec fn is_issued_token(t: Seq<char>) -> bool {
    &&& exists|b: Seq<u8>| b.len() == 32 && t == base64_url_encode(b)
    &&& t.len() == base64_unpadded_len(32)
    &&& forall|i: int| 0 <= i < t.len() ==> #[trigger] is_base64_url_char(t[i])
}

/// `r` is a new room created at `now` for the tokens of `resp`: it stores the
/// SHA-256 hashes of their bytes, and nothing else has happened in it.
pub open spec fn fresh_room(r: Room, now: u64, resp: CreateRoomResponse) -> bool {
    &&& r.host_token_hash@ == sha256_digest(encode_utf8(resp.host_token@))
    &&& r.guest_token_hash@ == sha256_digest(encode_utf8(resp.guest_token@))
    &&& r.created_at == now
    &&& r.next_id == 1
    &&& r.participants@.len() == 0
    &&& r.host_id is None
    &&& r.locked_by is None
    &&& r.lock_seq == 0
    &&& !r.everyone_can_generate
    &&& !r.closing
    &&& r.deliveries@.len() == 0
}

fn new_token() -> (t: String)
    ensures
        is_issued_token(t@),
{
    let bytes = random_bytes_32();
    encode_base64_url(&bytes)
}

/// The index of a free room code: random draws first, then a search of the
/// whole code space in order; `None` when every code is taken.
fn free_code(rooms: &std::collections::HashMap<u64, Room>) -> (r: Option<u64>)
    ensures
        r matches Some(c) ==> c < CODE_SPACE && !rooms@.contains_key(index_key(c as nat) as u64),
        r is None ==> all_codes_taken(rooms@),
{
    let mut attempts: u64 = 0;
    while attempts < RANDOM_CODE_ATTEMPTS
        decreases RANDOM_CODE_ATTEMPTS - attempts,
    {
        let c = random_below(0x4000_0000) as u64;
        let (key, _) = room_code_at(c);
        if !rooms.contains_key(&key) {
            return Some(c);
        }
        attempts = attempts + 1;
    }
    let mut c: u64 = 0;
    while c < CODE_SPACE
        invariant
            c <= CODE_SPACE,
            forall|d: nat| d < c ==> #[trigger] rooms@.contains_key(index_key(d) as u64),
        decreases CODE_SPACE - c,
    {
        let (key, _) = room_code_at(c);
        if !rooms.contains_key(&key) {
            return Some(c);
        }
        c = c + 1;
    }
    None
}

/// Creates a room for the client at `ip` at time `now`, unless the client's
/// room-creation allowance for the window is used up, the room limit is
/// reached, or no room code is free. The server keeps only hashes of the
/// two tokens it returns.
pub fn create_room(state: &mut AppState, ip: IpKey, now: u64) -> (res: Result<
    CreateRoomResponse,
    CreateRoomError,
>)
    requires
        old(state).wf(),
    ensures
        final(state).wf(),
        final(state).cfg == old(state).cfg,
        final(state).active() == old(state).active(),
        final(state).closed == old(state).closed,
        ({
            let c = in_current_window(
                counters_of(old(state).abuse(), ip),
                now,
                old(state).cfg.rate_window,
            );
            let allowed = c.room_creates < old(state).cfg.room_creates_per_window;
            &&& creation_counted(old(state).abuse(), final(state).abuse(), ip, now, old(state).cfg, allowed)
            &&& !allowed ==> res == Err::<CreateRoomResponse, CreateRoomError>(
                CreateRoomError::TooManyRequests,
            ) && final(state).rooms@ == old(state).rooms@
            &&& allowed ==> match res {
                Err(e) => {
                    &&& e == CreateRoomError::ServiceUnavailable
                    &&& final(state).rooms@ == old(state).rooms@
                    &&& old(state).rooms@.len() >= old(state).cfg.max_rooms || all_codes_taken(
                        old(state).rooms@,
                    )
                },
                Ok(resp) => {
                    &&& old(state).rooms@.len() < old(state).cfg.max_rooms
                    &&& is_issued_token(resp.host_token@)
                    &&& is_issued_token(resp.guest_token@)
                    &&& exists|code: nat|
                        {
                            let k = #[trigger] index_key(code) as u64;
                            &&& code < CODE_SPACE
                            &&& resp.room_id@ == index_chars(code)
                            &&& !old(state).rooms@.contains_key(k)
                            &&& final(state).rooms@ == old(state).rooms@.insert(
                                k,
                                final(state).rooms@[k],
                            )
                            &&& fresh_room(final(state).rooms@[k], now, resp)
                        }
                },
            }
        }),
{
    if !state.allow_room_create(ip, now) {
        return Err(CreateRoomError::TooManyRequests);
    }
    let host_token = new_token();
    let host_token_hash = sha256(host_token.as_str().as_bytes());
    let guest_token = new_token();
    let guest_token_hash = sha256(guest_token.as_str().as_bytes());
    if state.rooms.len() >= state.cfg.max_rooms {
        return Err(CreateRoomError::ServiceUnavailable);
    }
    let c = match free_code(&state.rooms) {
        Some(c) => c,
        None => return Err(CreateRoomError::ServiceUnavailable),
    };
    let (key, room_id) = room_code_at(c);
    let room = Room::new(host_token_hash, guest_token_hash, now);
    let ghost before = state.rooms@;
    state.rooms.insert(key, room);
    let resp = CreateRoomResponse { room_id, host_token, guest_token };
    proof {
        assert(state.rooms@.dom() =~= before.dom().insert(key));
        assert(state.rooms@ =~= before.insert(key, state.rooms@[key]));
        assert(room_ok(state.rooms@[key], state.cfg.max_participants_per_room as nat));
        assert forall|j: u64| #[trigger] state.rooms@.contains_key(j) implies room_ok(
            state.rooms@[j],
            state.cfg.max_participants_per_room as nat,
        ) by {
            if j != key {
                assert(before.contains_key(j));
            }
        }
        let k = index_key(c as nat) as u64;
        assert(fresh_room(state.rooms@[k], now, resp));
    }
    Ok(resp)
}

} // verus!
