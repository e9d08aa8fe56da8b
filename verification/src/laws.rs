//! Properties that relate several operations of the relay.
use vstd::prelude::*;
use vstd::utf8::{encode_utf8, is_ascii_chars, is_ascii_chars_encode_utf8};

use crate::crypto::{base64_unpadded_len, is_base64_url_char};
use crate::lobby::{fresh_room, is_issued_token, CreateRoomResponse};
use crate::room_code::{
    code_key, index_bytes, index_chars, index_key, is_room_code, lemma_index_bytes, CODE_LEN,
    CODE_SPACE,
};
use crate::server::{counters_of, creation_counted, in_current_window, opened, released, AppState, IpKey};
use crate::config::{config_of, parse_unsigned, Config, ConfigVars};
use crate::state::Room;
use crate::protocol::{server_msg_json, ClientMsg, ServerMsg, HOST_LEFT, SLOW_CONSUMER};
use crate::state::{closed_since, refused_since};
use crate::ws::{departed, disconnect_effect, hello_outcome, joined, admitted, untouched, released_then_left, told_since, dispatch_effect, relay_effect, admission, announced, announced_in, closed_room, host_kept, lock_dropped, purged, told_left, gen_end_effect, gen_start_effect, lookup, next_seq, policy_effect};

verus! {

/// An issued token is 43 ASCII characters, so its bytes are 43 long.
proof fn lemma_issued_token_bytes(t: Seq<char>)
    requires
        is_issued_token(t),
    ensures
        encode_utf8(t).len() == 43,
{
    assert(is_ascii_chars(t)) by {
        assert forall|i: int| 0 <= i < t.len() implies '\0' <= #[trigger] t[i] <= '\u{7f}' by {
            assert(is_base64_url_char(t[i]));
        }
    }
    is_ascii_chars_encode_utf8(t);
    assert(base64_unpadded_len(32) == 43);
}

/// The tokens that room creation hands out are accepted by that room: the
/// host token admits its holder as host, the guest token admits its holder
/// as a guest (as long as a participant fits).
pub proof fn issued_tokens_admit(r: Room, now: u64, resp: CreateRoomResponse, max_participants: nat)
    requires
        fresh_room(r, now, resp),
        is_issued_token(resp.host_token@),
        is_issued_token(resp.guest_token@),
        max_participants >= 1,
    ensures
        admission(r, Some(encode_utf8(resp.host_token@)), None, max_participants) == Ok::<
            bool,
            u16,
        >(true),
        admission(r, None, Some(encode_utf8(resp.guest_token@)), max_participants) == Ok::<
            bool,
            u16,
        >(false),
{
    lemma_issued_token_bytes(resp.host_token@);
    lemma_issued_token_bytes(resp.guest_token@);
}

/// The text of every room code is a valid room id, and it names the key the
/// code is stored under.
pub proof fn room_code_text_names_its_key(c: nat)
    requires
        c < CODE_SPACE,
    ensures
        is_room_code(encode_utf8(index_chars(c))),
        code_key(encode_utf8(index_chars(c))) == index_key(c),
{
    let b = index_bytes(c, CODE_LEN as nat);
    let t = index_chars(c);
    lemma_index_bytes(c, CODE_LEN as nat);
    assert(is_ascii_chars(t)) by {
        assert forall|i: int| 0 <= i < t.len() implies '\0' <= #[trigger] t[i] <= '\u{7f}' by {
            assert(t[i] == b[i] as char);
            assert(crate::room_code::code_alphabet().contains(b[i]));
        }
    }
    is_ascii_chars_encode_utf8(t);
    assert(encode_utf8(t) =~= b) by {
        assert forall|i: int| 0 <= i < b.len() implies encode_utf8(t)[i] == b[i] by {
            assert(t[i] == b[i] as char);
            assert(crate::room_code::code_alphabet().contains(b[i]));
        }
    }
}

/// A room has at most one host among its participants.
pub proof fn at_most_one_host(r: Room, i: int, j: int)
    requires
        r.wf(),
        0 <= i < r.participants@.len(),
        0 <= j < r.participants@.len(),
        r.participants@[i].is_host,
        r.participants@[j].is_host,
    ensures
        i == j,
{
    if i < j {
        assert(r.participants@[i].id < r.participants@[j].id);
    } else if j < i {
        assert(r.participants@[j].id < r.participants@[i].id);
    }
}

/// Every lock and unlock moves the lock sequence number to a new value.
pub proof fn lock_seq_always_moves(s: u64)
    ensures
        next_seq(s) != s,
{
}

/// Once the host ends a generation, the timer started for that lock finds it
/// stale: the room no longer holds a lock with that sequence number.
pub proof fn ended_lock_leaves_timer_stale(
    s0: AppState,
    s1: AppState,
    s2: AppState,
    room_id: &str,
    starter: u64,
    starter_is_host: bool,
    host: u64,
    seq: u64,
)
    requires
        gen_start_effect(s0, s1, room_id, starter, starter_is_host, Some(seq)),
        gen_end_effect(s1, s2, room_id, host, true),
    ensures
        lookup(s2.rooms@, room_id) matches Some((k, r)) ==> !(r.locked_by is Some && r.lock_seq == seq),
{
    if let Some((k, r)) = lookup(s2.rooms@, room_id) {
        assert(s1.rooms@.contains_key(k));
        let m = s1.rooms@[k];
        if m.locked_by is Some {
            let u = Room { locked_by: None, lock_seq: next_seq(m.lock_seq), ..m };
            assert(purged(r, u) && host_kept(u, r));
            assert(!lock_dropped(u, r));
        }
    }
}

/// Only the host changes who may generate: a guest's policy message leaves
/// the room's policy as it was.
pub proof fn guests_cannot_change_policy(
    old: AppState,
    new: AppState,
    room_id: &str,
    guest: u64,
    everyone: bool,
)
    requires
        policy_effect(old, new, room_id, guest, false, everyone),
    ensures
        lookup(old.rooms@, room_id) matches Some((k, r)) ==> new.rooms@[k].everyone_can_generate
            == r.everyone_can_generate,
        lookup(old.rooms@, room_id) matches Some((k, r)) ==> new.rooms@[k].locked_by == r.locked_by,
{
}

/// Only the host ends a generation: a guest's release leaves the lock held.
pub proof fn guests_cannot_release_the_lock(old: AppState, new: AppState, room_id: &str, guest: u64)
    requires
        gen_end_effect(old, new, room_id, guest, false),
    ensures
        lookup(old.rooms@, room_id) matches Some((k, r)) ==> new.rooms@[k].locked_by == r.locked_by
            && new.rooms@[k].lock_seq == r.lock_seq,
{
}

/// A slow client only ever gets itself disconnected: after an announcement in
/// a room that is still open, a participant of it is still there exactly when
/// none of the frames for it since was refused by its full queue, and one
/// that was dropped was sent a slow-consumer close frame.
pub proof fn only_slow_consumers_are_dropped(
    old_rooms: Map<u64, Room>,
    new_rooms: Map<u64, Room>,
    k: u64,
    r: Room,
    to: Seq<u64>,
    msg: ServerMsg,
    x: u64,
)
    requires
        announced(old_rooms, new_rooms, k, r, to, msg),
        new_rooms.contains_key(k),
        r.has(x),
    ensures
        new_rooms[k].has(x) <==> !refused_since(new_rooms[k].deliveries@, r.deliveries@.len() as int, x),
        !new_rooms[k].has(x) ==> closed_since(
            new_rooms[k].deliveries@,
            r.deliveries@.len() as int,
            x,
            SLOW_CONSUMER,
        ),
{
}

/// Everyone still in a room after an announcement was told of each
/// participant that the slow-consumer purge dropped.
pub proof fn dropped_participants_are_announced(
    old_rooms: Map<u64, Room>,
    new_rooms: Map<u64, Room>,
    k: u64,
    r: Room,
    to: Seq<u64>,
    msg: ServerMsg,
    x: u64,
    y: u64,
)
    requires
        announced(old_rooms, new_rooms, k, r, to, msg),
        new_rooms.contains_key(k),
        r.has(x),
        !new_rooms[k].has(x),
        new_rooms[k].has(y),
    ensures
        told_left(new_rooms[k].deliveries@, r.deliveries@.len() as int, y, x),
{
}

/// The generation lock is released when the guest who holds it leaves, also
/// when that guest is dropped as a slow consumer: after an announcement in a
/// room that stays open, the lock is free, its number has moved on, and
/// everyone still there was told `unlocked`.
pub proof fn dropped_lock_holder_releases_the_lock(
    old_rooms: Map<u64, Room>,
    new_rooms: Map<u64, Room>,
    k: u64,
    r: Room,
    to: Seq<u64>,
    msg: ServerMsg,
    g: u64,
    y: u64,
)
    requires
        announced(old_rooms, new_rooms, k, r, to, msg),
        new_rooms.contains_key(k),
        r.locked_by == Some(g),
        r.host_id != Some(g),
        r.has(g),
        !new_rooms[k].has(g),
        new_rooms[k].has(y),
    ensures
        new_rooms[k].locked_by is None,
        new_rooms[k].lock_seq == next_seq(r.lock_seq),
        told_since(
            new_rooms[k].deliveries@,
            r.deliveries@.len() as int,
            y,
            server_msg_json(ServerMsg::Unlocked),
        ),
{
}

/// A room ends during an announcement only by losing its host: when it leaves
/// the table, the purge dropped its host (refused a frame, as every dropped
/// participant was), it is the last room in the log of closed rooms, and each
/// participant still in it after the purge was sent `room_closed` with
/// `host_left` and then a close frame with the host-left code.
pub proof fn losing_the_host_closes_the_room(
    old: AppState,
    new: AppState,
    k: u64,
    r: Room,
    to: Seq<u64>,
    msg: ServerMsg,
)
    requires
        announced_in(old, new, k, r, to, msg),
        !new.rooms@.contains_key(k),
    ensures
        r.host_id is Some,
        new.closed@.len() == old.closed@.len() + 1,
        new.closed@.last().0 == k,
        exists|p: Room|
            purged(p, r) && !host_kept(r, p) && #[trigger] closed_room(
                new.closed@.last().1,
                p,
                "host_left",
                HOST_LEFT,
            ),
{
}

/// A connection that was admitted and then ended leaves the server-wide and
/// the per-address connection counts as they were.
pub proof fn admitted_then_released_restores_counts(
    s0: AppState,
    s1: AppState,
    s2: AppState,
    ip: IpKey,
    now: u64,
)
    requires
        opened(s0, s1, ip, true),
        released(s1, s2, ip, now),
    ensures
        s2.active() == s0.active(),
        counters_of(s2.abuse(), ip).connections == counters_of(s0.abuse(), ip).connections,
{
}

/// A client never gets more room creations counted in a window than its
/// allowance.
pub proof fn room_creations_stay_within_allowance(
    old: Map<IpKey, crate::server::IpAbuseState>,
    new: Map<IpKey, crate::server::IpAbuseState>,
    ip: IpKey,
    now: u64,
    cfg: Config,
    allowed: bool,
)
    requires
        creation_counted(old, new, ip, now, cfg, allowed),
        counters_of(old, ip).room_creates <= cfg.room_creates_per_window,
    ensures
        counters_of(new, ip).room_creates <= cfg.room_creates_per_window,
{
}


/// How many of the first `n` attempts were allowed.
pub open spec fn allowed_count(allowed: Seq<bool>, n: int) -> nat
    decreases n,
{
    if n <= 0 {
        0
    } else {
        allowed_count(allowed, n - 1) + if allowed[n - 1] {
            1nat
        } else {
            0nat
        }
    }
}

proof fn lemma_window_count(
    ms: Seq<Map<IpKey, crate::server::IpAbuseState>>,
    times: Seq<u64>,
    allowed: Seq<bool>,
    ip: IpKey,
    cfg: Config,
    start: u64,
    j: int,
)
    requires
        cfg.rate_window > 0,
        ms.len() == times.len() + 1,
        allowed.len() == times.len(),
        0 <= j <= times.len(),
        forall|i: int|
            0 <= i < times.len() ==> #[trigger] creation_counted(
                ms[i],
                ms[i + 1],
                ip,
                times[i],
                cfg,
                allowed[i],
            ),
        forall|i: int|
            1 <= i <= times.len() ==> (#[trigger] counters_of(ms[i], ip)).room_window_started == Some(
                start,
            ),
    ensures
        allowed_count(allowed, j) <= cfg.room_creates_per_window,
        j >= 1 ==> allowed_count(allowed, j) <= counters_of(ms[j], ip).room_creates,
    decreases j,
{
    if j > 0 {
        lemma_window_count(ms, times, allowed, ip, cfg, start, j - 1);
        let i = j - 1;
        assert(creation_counted(ms[i], ms[i + 1], ip, times[i], cfg, allowed[i]));
        assert(counters_of(ms[i + 1], ip).room_window_started == Some(start));
        if i >= 1 {
            assert(counters_of(ms[i], ip).room_window_started == Some(start));
        }
    }
}

/// A client gets at most its allowance of room creations in one rate window:
/// over any run of attempts from one address that all fall into the window
/// that started at `start`, at most `room_creates_per_window` are allowed.
pub proof fn creations_per_window_within_allowance(
    ms: Seq<Map<IpKey, crate::server::IpAbuseState>>,
    times: Seq<u64>,
    allowed: Seq<bool>,
    ip: IpKey,
    cfg: Config,
    start: u64,
)
    requires
        cfg.rate_window > 0,
        ms.len() == times.len() + 1,
        allowed.len() == times.len(),
        forall|i: int|
            0 <= i < times.len() ==> #[trigger] creation_counted(
                ms[i],
                ms[i + 1],
                ip,
                times[i],
                cfg,
                allowed[i],
            ),
        forall|i: int|
            1 <= i <= times.len() ==> (#[trigger] counters_of(ms[i], ip)).room_window_started == Some(
                start,
            ),
    ensures
        allowed_count(allowed, times.len() as int) <= cfg.room_creates_per_window,
{
    lemma_window_count(ms, times, allowed, ip, cfg, start, times.len() as int);
}


/// The lock's sequence number names the lock: after any message from a
/// client, a room that holds a lock under the number it had before holds it
/// for the same participant. Every change of the lock moves the number on, so
/// a lock timer armed for a number finds any later lock stale.
pub proof fn lock_seq_names_the_lock(
    old: AppState,
    new: AppState,
    room_id: &str,
    my_id: u64,
    is_host: bool,
    msg: ClientMsg,
    step: crate::ws::NextStep,
)
    requires
        dispatch_effect(old, new, room_id, my_id, is_host, msg, step),
    ensures
        lookup(old.rooms@, room_id) matches Some((k, r)) ==> (new.rooms@.contains_key(k)
            && new.rooms@[k].locked_by is Some && new.rooms@[k].lock_seq == r.lock_seq
            ==> new.rooms@[k].locked_by == r.locked_by),
{
    if let Some((k, r)) = lookup(old.rooms@, room_id) {
        if new.rooms@.contains_key(k) {
            let m = new.rooms@[k];
            match msg {
                ClientMsg::Relay { p } => {
                    if !(r.locked_by is Some && !is_host) {
                        assert(!lock_dropped(r, m) ==> m.locked_by == r.locked_by);
                    }
                },
                ClientMsg::GenStart => {
                    if !(r.locked_by is Some) && (is_host || r.everyone_can_generate) {
                        let r1 = Room { locked_by: Some(my_id), lock_seq: next_seq(r.lock_seq), ..r };
                        assert(purged(m, r1) && host_kept(r1, m));
                        assert(!lock_dropped(r1, m) ==> m.lock_seq == next_seq(r.lock_seq));
                    }
                },
                ClientMsg::GenEnd => {
                    if is_host && r.locked_by is Some {
                        let u = Room { locked_by: None, lock_seq: next_seq(r.lock_seq), ..r };
                        assert(purged(m, u) && host_kept(u, m));
                        assert(!lock_dropped(u, m));
                    }
                },
                ClientMsg::Policy { everyone } => {
                    if is_host {
                        let u = Room { everyone_can_generate: everyone, ..r };
                        assert(purged(m, u) && host_kept(u, m));
                        assert(!lock_dropped(u, m) ==> m.locked_by == r.locked_by);
                    }
                },
                _ => {},
            }
        }
    }
}


/// The end of a connection is handled once: a second `disconnect` for the
/// same participant changes nothing.
pub proof fn disconnect_twice_is_once(s0: AppState, s1: AppState, s2: AppState, room_id: &str, id: u64)
    requires
        disconnect_effect(s0, s1, room_id, id),
        disconnect_effect(s1, s2, room_id, id),
    ensures
        untouched(s1, s2),
{
    if let Some((k, r)) = lookup(s0.rooms@, room_id) {
        if r.has(id) && r.host_id != Some(id) && s1.rooms@.contains_key(k) {
            let m = s1.rooms@[k];
            let rd = choose|rd: Room| #[trigger] departed(rd, r, id) && if r.locked_by == Some(id) {
                &&& rd.locked_by is None
                &&& rd.lock_seq == next_seq(r.lock_seq)
                &&& exists|rp: Room|
                    #[trigger] purged(rp, rd) && released_then_left(
                        s0,
                        s1,
                        k,
                        rd,
                        rp,
                        crate::state::recipients(r.participants@, Some(id)),
                        id,
                    )
            } else {
                &&& rd.locked_by == r.locked_by
                &&& rd.lock_seq == r.lock_seq
                &&& announced_in(
                    s0,
                    s1,
                    k,
                    rd,
                    crate::state::recipients(r.participants@, Some(id)),
                    ServerMsg::Left { id, count: (r.participants@.len() - 1) as usize },
                )
            };
            assert(!m.has(id)) by {
                if m.has(id) {
                    if r.locked_by == Some(id) {
                        let rp = choose|rp: Room| #[trigger] purged(rp, rd) && released_then_left(
                            s0,
                            s1,
                            k,
                            rd,
                            rp,
                            crate::state::recipients(r.participants@, Some(id)),
                            id,
                        );
                        if !crate::ws::host_kept(rd, rp) {
                            assert(!s1.rooms@.contains_key(k));
                        }
                        assert(purged(m, rp));
                        crate::ws::lemma_has_subset(m.participants@, rp.participants@, id);
                        crate::ws::lemma_has_subset(rp.participants@, rd.participants@, id);
                        assert(!rd.has(id));
                    } else {
                        assert(purged(m, rd));
                        crate::ws::lemma_has_subset(m.participants@, rd.participants@, id);
                        assert(!rd.has(id));
                    }
                }
            }
        }
    }
}

/// A room creation is refused only when the address has used its whole
/// allowance in the current window.
pub proof fn creation_refused_only_when_used_up(
    old: Map<IpKey, crate::server::IpAbuseState>,
    new: Map<IpKey, crate::server::IpAbuseState>,
    ip: IpKey,
    now: u64,
    cfg: Config,
)
    requires
        creation_counted(old, new, ip, now, cfg, false),
    ensures
        in_current_window(counters_of(old, ip), now, cfg.rate_window).room_creates
            >= cfg.room_creates_per_window,
        counters_of(new, ip) == in_current_window(counters_of(old, ip), now, cfg.rate_window),
{
}

/// While the host who joined is connected, a second hello with the host token
/// is refused as "host already connected".
pub proof fn second_host_is_refused(
    s0: AppState,
    s1: AppState,
    room_id: &str,
    id: u64,
    token: Seq<u8>,
    guest: Option<&str>,
)
    requires
        s0.wf(),
        joined(s0, s1, room_id, id, true),
        lookup(s1.rooms@, room_id) is Some,
        token.len() == 43,
        crate::crypto::sha256_digest(token) == lookup(s0.rooms@, room_id).unwrap().1.host_token_hash@,
    ensures
        admission(
            lookup(s1.rooms@, room_id).unwrap().1,
            Some(token),
            crate::ws::opt_bytes(guest),
            s1.cfg.max_participants_per_room as nat,
        ) == Err::<bool, u16>(crate::protocol::HOST_ALREADY_CONNECTED),
{
    let (k, r) = lookup(s0.rooms@, room_id).unwrap();
    assert(s0.rooms@.contains_key(k));
    let rw = choose|rw: Room|
        #[trigger] admitted(rw, r, id, true) && crate::state::delivers_text(
            rw.deliveries@.last(),
            id,
            server_msg_json(crate::ws::welcome_msg(r, id, true)),
        ) && announced_in(
            s0,
            s1,
            k,
            rw,
            crate::state::recipients(r.participants@, None),
            ServerMsg::Joined { id, count: (r.participants@.len() + 1) as usize },
        );
    let m = s1.rooms@[k];
    assert(purged(m, rw));
}


/// The welcome frame queued for a newcomer describes the room as it was at
/// the join: the newcomer's id and role, the count with the newcomer, the
/// participant holding the generation lock and the generation policy. It is
/// the first frame after the join in the room's log.
pub proof fn welcome_describes_the_room(
    s0: AppState,
    s1: AppState,
    room_id: &str,
    id: u64,
    is_host: bool,
)
    requires
        joined(s0, s1, room_id, id, is_host),
        lookup(s1.rooms@, room_id) is Some,
    ensures
        ({
            let r = lookup(s0.rooms@, room_id).unwrap().1;
            let m = lookup(s1.rooms@, room_id).unwrap().1;
            &&& m.deliveries@.len() > r.deliveries@.len()
            &&& crate::state::delivers_text(
                m.deliveries@[r.deliveries@.len() as int],
                id,
                server_msg_json(
                    ServerMsg::Welcome {
                        you: id,
                        role: if is_host {
                            "host"
                        } else {
                            "guest"
                        },
                        count: (r.participants@.len() + 1) as usize,
                        locked_by: r.locked_by,
                        everyone_can_generate: r.everyone_can_generate,
                    },
                ),
            )
        }),
{
    let (k, r) = lookup(s0.rooms@, room_id).unwrap();
    let rw = choose|rw: Room|
        #[trigger] admitted(rw, r, id, is_host) && crate::state::delivers_text(
            rw.deliveries@.last(),
            id,
            server_msg_json(crate::ws::welcome_msg(r, id, is_host)),
        ) && announced_in(
            s0,
            s1,
            k,
            rw,
            crate::state::recipients(r.participants@, None),
            ServerMsg::Joined { id, count: (r.participants@.len() + 1) as usize },
        );
    let m = s1.rooms@[k];
    assert(purged(m, rw));
    assert(rw.deliveries@.last() == rw.deliveries@[r.deliveries@.len() as int]);
    assert(m.deliveries@.subrange(0, rw.deliveries@.len() as int)[r.deliveries@.len() as int]
        == m.deliveries@[r.deliveries@.len() as int]);
}

/// While anyone holds the generation lock, a guest's relay frame, the lock
/// holder's included, is answered with a `locked` error to the sender alone:
/// nothing else in the room changes and no other participant is sent
/// anything.
pub proof fn guests_are_muted_while_locked(
    s0: AppState,
    s1: AppState,
    room_id: &str,
    my_id: u64,
    p: String,
)
    requires
        relay_effect(s0, s1, room_id, my_id, false, p),
        lookup(s0.rooms@, room_id) matches Some((k, r)) && r.locked_by is Some,
    ensures
        ({
            let (k, r) = lookup(s0.rooms@, room_id).unwrap();
            let m = s1.rooms@[k];
            &&& s1.rooms@ == s0.rooms@.insert(k, m)
            &&& s1.closed == s0.closed
            &&& m.participants@ == r.participants@
            &&& m.locked_by == r.locked_by
            &&& m.lock_seq == r.lock_seq
            &&& m.deliveries@.len() <= r.deliveries@.len() + 1
            &&& m.deliveries@.subrange(0, r.deliveries@.len() as int) == r.deliveries@
            &&& forall|j: int|
                r.deliveries@.len() <= j < m.deliveries@.len() ==> crate::state::delivers_text(
                    #[trigger] m.deliveries@[j],
                    my_id,
                    server_msg_json(ServerMsg::Error { code: "locked" }),
                )
        }),
{
    let (k, r) = lookup(s0.rooms@, room_id).unwrap();
    let m = s1.rooms@[k];
    if r.has(my_id) {
        let new = crate::state::log_since(m.deliveries@, r.deliveries@.len() as int);
        assert forall|j: int| r.deliveries@.len() <= j < m.deliveries@.len() implies crate::state::delivers_text(
            #[trigger] m.deliveries@[j],
            my_id,
            server_msg_json(ServerMsg::Error { code: "locked" }),
        ) by {
            assert(new[j - r.deliveries@.len()] == m.deliveries@[j]);
        }
    }
}

/// The host's policy message sets who may start a generation to exactly its
/// value, whatever it was before, as long as the room stays open.
pub proof fn policy_sets_the_value(
    s0: AppState,
    s1: AppState,
    room_id: &str,
    host: u64,
    everyone: bool,
)
    requires
        policy_effect(s0, s1, room_id, host, true, everyone),
        lookup(s0.rooms@, room_id) matches Some((k, r)) && s1.rooms@.contains_key(k),
    ensures
        s1.rooms@[lookup(s0.rooms@, room_id).unwrap().0].everyone_can_generate == everyone,
{
    let (k, r) = lookup(s0.rooms@, room_id).unwrap();
    let u = Room { everyone_can_generate: everyone, ..r };
    assert(purged(s1.rooms@[k], u));
}

/// A guest who does not hold the generation lock leaves it alone: after the
/// guest's departure, where the room stays open and whoever held the lock is
/// still there, the lock holder and the lock's number are as before.
pub proof fn departure_keeps_others_lock(s0: AppState, s1: AppState, room_id: &str, id: u64)
    requires
        disconnect_effect(s0, s1, room_id, id),
        lookup(s0.rooms@, room_id) matches Some((k, r)) && r.has(id) && r.host_id != Some(id)
            && r.locked_by != Some(id) && s1.rooms@.contains_key(k) && (r.locked_by matches Some(
            g,
        ) ==> s1.rooms@[k].has(g)),
    ensures
        ({
            let (k, r) = lookup(s0.rooms@, room_id).unwrap();
            &&& s1.rooms@[k].locked_by == r.locked_by
            &&& s1.rooms@[k].lock_seq == r.lock_seq
        }),
{
    let (k, r) = lookup(s0.rooms@, room_id).unwrap();
    let rd = choose|rd: Room|
        #[trigger] departed(rd, r, id) && rd.locked_by == r.locked_by && rd.lock_seq == r.lock_seq
            && announced_in(
            s0,
            s1,
            k,
            rd,
            crate::state::recipients(r.participants@, Some(id)),
            ServerMsg::Left { id, count: (r.participants@.len() - 1) as usize },
        );
    let m = s1.rooms@[k];
    assert(purged(m, rd) && host_kept(rd, m));
    assert(!lock_dropped(rd, m));
}

/// Each setting is read from its own variable alone: two sets of variables
/// that agree on a variable give the same value for its setting.
pub proof fn settings_read_their_own_variable(v1: ConfigVars, v2: ConfigVars)
    ensures
        v1.port == v2.port ==> config_of(v1).port == config_of(v2).port,
        v1.host_idle_secs == v2.host_idle_secs ==> config_of(v1).host_idle == config_of(v2).host_idle,
        v1.guest_idle_secs == v2.guest_idle_secs ==> config_of(v1).guest_idle == config_of(v2).guest_idle,
        v1.lock_timeout_secs == v2.lock_timeout_secs ==> config_of(v1).lock_timeout == config_of(v2).lock_timeout,
        v1.room_ttl_secs == v2.room_ttl_secs ==> config_of(v1).room_ttl == config_of(v2).room_ttl,
        v1.max_rooms == v2.max_rooms ==> config_of(v1).max_rooms == config_of(v2).max_rooms,
        v1.max_connections == v2.max_connections ==> config_of(v1).max_connections == config_of(v2).max_connections,
        v1.max_connections_per_ip == v2.max_connections_per_ip ==> config_of(v1).max_connections_per_ip == config_of(v2).max_connections_per_ip,
        v1.max_participants_per_room == v2.max_participants_per_room ==> config_of(v1).max_participants_per_room == config_of(v2).max_participants_per_room,
        v1.max_message_bytes == v2.max_message_bytes ==> config_of(v1).max_message_size == config_of(v2).max_message_size,
        v1.max_frames_per_window == v2.max_frames_per_window ==> config_of(v1).max_frames_per_window == config_of(v2).max_frames_per_window,
        v1.max_bytes_per_window == v2.max_bytes_per_window ==> config_of(v1).max_bytes_per_window == config_of(v2).max_bytes_per_window,
        v1.rate_window_secs == v2.rate_window_secs ==> config_of(v1).rate_window == config_of(v2).rate_window,
        v1.room_creates_per_window == v2.room_creates_per_window ==> config_of(v1).room_creates_per_window == config_of(v2).room_creates_per_window,
        v1.trust_proxy == v2.trust_proxy ==> config_of(v1).trust_proxy == config_of(v2).trust_proxy,
{
}

/// A parsed setting is within the largest value of its type.
proof fn lemma_setting_in_range(v: Option<String>, max: nat, default: nat)
    ensures
        match v {
            Some(t) => match parse_unsigned(encode_utf8(t@), max) {
                Some(n) => n <= max && crate::config::numeric_setting(v, max, default) == n,
                None => crate::config::numeric_setting(v, max, default) == default,
            },
            None => crate::config::numeric_setting(v, max, default) == default,
        },
{
    if let Some(t) = v {
        let b = encode_utf8(t@);
        let d = crate::config::unsigned_digits(b);
        if parse_unsigned(b, max) is Some {
            assert(crate::config::digits_value(d) <= max);
        }
    }
}

/// Each setting is its variable's text parsed as a number of the setting's
/// type when it parses, and the documented default when the variable is
/// unset or does not parse.
pub proof fn settings_default_or_parse(v1: ConfigVars)
    ensures
        match v1.port {
            Some(t) => match parse_unsigned(encode_utf8(t@), u16::MAX as nat) {
                Some(n) => config_of(v1).port as nat == n,
                None => config_of(v1).port == 8787,
            },
            None => config_of(v1).port == 8787,
        },
        match v1.host_idle_secs {
            Some(t) => match parse_unsigned(encode_utf8(t@), u64::MAX as nat) {
                Some(n) => config_of(v1).host_idle as nat == n,
                None => config_of(v1).host_idle == 30,
            },
            None => config_of(v1).host_idle == 30,
        },
        match v1.guest_idle_secs {
            Some(t) => match parse_unsigned(encode_utf8(t@), u64::MAX as nat) {
                Some(n) => config_of(v1).guest_idle as nat == n,
                None => config_of(v1).guest_idle == 90,
            },
            None => config_of(v1).guest_idle == 90,
        },
        match v1.lock_timeout_secs {
            Some(t) => match parse_unsigned(encode_utf8(t@), u64::MAX as nat) {
                Some(n) => config_of(v1).lock_timeout as nat == n,
                None => config_of(v1).lock_timeout == 180,
            },
            None => config_of(v1).lock_timeout == 180,
        },
        match v1.room_ttl_secs {
            Some(t) => match parse_unsigned(encode_utf8(t@), u64::MAX as nat) {
                Some(n) => config_of(v1).room_ttl as nat == n,
                None => config_of(v1).room_ttl == 900,
            },
            None => config_of(v1).room_ttl == 900,
        },
        match v1.max_rooms {
            Some(t) => match parse_unsigned(encode_utf8(t@), usize::MAX as nat) {
                Some(n) => config_of(v1).max_rooms as nat == n,
                None => config_of(v1).max_rooms == 256,
            },
            None => config_of(v1).max_rooms == 256,
        },
        match v1.max_connections {
            Some(t) => match parse_unsigned(encode_utf8(t@), usize::MAX as nat) {
                Some(n) => config_of(v1).max_connections as nat == n,
                None => config_of(v1).max_connections == 512,
            },
            None => config_of(v1).max_connections == 512,
        },
        match v1.max_connections_per_ip {
            Some(t) => match parse_unsigned(encode_utf8(t@), usize::MAX as nat) {
                Some(n) => config_of(v1).max_connections_per_ip as nat == n,
                None => config_of(v1).max_connections_per_ip == 24,
            },
            None => config_of(v1).max_connections_per_ip == 24,
        },
        match v1.max_participants_per_room {
            Some(t) => match parse_unsigned(encode_utf8(t@), usize::MAX as nat) {
                Some(n) => config_of(v1).max_participants_per_room as nat == n,
                None => config_of(v1).max_participants_per_room == 12,
            },
            None => config_of(v1).max_participants_per_room == 12,
        },
        match v1.max_message_bytes {
            Some(t) => match parse_unsigned(encode_utf8(t@), usize::MAX as nat) {
                Some(n) => config_of(v1).max_message_size as nat == n,
                None => config_of(v1).max_message_size == 1048576,
            },
            None => config_of(v1).max_message_size == 1048576,
        },
        match v1.max_frames_per_window {
            Some(t) => match parse_unsigned(encode_utf8(t@), u32::MAX as nat) {
                Some(n) => config_of(v1).max_frames_per_window as nat == n,
                None => config_of(v1).max_frames_per_window == 80,
            },
            None => config_of(v1).max_frames_per_window == 80,
        },
        match v1.max_bytes_per_window {
            Some(t) => match parse_unsigned(encode_utf8(t@), usize::MAX as nat) {
                Some(n) => config_of(v1).max_bytes_per_window as nat == n,
                None => config_of(v1).max_bytes_per_window == 2097152,
            },
            None => config_of(v1).max_bytes_per_window == 2097152,
        },
        match v1.rate_window_secs {
            Some(t) => match parse_unsigned(encode_utf8(t@), u64::MAX as nat) {
                Some(n) => config_of(v1).rate_window as nat == n,
                None => config_of(v1).rate_window == 10,
            },
            None => config_of(v1).rate_window == 10,
        },
        match v1.room_creates_per_window {
            Some(t) => match parse_unsigned(encode_utf8(t@), u32::MAX as nat) {
                Some(n) => config_of(v1).room_creates_per_window as nat == n,
                None => config_of(v1).room_creates_per_window == 10,
            },
            None => config_of(v1).room_creates_per_window == 10,
        },
        v1.trust_proxy is None ==> !config_of(v1).trust_proxy,
{
    lemma_setting_in_range(v1.port, u16::MAX as nat, 8787);
    lemma_setting_in_range(v1.host_idle_secs, u64::MAX as nat, 30);
    lemma_setting_in_range(v1.guest_idle_secs, u64::MAX as nat, 90);
    lemma_setting_in_range(v1.lock_timeout_secs, u64::MAX as nat, 180);
    lemma_setting_in_range(v1.room_ttl_secs, u64::MAX as nat, 900);
    lemma_setting_in_range(v1.max_rooms, usize::MAX as nat, 256);
    lemma_setting_in_range(v1.max_connections, usize::MAX as nat, 512);
    lemma_setting_in_range(v1.max_connections_per_ip, usize::MAX as nat, 24);
    lemma_setting_in_range(v1.max_participants_per_room, usize::MAX as nat, 12);
    lemma_setting_in_range(v1.max_message_bytes, usize::MAX as nat, 1048576);
    lemma_setting_in_range(v1.max_frames_per_window, u32::MAX as nat, 80);
    lemma_setting_in_range(v1.max_bytes_per_window, usize::MAX as nat, 2097152);
    lemma_setting_in_range(v1.rate_window_secs, u64::MAX as nat, 10);
    lemma_setting_in_range(v1.room_creates_per_window, u32::MAX as nat, 10);
}


/// When the guest holding the generation lock leaves and the room stays open,
/// the lock is free and its number has moved on, so the lock timer of the
/// released lock finds it stale.
pub proof fn holder_departure_frees_the_lock(s0: AppState, s1: AppState, room_id: &str, id: u64)
    requires
        disconnect_effect(s0, s1, room_id, id),
        lookup(s0.rooms@, room_id) matches Some((k, r)) && r.has(id) && r.host_id != Some(id)
            && r.locked_by == Some(id) && s1.rooms@.contains_key(k),
    ensures
        ({
            let (k, r) = lookup(s0.rooms@, room_id).unwrap();
            &&& s1.rooms@[k].locked_by is None
            &&& s1.rooms@[k].lock_seq == next_seq(r.lock_seq)
            &&& s1.rooms@[k].lock_seq != r.lock_seq
        }),
{
    let (k, r) = lookup(s0.rooms@, room_id).unwrap();
    let to = crate::state::recipients(r.participants@, Some(id));
    let rd = choose|rd: Room|
        #[trigger] departed(rd, r, id) && rd.locked_by is None && rd.lock_seq == next_seq(r.lock_seq)
            && exists|rp: Room| #[trigger] purged(rp, rd) && released_then_left(s0, s1, k, rd, rp, to, id);
    let rp = choose|rp: Room| #[trigger] purged(rp, rd) && released_then_left(s0, s1, k, rd, rp, to, id);
    if !host_kept(rd, rp) {
        assert(!s1.rooms@.contains_key(k));
    }
    assert(!lock_dropped(rd, rp));
    let m = s1.rooms@[k];
    assert(purged(m, rp) && host_kept(rp, m));
    assert(!lock_dropped(rp, m));
}

} // verus!
