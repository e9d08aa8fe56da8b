//! Connection lifecycle decisions: admission of a new participant, the
//! handling of each client message, departures, slow-consumer purges and room
//! teardown. The socket plumbing that drives them lives outside the library.
use vstd::prelude::*;

use std::collections::HashMap;

use tokio::sync::mpsc::Receiver;

use crate::config::Config;
use crate::crypto::{sha256, sha256_digest};
use crate::protocol::ClientMsg;
use crate::text::{push_char, trim_text, trimmed};
use crate::protocol::{
    server_msg_json, ServerMsg, BAD_HOST_TOKEN, HOST_ALREADY_CONNECTED, HOST_LEFT, IDLE_TIMEOUT, ROOM_FULL,
    ROOM_NOT_FOUND, SLOW_CONSUMER,
};
use crate::queue::open_queue;
use crate::room_code::{code_key, is_room_code, room_key};
use crate::server::{
    elapsed_at_least, elapsed_more_than, elapsed_ns, room_ok, secs_ns, AppState, IpKey,
};
use crate::state::{
    closed_since, closing_deliveries, delivers_close, failed_ids, has_id, ids, lemma_closed_since_extends,
    lemma_failed_ids_refused, lemma_log_extends_trans, lemma_refused_in_failed_ids, lemma_refused_since_extends, log_extends,
    log_since, recipients, refused_since, text_deliveries, Delivery, Outbound, Participant, Room,
    CLIENT_QUEUE, delivers_text,
};
use vstd::std_specs::hash::spec_keys_iter;
use vstd::std_specs::iter::IteratorSpec;
use vstd::string::StringSliceAdditionalSpecFns;

verus! {

/// Since position `from`, the log records an announcement that participant
/// `id` left, made to the participants `ds` in order, among them `to`, with
/// the count of participants equal to the number of those told.
pub open spec fn told_left(log: Seq<Delivery>, from: int, to: u64, id: u64) -> bool {
    exists|k: int, ds: Seq<u64>|
        from <= k && k + ds.len() <= log.len() && ds.contains(to) && #[trigger] text_deliveries(
            log.subrange(k, k + ds.len()),
            ds,
            server_msg_json(ServerMsg::Left { id, count: ds.len() as usize }),
        )
}

/// A recorded announcement stays in a log that only grows.
proof fn lemma_told_left_extends(old_log: Seq<Delivery>, new_log: Seq<Delivery>, from: int, to: u64, id: u64)
    requires
        0 <= from,
        told_left(old_log, from, to, id),
        log_extends(new_log, old_log),
    ensures
        told_left(new_log, from, to, id),
{
    let (k, ds) = choose|k: int, ds: Seq<u64>|
        from <= k && k + ds.len() <= old_log.len() && ds.contains(to) && #[trigger] text_deliveries(
            old_log.subrange(k, k + ds.len()),
            ds,
            server_msg_json(ServerMsg::Left { id, count: ds.len() as usize }),
        );
    assert(new_log.subrange(k, k + ds.len()) =~= old_log.subrange(k, k + ds.len())) by {
        assert forall|i: int| 0 <= i < ds.len() implies #[trigger] new_log.subrange(k, k + ds.len())[i]
            == old_log.subrange(k, k + ds.len())[i] by {
            assert(new_log.subrange(0, old_log.len() as int)[k + i] == new_log[k + i]);
        }
    }
}

/// An announcement recorded since `from2` is recorded since any earlier
/// `from1`.
proof fn lemma_told_left_lower(log: Seq<Delivery>, from1: int, from2: int, to: u64, id: u64)
    requires
        from1 <= from2,
        told_left(log, from2, to, id),
    ensures
        told_left(log, from1, to, id),
{
    let (k, ds) = choose|k: int, ds: Seq<u64>|
        from2 <= k && k + ds.len() <= log.len() && ds.contains(to) && #[trigger] text_deliveries(
            log.subrange(k, k + ds.len()),
            ds,
            server_msg_json(ServerMsg::Left { id, count: ds.len() as usize }),
        );
}

/// Everyone present is among the recipients of a message to all.
proof fn lemma_present_is_recipient(ps: Seq<Participant>, y: u64) -> (i: int)
    requires
        has_id(ps, y),
    ensures
        0 <= i < recipients(ps, None).len(),
        recipients(ps, None)[i] == y,
{
    lemma_ids_are_recipients(ps);
    let i = choose|i: int| 0 <= i < ps.len() && #[trigger] ps[i].id == y;
    assert(ids(ps)[i] == y);
    i
}

/// One round of the purge: drops participants whose outbound queue
/// overflowed (slow consumers), each with a close frame, announcing each
/// departure to those left; an announcement that is refused in turn purges
/// its recipient too. Returns whether the host was among those dropped. The
/// lock is left as it is.
fn purge_once(room: &mut Room, dead: Vec<u64>) -> (host_died: bool)
    requires
        old(room).wf(),
    ensures
        dead@.len() == 0 ==> *final(room) == *old(room),
        final(room).wf(),
        final(room).same_settings(*old(room)),
        final(room).participants@.len() <= old(room).participants@.len(),
        log_extends(final(room).deliveries@, old(room).deliveries@),
        forall|i: int|
            0 <= i < final(room).participants@.len() ==> old(room).participants@.contains(
                #[trigger] final(room).participants@[i],
            ),
        forall|x: u64| #[trigger] dead@.contains(x) ==> !final(room).has(x),
        forall|x: u64|
            old(room).has(x) && !#[trigger] final(room).has(x) ==> {
                &&& dead@.contains(x) || refused_since(
                    final(room).deliveries@,
                    old(room).deliveries@.len() as int,
                    x,
                )
                &&& closed_since(
                    final(room).deliveries@,
                    old(room).deliveries@.len() as int,
                    x,
                    SLOW_CONSUMER,
                )
            },
        host_died == exists|i: int|
            0 <= i < old(room).participants@.len() && #[trigger] old(room).participants@[i].is_host
                && !final(room).has(old(room).participants@[i].id),
        forall|x: u64|
            #[trigger] final(room).has(x) ==> !refused_since(
                final(room).deliveries@,
                old(room).deliveries@.len() as int,
                x,
            ),
        forall|x: u64, y: u64|
            #![trigger final(room).has(x), final(room).has(y)]
            old(room).has(x) && !final(room).has(x) && final(room).has(y) ==> told_left(
                final(room).deliveries@,
                old(room).deliveries@.len() as int,
                y,
                x,
            ),
{
    if dead.len() == 0 {
        assert(room.deliveries@.subrange(0, room.deliveries@.len() as int) =~= room.deliveries@);
        assert forall|i: int| 0 <= i < room.participants@.len() implies room.participants@.contains(
            #[trigger] room.participants@[i],
        ) by {}
        return false;
    }
    let ghost ps0 = room.participants@;
    let ghost dead0 = dead@;
    let ghost start = room.deliveries@;
    let ghost from = start.len() as int;
    let mut dead = dead;
    let mut host_died = false;
    assert(start.subrange(0, start.len() as int) =~= start);
    assert forall|i: int| 0 <= i < room.participants@.len() implies ps0.contains(
        #[trigger] room.participants@[i],
    ) by {
        assert(ps0[i] == room.participants@[i]);
    }
    while dead.len() > 0
        invariant
            room.wf(),
            old(room).wf(),
            room.same_settings(*old(room)),
            room.participants@.len() <= ps0.len(),
            ps0 == old(room).participants@,
            start == old(room).deliveries@,
            from == start.len(),
            log_extends(room.deliveries@, start),
            forall|i: int|
                0 <= i < room.participants@.len() ==> ps0.contains(#[trigger] room.participants@[i]),
            forall|x: u64| #[trigger] dead0.contains(x) ==> !room.has(x) || dead@.contains(x),
            forall|x: u64|
                #[trigger] dead@.contains(x) ==> dead0.contains(x) || refused_since(
                    room.deliveries@,
                    from,
                    x,
                ),
            forall|x: u64|
                has_id(ps0, x) && !#[trigger] room.has(x) ==> {
                    &&& dead0.contains(x) || refused_since(room.deliveries@, from, x)
                    &&& closed_since(room.deliveries@, from, x, SLOW_CONSUMER)
                },
            host_died == exists|i: int|
                0 <= i < ps0.len() && #[trigger] ps0[i].is_host && !room.has(ps0[i].id),
            forall|x: u64|
                #[trigger] room.has(x) && refused_since(room.deliveries@, from, x) ==> dead@.contains(x),
            forall|x: u64, y: u64|
                #![trigger room.has(x), room.has(y)]
                has_id(ps0, x) && !room.has(x) && room.has(y) ==> told_left(room.deliveries@, from, y, x),
        decreases room.participants@.len(), dead@.len(),
    {
        let ghost dead_before = dead@;
        let ghost room_before = *room;
        let id = dead.pop().unwrap();
        assert(dead_before == dead@.push(id));
        assert forall|x: u64| #[trigger] dead@.contains(x) implies dead_before.contains(x) by {
            let k = choose|k: int| 0 <= k < dead@.len() && dead@[k] == x;
            assert(dead_before[k] == x);
        }
        assert(dead_before[dead_before.len() - 1] == id);
        assert(dead_before.contains(id));
        match room.position(id) {
            Some(idx) => {
                let ghost log_a = room.deliveries@;
                let ghost j0 = choose|j: int| 0 <= j < ps0.len() && ps0[j] == room.participants@[idx as int];
                let (p, mut tx) = room.remove_at(idx);
                let ghost room_r = *room;
                assert(ps0[j0] == p);
                if p.is_host {
                    host_died = true;
                }
                room.close_for(p.id, &mut tx, SLOW_CONSUMER);
                let ghost log_b = room.deliveries@;
                assert(log_b.subrange(0, log_a.len() as int) =~= log_a);
                assert(closed_since(log_b, from, id, SLOW_CONSUMER)) by {
                    assert(delivers_close(log_b[log_a.len() as int], id, SLOW_CONSUMER));
                }
                let count = room.count();
                let mut more = room.broadcast(&ServerMsg::Left { id, count }, None);
                let ghost log_c = room.deliveries@;
                proof {
                    lemma_log_extends_trans(start, log_a, log_b);
                    lemma_log_extends_trans(start, log_b, log_c);
                    lemma_log_extends_trans(log_a, log_b, log_c);
                    assert forall|x: u64| #[trigger] more@.contains(x) implies refused_since(
                        log_c,
                        from,
                        x,
                    ) by {
                        let seg = log_since(log_c, log_b.len() as int);
                        lemma_failed_ids_refused(seg, x);
                        let k = choose|k: int| 0 <= k < seg.len() && #[trigger] seg[k].to == x && !seg[k].queued;
                        assert(log_c[log_b.len() + k] == seg[k]);
                        assert(log_c[log_b.len() + k].to == x);
                    }
                }
                let ghost more0 = more@;
                dead.append(&mut more);
                proof {
                    let d = dead@;
                    assert(d == dead_before.drop_last() + more0);
                    // participants are a subset of those at the start
                    assert forall|i: int| 0 <= i < room.participants@.len() implies ps0.contains(
                        #[trigger] room.participants@[i],
                    ) by {
                        let q = room_before.participants@;
                        if i < idx {
                            assert(room.participants@[i] == q[i]);
                            assert(ps0.contains(q[i]));
                        } else {
                            assert(room.participants@[i] == q[i + 1]);
                            assert(ps0.contains(q[i + 1]));
                        }
                    }
                    assert forall|x: u64| #[trigger] dead0.contains(x) implies !room.has(x)
                        || d.contains(x) by {
                        if room.has(x) {
                            assert(room_before.has(x));
                            assert(dead_before.contains(x));
                            assert(x != id);
                            let k = choose|k: int| 0 <= k < dead_before.len() && dead_before[k] == x;
                            assert(k < dead_before.len() - 1);
                            assert(d[k] == x);
                        }
                    }
                    assert forall|x: u64| #[trigger] d.contains(x) implies dead0.contains(x)
                        || refused_since(log_c, from, x) by {
                        let k = choose|k: int| 0 <= k < d.len() && d[k] == x;
                        if k < dead_before.len() - 1 {
                            assert(dead_before[k] == x);
                            assert(dead_before.contains(x));
                            if !dead0.contains(x) {
                                lemma_refused_since_extends(room_before.deliveries@, log_c, from, x);
                            }
                        } else {
                            assert(more0[k - (dead_before.len() - 1)] == x);
                            assert(more0.contains(x));
                        }
                    }
                    assert forall|x: u64| has_id(ps0, x) && !#[trigger] room.has(x) implies {
                        &&& dead0.contains(x) || refused_since(log_c, from, x)
                        &&& closed_since(log_c, from, x, SLOW_CONSUMER)
                    } by {
                        if x == id {
                            lemma_closed_since_extends(log_b, log_c, from, x, SLOW_CONSUMER);
                            if !dead0.contains(x) {
                                assert(refused_since(room_before.deliveries@, from, x));
                                lemma_refused_since_extends(room_before.deliveries@, log_c, from, x);
                            }
                        } else {
                            assert(room.participants@ == room_r.participants@);
                            assert(room.has(x) == room_r.has(x));
                            assert(!room_before.has(x));
                            lemma_closed_since_extends(room_before.deliveries@, log_c, from, x, SLOW_CONSUMER);
                            if !dead0.contains(x) {
                                lemma_refused_since_extends(room_before.deliveries@, log_c, from, x);
                            }
                        }
                    }
                    assert forall|x: u64|
                        #[trigger] room.has(x) && refused_since(log_c, from, x) implies d.contains(x) by {
                        assert(room.participants@ == room_r.participants@);
                        assert(room_before.has(x) && x != id);
                        let k = choose|k: int| from <= k < log_c.len() && #[trigger] log_c[k].to == x && !log_c[k].queued;
                        if k < log_a.len() {
                            assert(log_c.subrange(0, log_a.len() as int)[k] == log_c[k]);
                            assert(log_a[k] == log_c[k]);
                            assert(refused_since(room_before.deliveries@, from, x));
                            assert(dead_before.contains(x));
                            let w = choose|w: int| 0 <= w < dead_before.len() && dead_before[w] == x;
                            assert(w < dead_before.len() - 1);
                            assert(d[w] == x);
                        } else if k == log_a.len() {
                            assert(log_c.subrange(0, log_b.len() as int)[k] == log_c[k]);
                            assert(log_b[k].to == id);
                        } else {
                            let seg = log_since(log_c, log_b.len() as int);
                            assert(seg[k - log_b.len()] == log_c[k]);
                            lemma_refused_in_failed_ids(seg, k - log_b.len());
                            assert(more0.contains(x));
                            let w = choose|w: int| 0 <= w < more0.len() && more0[w] == x;
                            assert(d[dead_before.len() - 1 + w] == x);
                        }
                    }
                    assert forall|x: u64, y: u64|
                        #![trigger room.has(x), room.has(y)]
                        has_id(ps0, x) && !room.has(x) && room.has(y) implies told_left(log_c, from, y, x) by {
                        assert(room.participants@ == room_r.participants@);
                        assert(room_before.has(y));
                        if x == id {
                            let to = recipients(room_r.participants@, None);
                            let seg = log_since(log_c, log_b.len() as int);
                            let i = lemma_present_is_recipient(room_r.participants@, y);
                            lemma_ids_are_recipients(room_r.participants@);
                            assert(to.len() == count);
                            assert(to.contains(y));
                            assert(log_c.subrange(log_b.len() as int, (log_b.len() + to.len()) as int) =~= seg);
                            assert(text_deliveries(
                                log_c.subrange(log_b.len() as int, (log_b.len() + to.len()) as int),
                                to,
                                server_msg_json(ServerMsg::Left { id: x, count: to.len() as usize }),
                            ));
                        } else {
                            assert(room.has(x) == room_r.has(x));
                            assert(!room_before.has(x));
                            assert(told_left(room_before.deliveries@, from, y, x));
                            lemma_told_left_extends(room_before.deliveries@, log_c, from, y, x);
                        }
                    }
                    let ex_before = exists|i: int|
                        0 <= i < ps0.len() && #[trigger] ps0[i].is_host && !room_before.has(ps0[i].id);
                    let ex_after = exists|i: int|
                        0 <= i < ps0.len() && #[trigger] ps0[i].is_host && !room.has(ps0[i].id);
                    if p.is_host {
                        assert(ps0[j0].is_host && !room.has(ps0[j0].id));
                        assert(ex_after);
                    } else {
                        if ex_after {
                            let i = choose|i: int|
                                0 <= i < ps0.len() && #[trigger] ps0[i].is_host && !room.has(ps0[i].id);
                            if ps0[i].id == id {
                                // ids within the room at the start are unique
                                assert(ps0[i].id == ps0[j0].id);
                                assert(i == j0) by {
                                    if i < j0 {
                                        assert(ps0[i].id < ps0[j0].id);
                                    } else if j0 < i {
                                        assert(ps0[j0].id < ps0[i].id);
                                    }
                                }
                            }
                            assert(room.participants@ == room_r.participants@);
                            assert(room.has(ps0[i].id) == room_r.has(ps0[i].id));
                            assert(!room_before.has(ps0[i].id));
                            assert(ex_before);
                        }
                        if ex_before {
                            let i = choose|i: int|
                                0 <= i < ps0.len() && #[trigger] ps0[i].is_host && !room_before.has(ps0[i].id);
                            assert(room.participants@ == room_r.participants@);
                            assert(room.has(ps0[i].id) == room_r.has(ps0[i].id));
                            assert(!room.has(ps0[i].id));
                        }
                    }
                }
            },
            None => {
                proof {
                    assert(!room.has(id));
                    assert forall|x: u64|
                        #[trigger] room.has(x) && refused_since(room.deliveries@, from, x) implies dead@.contains(x) by {
                        assert(dead_before.contains(x));
                        let w = choose|w: int| 0 <= w < dead_before.len() && dead_before[w] == x;
                        assert(w < dead_before.len() - 1);
                        assert(dead@[w] == x);
                    }
                    assert forall|x: u64| #[trigger] dead0.contains(x) implies !room.has(x)
                        || dead@.contains(x) by {
                        if room.has(x) {
                            assert(dead_before.contains(x));
                            let k = choose|k: int| 0 <= k < dead_before.len() && dead_before[k] == x;
                            if k == dead_before.len() - 1 {
                                assert(x == id);
                            } else {
                                assert(dead@[k] == x);
                            }
                        }
                    }
                }
            },
        }
    }
    proof {
        assert forall|x: u64| #[trigger] room.has(x) implies !refused_since(room.deliveries@, from, x) by {
            if refused_since(room.deliveries@, from, x) {
                assert(dead@.contains(x));
            }
        }
        assert forall|x: u64| #[trigger] dead0.contains(x) implies !room.has(x) by {
            if room.has(x) {
                assert(dead@.contains(x));
            }
        }
        assert forall|x: u64| old(room).has(x) && !#[trigger] room.has(x) implies {
            &&& dead0.contains(x) || refused_since(room.deliveries@, from, x)
            &&& closed_since(room.deliveries@, from, x, SLOW_CONSUMER)
        } by {
            assert(has_id(ps0, x));
        }
    }
    host_died
}

broadcast use vstd::std_specs::hash::group_hash_axioms;

/// The key of the room that `room_id` names, if it is a room code.
pub open spec fn id_key(room_id: &str) -> Option<u64> {
    if is_room_code(room_id.spec_bytes()) {
        Some(code_key(room_id.spec_bytes()) as u64)
    } else {
        None
    }
}

/// The room that `room_id` names in `rooms`, with its key.
pub open spec fn lookup(rooms: Map<u64, Room>, room_id: &str) -> Option<(u64, Room)> {
    match id_key(room_id) {
        Some(k) => if rooms.contains_key(k) {
            Some((k, rooms[k]))
        } else {
            None
        },
        None => None,
    }
}

/// `r2` is what `r1` became after one round of the purge of slow consumers:
/// the same settings, a subset of the participants, a longer log; everyone
/// who left was refused a frame and was sent a slow-consumer close frame,
/// nobody who stayed was refused one, and everyone who stayed was told of
/// each departure.
pub open spec fn purge_step_of(r2: Room, r1: Room, dead: Seq<u64>) -> bool {
    &&& r2.same_settings(r1)
    &&& log_extends(r2.deliveries@, r1.deliveries@)
    &&& r2.participants@.len() <= r1.participants@.len()
    &&& forall|i: int|
        0 <= i < r2.participants@.len() ==> r1.participants@.contains(
            #[trigger] r2.participants@[i],
        )
    &&& forall|x: u64|
        r1.has(x) && !#[trigger] r2.has(x) ==> {
            &&& dead.contains(x) || refused_since(r2.deliveries@, r1.deliveries@.len() as int, x)
            &&& closed_since(r2.deliveries@, r1.deliveries@.len() as int, x, SLOW_CONSUMER)
        }
    &&& forall|x: u64|
        #[trigger] r2.has(x) ==> !refused_since(r2.deliveries@, r1.deliveries@.len() as int, x)
    &&& forall|x: u64, y: u64|
        #![trigger r1.has(x), r2.has(y)]
        r1.has(x) && !r2.has(x) && r2.has(y) ==> told_left(
            r2.deliveries@,
            r1.deliveries@.len() as int,
            y,
            x,
        )
}

/// One round of the purge, with everyone who left refused a frame.
pub open spec fn purge_step(r2: Room, r1: Room) -> bool {
    purge_step_of(r2, r1, Seq::empty())
}

/// Room `k` of `new` is what `r1` became after `msg` was queued for each of
/// `to` and the slow consumers were purged, with the host still there; it is
/// gone exactly where the purge dropped the host of `r1`. The other rooms are
/// as in `old`.
pub open spec fn announced(
    old: Map<u64, Room>,
    new: Map<u64, Room>,
    k: u64,
    r1: Room,
    to: Seq<u64>,
    msg: ServerMsg,
) -> bool {
    &&& new.remove(k) == old.remove(k)
    &&& new.contains_key(k) ==> {
        let r2 = new[k];
        &&& purged(r2, r1)
        &&& host_kept(r1, r2)
        &&& no_refusal(r2.deliveries@, r1.deliveries@.len() as int) ==> unrefused(r2, r1, to.len())
        &&& text_deliveries(
            log_since(r2.deliveries@, r1.deliveries@.len() as int).take(to.len() as int),
            to,
            server_msg_json(msg),
        )
    }
    &&& !new.contains_key(k) ==> exists|p: Room| #[trigger] purged(p, r1) && !host_kept(r1, p)
}

/// A purge that did not drop the host keeps it present.
pub proof fn lemma_host_kept(r1: Room, r2: Room)
    requires
        r1.wf(),
        r1.host_present(),
        r2.host_id == r1.host_id,
        forall|i: int|
            0 <= i < r2.participants@.len() ==> r1.participants@.contains(
                #[trigger] r2.participants@[i],
            ),
        !(exists|i: int|
            0 <= i < r1.participants@.len() && #[trigger] r1.participants@[i].is_host
                && !r2.has(r1.participants@[i].id)),
    ensures
        r2.host_present(),
{
    if let Some(h) = r1.host_id {
        let ps = r1.participants@;
        let i = choose|i: int| 0 <= i < ps.len() && #[trigger] ps[i].id == h && ps[i].is_host;
        assert(r2.has(ps[i].id));
        let j = choose|j: int| 0 <= j < r2.participants@.len() && #[trigger] r2.participants@[j].id == h;
        assert(ps.contains(r2.participants@[j]));
        let m = choose|m: int| 0 <= m < ps.len() && ps[m] == r2.participants@[j];
        assert(m == i) by {
            if m < i {
                assert(ps[m].id < ps[i].id);
            } else if i < m {
                assert(ps[i].id < ps[m].id);
            }
        }
    }
}

/// Every attempt in the log since `from` was queued.
pub open spec fn no_refusal(log: Seq<Delivery>, from: int) -> bool {
    forall|k: int| from <= k < log.len() ==> #[trigger] log[k].queued
}

/// Where nothing was refused, nobody is reported as refused.
proof fn lemma_no_refusal_no_failed(ds: Seq<Delivery>)
    requires
        no_refusal(ds, 0),
    ensures
        failed_ids(ds).len() == 0,
{
    if failed_ids(ds).len() > 0 {
        let x = failed_ids(ds)[0];
        assert(failed_ids(ds).contains(x));
        lemma_failed_ids_refused(ds, x);
        let k = choose|k: int| 0 <= k < ds.len() && #[trigger] ds[k].to == x && !ds[k].queued;
        assert(ds[k].queued);
    }
}

/// The host of `r1`, if it had one, is still in `r2`.
pub open spec fn host_kept(r1: Room, r2: Room) -> bool {
    r1.host_id matches Some(h) ==> r2.has(h)
}

/// Since position `from`, the log records an attempt to queue the text frame
/// `text` for participant `to`.
pub open spec fn told_since(log: Seq<Delivery>, from: int, to: u64, text: Seq<char>) -> bool {
    exists|k: int| from <= k < log.len() && #[trigger] delivers_text(log[k], to, text)
}

/// A host participant was dropped exactly when the host is no longer there.
proof fn lemma_host_died_iff(r1: Room, r2: Room)
    requires
        r1.wf(),
        r1.host_present(),
    ensures
        (exists|i: int|
            0 <= i < r1.participants@.len() && #[trigger] r1.participants@[i].is_host
                && !r2.has(r1.participants@[i].id)) == !host_kept(r1, r2),
{
    let ps = r1.participants@;
    if let Some(h) = r1.host_id {
        let i = choose|i: int| 0 <= i < ps.len() && #[trigger] ps[i].id == h && ps[i].is_host;
        if !r2.has(h) {
            assert(ps[i].is_host && !r2.has(ps[i].id));
        }
    } else {
        assert forall|i: int| 0 <= i < ps.len() implies !#[trigger] ps[i].is_host by {
            if ps[i].is_host {
                assert(r1.host_id == Some(ps[i].id));
            }
        }
    }
}

/// Queues `msg` for every participant of `room` except `except` and purges
/// the slow consumers, leaving the lock as it is. Returns whether the host
/// was among them.
fn broadcast_then_purge(room: &mut Room, msg: &ServerMsg, except: Option<u64>, Ghost(max_participants): Ghost<usize>) -> (host_died: bool)
    requires
        room_ok(*old(room), max_participants as nat),
    ensures
        final(room).wf(),
        purge_step(*final(room), *old(room)),
        text_deliveries(
            log_since(final(room).deliveries@, old(room).deliveries@.len() as int).take(
                recipients(old(room).participants@, except).len() as int,
            ),
            recipients(old(room).participants@, except),
            server_msg_json(*msg),
        ),
        final(room).deliveries@.len() >= old(room).deliveries@.len() + recipients(
            old(room).participants@,
            except,
        ).len(),
        host_died == !host_kept(*old(room), *final(room)),
        !host_died ==> room_ok(*final(room), max_participants as nat),
        no_refusal(final(room).deliveries@, old(room).deliveries@.len() as int) ==> {
            &&& final(room).participants@ == old(room).participants@
            &&& final(room).deliveries@.len() == old(room).deliveries@.len() + recipients(
                old(room).participants@,
                except,
            ).len()
        },
{
    let ghost r1 = *room;
    let dead = room.broadcast(msg, except);
    let ghost r_b = *room;
    let host_died = purge_once(room, dead);
    proof {
        lemma_log_extends_trans(r1.deliveries@, r_b.deliveries@, room.deliveries@);
        let to = recipients(r1.participants@, except);
        let seg_b = log_since(r_b.deliveries@, r1.deliveries@.len() as int);
        let seg = log_since(room.deliveries@, r1.deliveries@.len() as int);
        assert(seg.take(to.len() as int) =~= seg_b) by {
            assert forall|i: int| 0 <= i < seg_b.len() implies seg[i] == seg_b[i] by {
                assert(room.deliveries@.subrange(0, r_b.deliveries@.len() as int)[r1.deliveries@.len() + i]
                    == room.deliveries@[r1.deliveries@.len() + i]);
            }
        }
        assert forall|x: u64| r1.has(x) && !#[trigger] room.has(x) implies {
            &&& refused_since(room.deliveries@, r1.deliveries@.len() as int, x)
            &&& closed_since(room.deliveries@, r1.deliveries@.len() as int, x, SLOW_CONSUMER)
        } by {
            assert(r_b.has(x));
            if dead@.contains(x) {
                lemma_failed_ids_refused(seg_b, x);
                let m = choose|m: int| 0 <= m < seg_b.len() && #[trigger] seg_b[m].to == x && !seg_b[m].queued;
                assert(r_b.deliveries@[r1.deliveries@.len() + m] == seg_b[m]);
                assert(refused_since(r_b.deliveries@, r1.deliveries@.len() as int, x));
                lemma_refused_since_extends(r_b.deliveries@, room.deliveries@, r1.deliveries@.len() as int, x);
            } else {
                assert(refused_since(room.deliveries@, r_b.deliveries@.len() as int, x));
                let m = choose|m: int| r_b.deliveries@.len() <= m < room.deliveries@.len() && #[trigger] room.deliveries@[m].to == x && !room.deliveries@[m].queued;
                assert(room.deliveries@[m].to == x);
            }
            let m = choose|m: int| r_b.deliveries@.len() <= m < room.deliveries@.len() && #[trigger] delivers_close(room.deliveries@[m], x, SLOW_CONSUMER);
            assert(delivers_close(room.deliveries@[m], x, SLOW_CONSUMER));
        }
        assert forall|i: int| 0 <= i < room.participants@.len() implies r1.participants@.contains(
            #[trigger] room.participants@[i],
        ) by {
            assert(r_b.participants@.contains(room.participants@[i]));
        }
        assert forall|x: u64| #[trigger] room.has(x) implies !refused_since(
            room.deliveries@,
            r1.deliveries@.len() as int,
            x,
        ) by {
            if refused_since(room.deliveries@, r1.deliveries@.len() as int, x) {
                let k = choose|k: int|
                    r1.deliveries@.len() <= k < room.deliveries@.len() && #[trigger] room.deliveries@[k].to == x
                        && !room.deliveries@[k].queued;
                if k < r_b.deliveries@.len() {
                    assert(room.deliveries@.subrange(0, r_b.deliveries@.len() as int)[k] == room.deliveries@[k]);
                    assert(seg_b[k - r1.deliveries@.len()] == r_b.deliveries@[k]);
                    lemma_refused_in_failed_ids(seg_b, k - r1.deliveries@.len());
                    assert(dead@.contains(x));
                } else {
                    assert(refused_since(room.deliveries@, r_b.deliveries@.len() as int, x));
                }
            }
        }
        assert forall|x: u64, y: u64|
            #![trigger r1.has(x), room.has(y)]
            r1.has(x) && !room.has(x) && room.has(y) implies told_left(
                room.deliveries@,
                r1.deliveries@.len() as int,
                y,
                x,
            ) by {
            assert(r_b.has(x) && !room.has(x) && room.has(y));
            lemma_told_left_lower(room.deliveries@, r1.deliveries@.len() as int, r_b.deliveries@.len() as int, y, x);
        }
        lemma_host_died_iff(r1, *room);
        if !host_died {
            lemma_host_kept(r1, *room);
        }
        if no_refusal(room.deliveries@, r1.deliveries@.len() as int) {
            assert(no_refusal(seg_b, 0)) by {
                assert forall|k: int| 0 <= k < seg_b.len() implies #[trigger] seg_b[k].queued by {
                    assert(room.deliveries@.subrange(0, r_b.deliveries@.len() as int)[r1.deliveries@.len() + k]
                        == room.deliveries@[r1.deliveries@.len() + k]);
                    assert(room.deliveries@[r1.deliveries@.len() + k].queued);
                }
            }
            lemma_no_refusal_no_failed(seg_b);
        }
    }
    host_died
}

/// The guest holding the generation lock in `r1` is gone from `r2` while the
/// host stayed.
pub open spec fn lock_dropped(r1: Room, r2: Room) -> bool {
    &&& r1.locked_by matches Some(g) && r1.host_id != Some(g) && r1.has(g) && !r2.has(g)
    &&& host_kept(r1, r2)
}

/// `r2` is what `r1` became after the purge of slow consumers: the same
/// fixed settings, a subset of the participants, a longer log; everyone who
/// left was refused a frame and was sent a slow-consumer close frame, nobody
/// who stayed was refused one, and everyone who stayed was told of each
/// departure. Where the guest holding the generation lock left and the host
/// stayed, the lock was released under the next sequence number and everyone
/// who stayed was told `unlocked`; otherwise, while the host stayed, the lock
/// is as it was.
pub open spec fn purged_of(r2: Room, r1: Room, dead: Seq<u64>) -> bool {
    &&& r2.same_fixed(r1)
    &&& log_extends(r2.deliveries@, r1.deliveries@)
    &&& r2.participants@.len() <= r1.participants@.len()
    &&& forall|i: int|
        0 <= i < r2.participants@.len() ==> r1.participants@.contains(
            #[trigger] r2.participants@[i],
        )
    &&& forall|x: u64|
        r1.has(x) && !#[trigger] r2.has(x) ==> {
            &&& dead.contains(x) || refused_since(r2.deliveries@, r1.deliveries@.len() as int, x)
            &&& closed_since(r2.deliveries@, r1.deliveries@.len() as int, x, SLOW_CONSUMER)
        }
    &&& forall|x: u64|
        #[trigger] r2.has(x) ==> !refused_since(r2.deliveries@, r1.deliveries@.len() as int, x)
    &&& forall|x: u64, y: u64|
        #![trigger r1.has(x), r2.has(y)]
        r1.has(x) && !r2.has(x) && r2.has(y) ==> told_left(
            r2.deliveries@,
            r1.deliveries@.len() as int,
            y,
            x,
        )
    &&& lock_dropped(r1, r2) ==> {
        &&& r2.locked_by is None
        &&& r2.lock_seq == next_seq(r1.lock_seq)
        &&& forall|y: u64|
            #[trigger] r2.has(y) ==> told_since(
                r2.deliveries@,
                r1.deliveries@.len() as int,
                y,
                server_msg_json(ServerMsg::Unlocked),
            )
    }
    &&& !lock_dropped(r1, r2) && host_kept(r1, r2) ==> r2.locked_by == r1.locked_by && r2.lock_seq
        == r1.lock_seq
}

/// The purge of `r1`, with everyone who left refused a frame.
pub open spec fn purged(r2: Room, r1: Room) -> bool {
    purged_of(r2, r1, Seq::empty())
}

/// Two rounds of purging, with the release of the lock between them, make one
/// purge.
proof fn lemma_purged_compose(r1: Room, rp: Room, ru: Room, r2: Room, dead: Seq<u64>)
    requires
        purge_step_of(rp, r1, dead),
        host_kept(r1, rp),
        ru.same_fixed(rp),
        ru.participants@ == rp.participants@,
        ru.deliveries@ == rp.deliveries@,
        rp.locked_by matches Some(g) && rp.host_id != Some(g) && !rp.has(g) && r1.has(g),
        ru.locked_by is None,
        ru.lock_seq == next_seq(rp.lock_seq),
        purge_step(r2, ru),
        r2.deliveries@.len() >= ru.deliveries@.len() + recipients(ru.participants@, None).len(),
        text_deliveries(
            log_since(r2.deliveries@, ru.deliveries@.len() as int).take(
                recipients(ru.participants@, None).len() as int,
            ),
            recipients(ru.participants@, None),
            server_msg_json(ServerMsg::Unlocked),
        ),
    ensures
        purged_of(r2, r1, dead),
{
    let from = r1.deliveries@.len() as int;
    let mid = rp.deliveries@.len() as int;
    lemma_log_extends_trans(r1.deliveries@, rp.deliveries@, r2.deliveries@);
    assert(ru.has(rp.locked_by->0) == rp.has(rp.locked_by->0));
    assert forall|i: int| 0 <= i < r2.participants@.len() implies r1.participants@.contains(
        #[trigger] r2.participants@[i],
    ) by {
        assert(rp.participants@.contains(r2.participants@[i]));
        let j = choose|j: int| 0 <= j < rp.participants@.len() && rp.participants@[j] == r2.participants@[i];
        assert(r1.participants@.contains(rp.participants@[j]));
    }
    assert forall|x: u64| #[trigger] r2.has(x) implies rp.has(x) by {
        lemma_has_subset(r2.participants@, ru.participants@, x);
    }
    assert forall|x: u64| r1.has(x) && !#[trigger] r2.has(x) implies {
        &&& dead.contains(x) || refused_since(r2.deliveries@, from, x)
        &&& closed_since(r2.deliveries@, from, x, SLOW_CONSUMER)
    } by {
        if rp.has(x) {
            assert(ru.has(x));
            assert(!Seq::<u64>::empty().contains(x));
            let k = choose|k: int| mid <= k < r2.deliveries@.len() && #[trigger] r2.deliveries@[k].to == x
                && !r2.deliveries@[k].queued;
            assert(r2.deliveries@[k].to == x);
            let m = choose|m: int| mid <= m < r2.deliveries@.len() && #[trigger] delivers_close(
                r2.deliveries@[m],
                x,
                SLOW_CONSUMER,
            );
            assert(delivers_close(r2.deliveries@[m], x, SLOW_CONSUMER));
        } else {
            if !dead.contains(x) {
                lemma_refused_since_extends(rp.deliveries@, r2.deliveries@, from, x);
            }
            lemma_closed_since_extends(rp.deliveries@, r2.deliveries@, from, x, SLOW_CONSUMER);
        }
    }
    assert forall|x: u64| #[trigger] r2.has(x) implies !refused_since(r2.deliveries@, from, x) by {
        if refused_since(r2.deliveries@, from, x) {
            let k = choose|k: int| from <= k < r2.deliveries@.len() && #[trigger] r2.deliveries@[k].to == x
                && !r2.deliveries@[k].queued;
            assert(ru.has(x));
            if k < mid {
                assert(r2.deliveries@.subrange(0, mid)[k] == r2.deliveries@[k]);
                assert(rp.deliveries@[k].to == x);
                assert(refused_since(rp.deliveries@, from, x));
            } else {
                assert(refused_since(r2.deliveries@, mid, x));
            }
        }
    }
    assert forall|x: u64, y: u64|
        #![trigger r1.has(x), r2.has(y)]
        r1.has(x) && !r2.has(x) && r2.has(y) implies told_left(r2.deliveries@, from, y, x) by {
        assert(rp.has(y) && ru.has(y));
        if rp.has(x) {
            assert(ru.has(x));
            assert(told_left(r2.deliveries@, mid, y, x));
            lemma_told_left_lower(r2.deliveries@, from, mid, y, x);
        } else {
            assert(told_left(rp.deliveries@, from, y, x));
            lemma_told_left_extends(rp.deliveries@, r2.deliveries@, from, y, x);
        }
    }
    if lock_dropped(r1, r2) {
        assert forall|y: u64| #[trigger] r2.has(y) implies told_since(
            r2.deliveries@,
            from,
            y,
            server_msg_json(ServerMsg::Unlocked),
        ) by {
            assert(ru.has(y));
            let to = recipients(ru.participants@, None);
            let seg = log_since(r2.deliveries@, mid);
            let i = lemma_present_is_recipient(ru.participants@, y);
            assert(seg.take(to.len() as int)[i] == seg[i]);
            assert(delivers_text(seg[i], to[i], server_msg_json(ServerMsg::Unlocked)));
            assert(seg[i] == r2.deliveries@[mid + i]);
            assert(delivers_text(r2.deliveries@[mid + i], y, server_msg_json(ServerMsg::Unlocked)));
        }
    }
    assert(lock_dropped(r1, r2) || !host_kept(r1, r2)) by {
        let g = rp.locked_by->0;
        assert(!r2.has(g)) by {
            if r2.has(g) {
                assert(rp.has(g));
            }
        }
    }
}

/// With nothing refused, `r2` is `r1` with exactly `n` more attempts in its
/// log: the same participants and the same lock.
pub open spec fn unrefused(r2: Room, r1: Room, n: nat) -> bool {
    &&& r2.participants@ == r1.participants@
    &&& r2.locked_by == r1.locked_by
    &&& r2.lock_seq == r1.lock_seq
    &&& r2.deliveries@.len() == r1.deliveries@.len() + n
}

/// A guest holds the generation lock and is in the room.
fn lock_holder_present(room: &Room) -> (r: bool)
    ensures
        r == (room.locked_by matches Some(g) && room.host_id != Some(g) && room.has(g)),
{
    match room.locked_by {
        Some(g) => {
            if room.host_id == Some(g) {
                return false;
            }
            match room.position(g) {
                Some(i) => {
                    assert(room.participants@[i as int].id == g);
                    true
                },
                None => false,
            }
        },
        None => false,
    }
}

/// Drops the participants in `dead`, whose outbound queue overflowed (slow
/// consumers), each with a close frame, and announces each departure to
/// those left; an announcement that is refused in turn purges its recipient
/// too. Where the purge drops the guest holding the generation lock and the
/// host stays, the lock is released under the next sequence number,
/// `unlocked` is announced, and the purge goes on. Returns whether the host
/// was dropped.
pub fn purge_dead(room: &mut Room, dead: Vec<u64>) -> (host_died: bool)
    requires
        room_ok(*old(room), old(room).participants@.len()),
    ensures
        final(room).wf(),
        purged_of(*final(room), *old(room), dead@),
        forall|x: u64| #[trigger] dead@.contains(x) ==> !final(room).has(x),
        host_died == !host_kept(*old(room), *final(room)),
        !host_died ==> room_ok(*final(room), old(room).participants@.len()),
        dead@.len() == 0 ==> *final(room) == *old(room),
{
    let ghost r1 = *room;
    let holder_present = lock_holder_present(room);
    let host_died = purge_once(room, dead);
    proof {
        lemma_host_died_iff(r1, *room);
        assert forall|x: u64, y: u64|
            #![trigger r1.has(x), room.has(y)]
            r1.has(x) && !room.has(x) && room.has(y) implies told_left(
                room.deliveries@,
                r1.deliveries@.len() as int,
                y,
                x,
            ) by {
            assert(room.has(x) == room.has(x));
        }
        assert(purge_step_of(*room, r1, dead@));
    }
    if host_died {
        return true;
    }
    proof {
        lemma_host_kept(r1, *room);
    }
    let release = holder_present && match room.locked_by {
        Some(g) => room.position(g).is_none(),
        None => false,
    };
    if !release {
        proof {
            if let Some(g) = room.locked_by {
                if room.host_id != Some(g) {
                    assert(room.has(g) ==> exists|i: int| 0 <= i < room.participants@.len() && #[trigger] room.participants@[i].id == g);
                }
            }
        }
        return false;
    }
    let ghost rp = *room;
    room.locked_by = None;
    room.lock_seq = bump(room.lock_seq);
    let ghost ru = *room;
    let n = room.participants.len();
    let host_died2 = broadcast_then_purge(room, &ServerMsg::Unlocked, None, Ghost(n));
    proof {
        assert(!rp.has(rp.locked_by->0)) by {
            if rp.has(rp.locked_by->0) {
                let i = choose|i: int| 0 <= i < rp.participants@.len() && #[trigger] rp.participants@[i].id == rp.locked_by->0;
            }
        }
        lemma_purged_compose(r1, rp, ru, *room, dead@);
        assert forall|x: u64| #[trigger] dead@.contains(x) implies !room.has(x) by {
            if room.has(x) {
                lemma_has_subset(room.participants@, ru.participants@, x);
            }
        }
    }
    host_died2
}

/// Queues `msg` for every participant of `room` except `except` and purges
/// the slow consumers; where the purge drops the guest holding the generation
/// lock and the host stays, the lock is released, `unlocked` is announced and
/// the purge goes on. Returns whether the host was dropped.
fn broadcast_and_purge(room: &mut Room, msg: &ServerMsg, except: Option<u64>, Ghost(max_participants): Ghost<usize>) -> (host_died: bool)
    requires
        room_ok(*old(room), max_participants as nat),
    ensures
        final(room).wf(),
        purged(*final(room), *old(room)),
        text_deliveries(
            log_since(final(room).deliveries@, old(room).deliveries@.len() as int).take(
                recipients(old(room).participants@, except).len() as int,
            ),
            recipients(old(room).participants@, except),
            server_msg_json(*msg),
        ),
        host_died == !host_kept(*old(room), *final(room)),
        !host_died ==> room_ok(*final(room), max_participants as nat),
        no_refusal(final(room).deliveries@, old(room).deliveries@.len() as int) ==> unrefused(
            *final(room),
            *old(room),
            recipients(old(room).participants@, except).len(),
        ),
{
    let ghost r1 = *room;
    let max = Ghost(max_participants);
    let holder_present = lock_holder_present(room);
    let host_died = broadcast_then_purge(room, msg, except, max);
    if host_died {
        return true;
    }
    let release = holder_present && match room.locked_by {
        Some(g) => room.position(g).is_none(),
        None => false,
    };
    if !release {
        proof {
            if let Some(g) = room.locked_by {
                if room.host_id != Some(g) {
                    assert(room.has(g) ==> exists|i: int| 0 <= i < room.participants@.len() && #[trigger] room.participants@[i].id == g);
                }
            }
        }
        return false;
    }
    let ghost rp = *room;
    room.locked_by = None;
    room.lock_seq = bump(room.lock_seq);
    let ghost ru = *room;
    let host_died2 = broadcast_then_purge(room, &ServerMsg::Unlocked, None, max);
    proof {
        assert(!rp.has(rp.locked_by->0)) by {
            if rp.has(rp.locked_by->0) {
                let i = choose|i: int| 0 <= i < rp.participants@.len() && #[trigger] rp.participants@[i].id == rp.locked_by->0;
            }
        }
        lemma_purged_compose(r1, rp, ru, *room, Seq::empty());
        let to = recipients(r1.participants@, except);
        let seg_p = log_since(rp.deliveries@, r1.deliveries@.len() as int);
        let seg = log_since(room.deliveries@, r1.deliveries@.len() as int);
        lemma_log_extends_trans(r1.deliveries@, rp.deliveries@, room.deliveries@);
        assert(seg.take(to.len() as int) =~= seg_p.take(to.len() as int)) by {
            assert forall|i: int| 0 <= i < to.len() implies seg.take(to.len() as int)[i] == seg_p.take(to.len() as int)[i] by {
                assert(room.deliveries@.subrange(0, rp.deliveries@.len() as int)[r1.deliveries@.len() + i]
                    == room.deliveries@[r1.deliveries@.len() + i]);
            }
        }
    }
    host_died2
}

/// `rc` is room `r` after it was closed with `reason` and `code`: everyone in
/// it was sent the `room_closed` message with the reason, then a close frame
/// with the code, and then let go.
pub open spec fn closed_room(rc: Room, r: Room, reason: &'static str, code: u16) -> bool {
    &&& rc.closing
    &&& rc.participants@.len() == 0
    &&& rc.host_id == r.host_id
    &&& log_extends(rc.deliveries@, r.deliveries@)
    &&& closing_deliveries(
        log_since(rc.deliveries@, r.deliveries@.len() as int),
        ids(r.participants@),
        server_msg_json(ServerMsg::RoomClosed { reason }),
        code,
    )
}

/// The rooms closed since `old`, recorded in order after those closed before;
/// each was in the table before and is gone, and is empty and closing.
pub open spec fn closings_recorded(old: AppState, new: AppState) -> bool {
    &&& old.closed@.len() <= new.closed@.len()
    &&& forall|i: int| 0 <= i < old.closed@.len() ==> #[trigger] new.closed@[i] == old.closed@[i]
    &&& forall|i: int|
        old.closed@.len() <= i < new.closed@.len() ==> {
            let (k, rc) = #[trigger] new.closed@[i];
            &&& old.rooms@.contains_key(k)
            &&& !new.rooms@.contains_key(k)
            &&& rc.closing
            &&& rc.participants@.len() == 0
        }
}

/// Closes `room` (taken out of the table under `k`) and records it.
fn retire(state: &mut AppState, k: u64, room: Room, reason: &'static str, code: u16)
    requires
        room.wf(),
    ensures
        final(state).rooms == old(state).rooms,
        same_server(*final(state), *old(state)),
        final(state).closed@ == old(state).closed@.push((k, final(state).closed@.last().1)),
        closed_room(final(state).closed@.last().1, room, reason, code),
{
    let mut room = room;
    room.close(reason, code);
    state.closed = Ghost(state.closed@.push((k, room)));
}

/// Tears down a room: informs every remaining participant why, queues a close
/// frame, and forgets the room entirely. The ghost result is the room as it
/// was closed, if there was one under `room_key`.
pub fn close_room(rooms: &mut HashMap<u64, Room>, room_key: u64, reason: &'static str, code: u16) -> (closed: Ghost<Option<Room>>)
    requires
        old(rooms)@.contains_key(room_key) ==> old(rooms)@[room_key].wf(),
    ensures
        final(rooms)@ == old(rooms)@.remove(room_key),
        match closed@ {
            None => !old(rooms)@.contains_key(room_key),
            Some(rc) => old(rooms)@.contains_key(room_key) && closed_room(
                rc,
                old(rooms)@[room_key],
                reason,
                code,
            ),
        },
{
    match rooms.remove(&room_key) {
        Some(mut room) => {
            room.close(reason, code);
            Ghost(Some(room))
        },
        None => Ghost(None),
    }
}

/// Apart from the rooms, `new` is as `old`.
pub open spec fn same_server(new: AppState, old: AppState) -> bool {
    &&& new.cfg == old.cfg
    &&& new.active_connections == old.active_connections
    &&& new.abuse_by_ip == old.abuse_by_ip
}

/// `r2` is `r` after `msg` was queued for participant `id` alone, if
/// connected.
pub open spec fn told(r2: Room, r: Room, id: u64, msg: ServerMsg) -> bool {
    &&& r2.same_state(r)
    &&& log_extends(r2.deliveries@, r.deliveries@)
    &&& r.has(id) ==> {
        let new = log_since(r2.deliveries@, r.deliveries@.len() as int);
        &&& new.len() == 1
        &&& crate::state::delivers_text(new[0], id, server_msg_json(msg))
    }
    &&& !r.has(id) ==> r2.deliveries@ == r.deliveries@
}

/// Takes the room that `room_id` names out of the table.
fn take_room(state: &mut AppState, room_id: &str) -> (r: Option<(u64, Room)>)
    requires
        old(state).wf(),
    ensures
        r == lookup(old(state).rooms@, room_id),
        same_server(*final(state), *old(state)),
        final(state).wf(),
        final(state).closed == old(state).closed,
        match r {
            Some((k, room)) => {
                &&& final(state).rooms@ == old(state).rooms@.remove(k)
                &&& room_ok(room, old(state).cfg.max_participants_per_room as nat)
            },
            None => final(state).rooms@ == old(state).rooms@,
        },
{
    let k = match room_key(room_id) {
        Some(k) => k,
        None => return None,
    };
    match state.rooms.remove(&k) {
        Some(room) => {
            assert(state.rooms@.dom() =~= old(state).rooms@.dom().remove(k));
            Some((k, room))
        },
        None => None,
    }
}

/// Puts `room` back under `k` after telling participant `id` `msg`.
fn tell_and_restore(state: &mut AppState, k: u64, room: Room, id: u64, msg: &ServerMsg)
    requires
        old(state).wf(),
        !old(state).rooms@.contains_key(k),
        old(state).rooms@.len() < old(state).cfg.max_rooms,
        room_ok(room, old(state).cfg.max_participants_per_room as nat),
    ensures
        same_server(*final(state), *old(state)),
        final(state).wf(),
        final(state).rooms@ == old(state).rooms@.insert(k, final(state).rooms@[k]),
        told(final(state).rooms@[k], room, id, *msg),
        final(state).closed == old(state).closed,
{
    let mut room = room;
    room.send_to(id, msg);
    state.rooms.insert(k, room);
    assert(state.rooms@.dom() =~= old(state).rooms@.dom().insert(k));
}

/// Announces `msg` in `room`: queues it for every participant except
/// `except`, purges the slow consumers, and puts the room back under `k`; if
/// the purge dropped the host, the room is closed with `host_left` instead.
/// Returns whether it was closed.
fn announce_in(state: &mut AppState, k: u64, room: Room, msg: &ServerMsg, except: Option<u64>) -> (closed: bool)
    requires
        old(state).wf(),
        !old(state).rooms@.contains_key(k),
        old(state).rooms@.len() < old(state).cfg.max_rooms,
        room_ok(room, old(state).cfg.max_participants_per_room as nat),
    ensures
        same_server(*final(state), *old(state)),
        final(state).wf(),
        announced(
            old(state).rooms@,
            final(state).rooms@,
            k,
            room,
            recipients(room.participants@, except),
            *msg,
        ),
        closed == !final(state).rooms@.contains_key(k),
        host_loss_closing(old(state).closed@, final(state).closed@, final(state).rooms@, k, room),
{
    let mut room = room;
    let ghost r0 = room;
    let max = Ghost(state.cfg.max_participants_per_room);
    let host_died = broadcast_and_purge(&mut room, msg, except, max);
    if host_died {
        let ghost p = room;
        retire(state, k, room, "host_left", HOST_LEFT);
        assert(state.rooms@ =~= old(state).rooms@);
        assert(old(state).rooms@.remove(k) =~= old(state).rooms@);
        assert(purged(p, r0) && !host_kept(r0, p));
        true
    } else {
        state.rooms.insert(k, room);
        proof {
            assert(state.rooms@.remove(k) =~= old(state).rooms@.remove(k));
            assert(old(state).rooms@.remove(k) =~= old(state).rooms@);
            assert forall|x: u64| state.rooms@.dom().contains(x) == old(state).rooms@.dom().insert(
                k,
            ).contains(x) by {
                if x != k {
                    assert(state.rooms@.remove(k).dom().contains(x) == state.rooms@.dom().contains(x));
                }
            }
            assert(state.rooms@.dom() =~= old(state).rooms@.dom().insert(k));
            assert forall|j: u64| #[trigger] state.rooms@.contains_key(j) implies room_ok(
                state.rooms@[j],
                state.cfg.max_participants_per_room as nat,
            ) by {
                if j != k {
                    assert(state.rooms@.remove(k)[j] == old(state).rooms@.remove(k)[j]);
                }
            }
        }
        false
    }
}

/// The log of closed rooms after an announcement in room `k` (before it,
/// `r1`): unchanged while the room is open; otherwise the room, after the
/// purge that dropped its host, was closed with `host_left`, telling each
/// participant left why.
pub open spec fn host_loss_closing(
    old_closed: Seq<(u64, Room)>,
    new_closed: Seq<(u64, Room)>,
    new: Map<u64, Room>,
    k: u64,
    r1: Room,
) -> bool {
    if new.contains_key(k) {
        new_closed == old_closed
    } else {
        &&& new_closed == old_closed.push((k, new_closed.last().1))
        &&& exists|p: Room|
            purged(p, r1) && !host_kept(r1, p) && #[trigger] closed_room(
                new_closed.last().1,
                p,
                "host_left",
                HOST_LEFT,
            )
    }
}

/// `r1` was announced in room `k` of `old`, giving `new`: the rooms as
/// `announced` says, and the closed log as `host_loss_closing` says.
pub open spec fn announced_in(
    old: AppState,
    new: AppState,
    k: u64,
    r1: Room,
    to: Seq<u64>,
    msg: ServerMsg,
) -> bool {
    &&& announced(old.rooms@, new.rooms@, k, r1, to, msg)
    &&& host_loss_closing(old.closed@, new.closed@, new.rooms@, k, r1)
}

/// Only participant `id` of room `k` was told `msg`; no room was closed.
pub open spec fn told_in(old: AppState, new: AppState, k: u64, r: Room, id: u64, msg: ServerMsg) -> bool {
    &&& new.rooms@ == old.rooms@.insert(k, new.rooms@[k])
    &&& told(new.rooms@[k], r, id, msg)
    &&& new.closed == old.closed
}

/// Nothing changed in the rooms and none was closed.
pub open spec fn untouched(old: AppState, new: AppState) -> bool {
    new.rooms@ == old.rooms@ && new.closed == old.closed
}

/// What a relayed frame `p` from `my_id` does: nothing where the room is
/// unknown; while someone holds the generation lock, a guest is told
/// `locked`; otherwise the frame goes to every other participant.
pub open spec fn relay_effect(
    old: AppState,
    new: AppState,
    room_id: &str,
    my_id: u64,
    is_host: bool,
    p: String,
) -> bool {
    match lookup(old.rooms@, room_id) {
        None => untouched(old, new),
        Some((k, r)) => if r.locked_by is Some && !is_host {
            told_in(old, new, k, r, my_id, ServerMsg::Error { code: "locked" })
        } else {
            announced_in(
                old,
                new,
                k,
                r,
                recipients(r.participants@, Some(my_id)),
                ServerMsg::Relay { from: my_id, p },
            )
        },
    }
}

/// What a request from `my_id` to start a generation does, and the lock
/// timer it asks for: a held lock is refused with `already_locked`, a guest
/// under a host-only policy with `not_allowed`; otherwise `my_id` takes the
/// lock under the next sequence number, everyone is told, and a timer is owed
/// for that number exactly when the room is still there.
pub open spec fn gen_start_effect(
    old: AppState,
    new: AppState,
    room_id: &str,
    my_id: u64,
    is_host: bool,
    timer: Option<u64>,
) -> bool {
    match lookup(old.rooms@, room_id) {
        None => untouched(old, new) && timer is None,
        Some((k, r)) => if r.locked_by is Some {
            told_in(old, new, k, r, my_id, ServerMsg::Error { code: "already_locked" }) && timer is None
        } else if !(is_host || r.everyone_can_generate) {
            told_in(old, new, k, r, my_id, ServerMsg::Error { code: "not_allowed" }) && timer is None
        } else {
            let r1 = Room { locked_by: Some(my_id), lock_seq: next_seq(r.lock_seq), ..r };
            &&& announced_in(
                old,
                new,
                k,
                r1,
                recipients(r.participants@, None),
                ServerMsg::Locked { by: my_id },
            )
            &&& timer == (if new.rooms@.contains_key(k) {
                Some(r1.lock_seq)
            } else {
                None::<u64>
            })
        },
    }
}

/// What a request from `my_id` to end a generation does: a guest is told
/// `not_allowed`; with no lock held nothing happens; otherwise the lock is
/// released under the next sequence number and everyone is told.
pub open spec fn gen_end_effect(
    old: AppState,
    new: AppState,
    room_id: &str,
    my_id: u64,
    is_host: bool,
) -> bool {
    match lookup(old.rooms@, room_id) {
        None => untouched(old, new),
        Some((k, r)) => if !is_host {
            told_in(old, new, k, r, my_id, ServerMsg::Error { code: "not_allowed" })
        } else if r.locked_by is None {
            untouched(old, new)
        } else {
            announced_in(
                old,
                new,
                k,
                Room { locked_by: None, lock_seq: next_seq(r.lock_seq), ..r },
                recipients(r.participants@, None),
                ServerMsg::Unlocked,
            )
        },
    }
}

/// What a policy message from `my_id` does: a guest is told `not_allowed`;
/// the host sets who may generate and everyone is told.
pub open spec fn policy_effect(
    old: AppState,
    new: AppState,
    room_id: &str,
    my_id: u64,
    is_host: bool,
    everyone: bool,
) -> bool {
    match lookup(old.rooms@, room_id) {
        None => untouched(old, new),
        Some((k, r)) => if !is_host {
            told_in(old, new, k, r, my_id, ServerMsg::Error { code: "not_allowed" })
        } else {
            announced_in(
                old,
                new,
                k,
                Room { everyone_can_generate: everyone, ..r },
                recipients(r.participants@, None),
                ServerMsg::Policy { everyone },
            )
        },
    }
}

/// A frame from `my_id` while the generation lock is held by someone is
/// refused with a `locked` error unless `my_id` is the host; otherwise it is
/// relayed verbatim to every other participant.
pub fn handle_relay(state: &mut AppState, room_id: &str, my_id: u64, is_host: bool, p: String)
    requires
        old(state).wf(),
    ensures
        final(state).wf(),
        same_server(*final(state), *old(state)),
        relay_effect(*old(state), *final(state), room_id, my_id, is_host, p),
        closings_recorded(*old(state), *final(state)),
{
    let ghost s0 = *state;
    let (k, room) = match take_room(state, room_id) {
        Some(x) => x,
        None => return,
    };
    proof {
        s0.rooms@.lemma_remove_key_len(k);
    }
    if room.locked_by.is_some() && !is_host {
        tell_and_restore(state, k, room, my_id, &ServerMsg::Error { code: "locked" });
        assert(state.rooms@ =~= s0.rooms@.insert(k, state.rooms@[k]));
        return;
    }
    let _ = announce_in(state, k, room, &ServerMsg::Relay { from: my_id, p }, Some(my_id));
    assert(state.rooms@.remove(k) =~= s0.rooms@.remove(k));
}

/// Puts `room` back under `k` unchanged.
fn restore(state: &mut AppState, k: u64, room: Room)
    requires
        old(state).wf(),
        !old(state).rooms@.contains_key(k),
        old(state).rooms@.len() < old(state).cfg.max_rooms,
        room_ok(room, old(state).cfg.max_participants_per_room as nat),
    ensures
        same_server(*final(state), *old(state)),
        final(state).wf(),
        final(state).rooms@ == old(state).rooms@.insert(k, room),
        final(state).closed == old(state).closed,
{
    state.rooms.insert(k, room);
    assert(state.rooms@.dom() =~= old(state).rooms@.dom().insert(k));
}

/// The lock sequence number after `s`: one more, wrapping to zero.
pub open spec fn next_seq(s: u64) -> u64 {
    if s == u64::MAX {
        0
    } else {
        (s + 1) as u64
    }
}

fn bump(s: u64) -> (r: u64)
    ensures
        r == next_seq(s),
{
    if s == u64::MAX {
        0
    } else {
        s + 1
    }
}

/// Takes the generation lock for `my_id` if nobody holds it and `my_id` may
/// generate (the host always, guests when the policy says everyone), and
/// announces it. Returns the lock's sequence number when a lock timer should
/// be started for it: when the lock was taken and the room survived.
pub fn handle_gen_start(state: &mut AppState, room_id: &str, my_id: u64, is_host: bool) -> (timer: Option<u64>)
    requires
        old(state).wf(),
    ensures
        final(state).wf(),
        same_server(*final(state), *old(state)),
        gen_start_effect(*old(state), *final(state), room_id, my_id, is_host, timer),
        closings_recorded(*old(state), *final(state)),
{
    let ghost s0 = *state;
    let (k, mut room) = match take_room(state, room_id) {
        Some(x) => x,
        None => return None,
    };
    proof {
        s0.rooms@.lemma_remove_key_len(k);
    }
    if room.locked_by.is_some() {
        tell_and_restore(state, k, room, my_id, &ServerMsg::Error { code: "already_locked" });
        assert(state.rooms@ =~= s0.rooms@.insert(k, state.rooms@[k]));
        return None;
    }
    if !(is_host || room.everyone_can_generate) {
        tell_and_restore(state, k, room, my_id, &ServerMsg::Error { code: "not_allowed" });
        assert(state.rooms@ =~= s0.rooms@.insert(k, state.rooms@[k]));
        return None;
    }
    room.locked_by = Some(my_id);
    room.lock_seq = bump(room.lock_seq);
    let seq = room.lock_seq;
    let closed = announce_in(state, k, room, &ServerMsg::Locked { by: my_id }, None);
    assert(state.rooms@.remove(k) =~= s0.rooms@.remove(k));
    if closed {
        None
    } else {
        Some(seq)
    }
}

/// Releases the generation lock; host only. A release with no lock held does
/// nothing. The sequence number moves on, so a pending lock timer for the
/// released lock finds it stale.
pub fn handle_gen_end(state: &mut AppState, room_id: &str, my_id: u64, is_host: bool)
    requires
        old(state).wf(),
    ensures
        final(state).wf(),
        same_server(*final(state), *old(state)),
        gen_end_effect(*old(state), *final(state), room_id, my_id, is_host),
        closings_recorded(*old(state), *final(state)),
{
    let ghost s0 = *state;
    let (k, mut room) = match take_room(state, room_id) {
        Some(x) => x,
        None => return,
    };
    proof {
        s0.rooms@.lemma_remove_key_len(k);
    }
    if !is_host {
        tell_and_restore(state, k, room, my_id, &ServerMsg::Error { code: "not_allowed" });
        assert(state.rooms@ =~= s0.rooms@.insert(k, state.rooms@[k]));
        return;
    }
    if room.locked_by.is_none() {
        restore(state, k, room);
        assert(state.rooms@ =~= s0.rooms@);
        return;
    }
    room.locked_by = None;
    room.lock_seq = bump(room.lock_seq);
    let _ = announce_in(state, k, room, &ServerMsg::Unlocked, None);
    assert(state.rooms@.remove(k) =~= s0.rooms@.remove(k));
}

/// Sets who may start a generation; host only.
pub fn handle_policy(state: &mut AppState, room_id: &str, my_id: u64, is_host: bool, everyone: bool)
    requires
        old(state).wf(),
    ensures
        final(state).wf(),
        same_server(*final(state), *old(state)),
        policy_effect(*old(state), *final(state), room_id, my_id, is_host, everyone),
        closings_recorded(*old(state), *final(state)),
{
    let ghost s0 = *state;
    let (k, mut room) = match take_room(state, room_id) {
        Some(x) => x,
        None => return,
    };
    proof {
        s0.rooms@.lemma_remove_key_len(k);
    }
    if !is_host {
        tell_and_restore(state, k, room, my_id, &ServerMsg::Error { code: "not_allowed" });
        assert(state.rooms@ =~= s0.rooms@.insert(k, state.rooms@[k]));
        return;
    }
    room.everyone_can_generate = everyone;
    let _ = announce_in(state, k, room, &ServerMsg::Policy { everyone }, None);
    assert(state.rooms@.remove(k) =~= s0.rooms@.remove(k));
}

/// The lock timer for the lock with sequence number `seq` ran out: if that
/// lock is still the one held, it is released and the release announced.
pub fn lock_timer_expired(state: &mut AppState, room_id: &str, seq: u64)
    requires
        old(state).wf(),
    ensures
        final(state).wf(),
        same_server(*final(state), *old(state)),
        closings_recorded(*old(state), *final(state)),
        match lookup(old(state).rooms@, room_id) {
            None => untouched(*old(state), *final(state)),
            Some((k, r)) => if r.locked_by is Some && r.lock_seq == seq {
                announced_in(
                    *old(state),
                    *final(state),
                    k,
                    Room { locked_by: None, ..r },
                    recipients(r.participants@, None),
                    ServerMsg::Unlocked,
                )
            } else {
                untouched(*old(state), *final(state))
            },
        },
{
    let ghost s0 = *state;
    let (k, mut room) = match take_room(state, room_id) {
        Some(x) => x,
        None => return,
    };
    proof {
        s0.rooms@.lemma_remove_key_len(k);
    }
    if !(room.locked_by.is_some() && room.lock_seq == seq) {
        restore(state, k, room);
        assert(state.rooms@ =~= s0.rooms@);
        return;
    }
    room.locked_by = None;
    let _ = announce_in(state, k, room, &ServerMsg::Unlocked, None);
    assert(state.rooms@.remove(k) =~= s0.rooms@.remove(k));
}

/// Leaving nobody out, the recipients are the participants' ids in order.
pub proof fn lemma_ids_are_recipients(ps: Seq<Participant>)
    ensures
        ids(ps) == recipients(ps, None),
    decreases ps.len(),
{
    if ps.len() > 0 {
        lemma_ids_are_recipients(ps.drop_last());
        assert(ids(ps) =~= ids(ps.drop_last()).push(ps.last().id));
    } else {
        assert(ids(ps) =~= Seq::<u64>::empty());
    }
}

/// Leaving out an id that no participant has leaves out nobody.
pub proof fn lemma_recipients_absent(ps: Seq<Participant>, id: u64)
    requires
        !has_id(ps, id),
    ensures
        recipients(ps, Some(id)) == recipients(ps, None),
    decreases ps.len(),
{
    if ps.len() > 0 {
        assert(ps[ps.len() - 1].id != id);
        let p = ps.drop_last();
        assert(!has_id(p, id)) by {
            if has_id(p, id) {
                let i = choose|i: int| 0 <= i < p.len() && #[trigger] p[i].id == id;
                assert(ps[i].id == id);
            }
        }
        lemma_recipients_absent(p, id);
    }
}

/// With unique ids, removing the participant at `i` addresses everyone else.
pub proof fn lemma_recipients_remove(ps: Seq<Participant>, i: int)
    requires
        0 <= i < ps.len(),
        forall|a: int, b: int| 0 <= a < b < ps.len() ==> ps[a].id < ps[b].id,
    ensures
        recipients(ps.remove(i), None) == recipients(ps, Some(ps[i].id)),
    decreases ps.len(),
{
    let id = ps[i].id;
    let p = ps.drop_last();
    if i == ps.len() - 1 {
        assert(ps.remove(i) =~= p);
        assert(!has_id(p, id)) by {
            if has_id(p, id) {
                let j = choose|j: int| 0 <= j < p.len() && #[trigger] p[j].id == id;
                assert(ps[j].id < ps[i].id);
            }
        }
        lemma_recipients_absent(p, id);
    } else {
        lemma_recipients_remove(p, i);
        assert(ps.remove(i).drop_last() =~= p.remove(i));
        assert(ps.remove(i).last() == ps.last());
        assert(ps.last().id != id);
    }
}

/// Whoever is in `a` is in `b` when every participant of `a` is one of `b`.
pub proof fn lemma_has_subset(a: Seq<Participant>, b: Seq<Participant>, x: u64)
    requires
        forall|i: int| 0 <= i < a.len() ==> b.contains(#[trigger] a[i]),
        has_id(a, x),
    ensures
        has_id(b, x),
{
    let i = choose|i: int| 0 <= i < a.len() && #[trigger] a[i].id == x;
    assert(b.contains(a[i]));
    let j = choose|j: int| 0 <= j < b.len() && b[j] == a[i];
    assert(b[j].id == x);
}

/// `rd` is `r` with participant `id` taken out, nothing else changed but
/// possibly the lock.
pub open spec fn departed(rd: Room, r: Room, id: u64) -> bool {
    &&& exists|i: int|
        0 <= i < r.participants@.len() && #[trigger] r.participants@[i].id == id
            && rd.participants@ == r.participants@.remove(i)
    &&& rd.same_fixed(r)
    &&& rd.deliveries@ == r.deliveries@
    &&& forall|x: u64| #[trigger] rd.has(x) <==> (r.has(x) && x != id)
}

/// After the departure of the lock holder `id` (leaving `rd`), `unlocked` was
/// queued for each of `to` and the slow consumers were purged (leaving `rp`);
/// then, if the host is still there, the departure was announced with the
/// count of those left; otherwise the room was closed with `host_left`.
pub open spec fn released_then_left(
    old: AppState,
    new: AppState,
    k: u64,
    rd: Room,
    rp: Room,
    to: Seq<u64>,
    id: u64,
) -> bool {
    &&& text_deliveries(
        log_since(rp.deliveries@, rd.deliveries@.len() as int).take(to.len() as int),
        to,
        server_msg_json(ServerMsg::Unlocked),
    )
    &&& if host_kept(rd, rp) {
        announced_in(
            old,
            new,
            k,
            rp,
            recipients(rp.participants@, None),
            ServerMsg::Left { id, count: rp.participants@.len() as usize },
        )
    } else {
        let rc = new.closed@.last().1;
        &&& new.rooms@ == old.rooms@.remove(k)
        &&& new.closed@ == old.closed@.push((k, rc))
        &&& closed_room(rc, rp, "host_left", HOST_LEFT)
    }
}

/// What the end of participant `id`'s connection does: nothing where the
/// room or the participant is gone; the host's departure closes the room,
/// telling everyone else why; a guest's departure is announced to the others
/// with the count of those left, after the release of the lock if the guest
/// held it.
pub open spec fn disconnect_effect(old_s: AppState, new_s: AppState, room_id: &str, id: u64) -> bool {
    match lookup(old_s.rooms@, room_id) {
        None => untouched(old_s, new_s),
        Some((k, r)) => if !r.has(id) {
            untouched(old_s, new_s)
        } else if r.host_id == Some(id) {
            let rc = new_s.closed@.last().1;
            &&& new_s.rooms@ == old_s.rooms@.remove(k)
            &&& new_s.closed@ == old_s.closed@.push((k, rc))
            &&& rc.closing
            &&& rc.participants@.len() == 0
            &&& log_extends(rc.deliveries@, r.deliveries@)
            &&& closing_deliveries(
                log_since(rc.deliveries@, r.deliveries@.len() as int),
                recipients(r.participants@, Some(id)),
                server_msg_json(ServerMsg::RoomClosed { reason: "host_left" }),
                HOST_LEFT,
            )
        } else {
            let to = recipients(r.participants@, Some(id));
            exists|rd: Room|
                #[trigger] departed(rd, r, id) && if r.locked_by == Some(id) {
                    &&& rd.locked_by is None
                    &&& rd.lock_seq == next_seq(r.lock_seq)
                    &&& exists|rp: Room|
                        #[trigger] purged(rp, rd) && released_then_left(
                            old_s,
                            new_s,
                            k,
                            rd,
                            rp,
                            to,
                            id,
                        )
                } else {
                    &&& rd.locked_by == r.locked_by
                    &&& rd.lock_seq == r.lock_seq
                    &&& announced_in(
                        old_s,
                        new_s,
                        k,
                        rd,
                        to,
                        ServerMsg::Left { id, count: (r.participants@.len() - 1) as usize },
                    )
                }
        },
    }
}

/// The participant `id` left. A host's departure ends the room. A guest's is
/// announced to everyone else with `left`; if it held the generation lock,
/// the lock is released and `unlocked` announced first.
pub fn disconnect(state: &mut AppState, room_id: &str, id: u64)
    requires
        old(state).wf(),
    ensures
        final(state).wf(),
        same_server(*final(state), *old(state)),
        closings_recorded(*old(state), *final(state)),
        disconnect_effect(*old(state), *final(state), room_id, id),
{
    let ghost s0 = *state;
    let (k, mut room) = match take_room(state, room_id) {
        Some(x) => x,
        None => return,
    };
    let ghost r = room;
    proof {
        s0.rooms@.lemma_remove_key_len(k);
    }
    let idx = match room.position(id) {
        Some(i) => i,
        None => {
            restore(state, k, room);
            assert(state.rooms@ =~= s0.rooms@);
            return;
        },
    };
    let (p, _tx) = room.remove_at(idx);
    proof {
        lemma_recipients_remove(r.participants@, idx as int);
    }
    if p.is_host {
        proof {
            lemma_ids_are_recipients(room.participants@);
        }
        retire(state, k, room, "host_left", HOST_LEFT);
        return;
    }
    proof {
        // the host, if any, is someone else and still present
        if let Some(h) = r.host_id {
            let i = choose|i: int| 0 <= i < r.participants@.len() && #[trigger] r.participants@[i].id == h && r.participants@[i].is_host;
            assert(i != idx);
            assert(room.has(h));
            let j = choose|j: int| 0 <= j < room.participants@.len() && #[trigger] room.participants@[j].id == h;
            let jj = if j < idx { j } else { j + 1 };
            assert(room.participants@[j] == r.participants@[jj]);
            assert(jj == i) by {
                if jj < i {
                    assert(r.participants@[jj].id < r.participants@[i].id);
                } else if i < jj {
                    assert(r.participants@[i].id < r.participants@[jj].id);
                }
            }
        }
        assert(r.host_id != Some(id));
    }
    let ghost r1 = room;
    proof {
        assert(departed(r1, r, id));
        assert(room_ok(r1, s0.cfg.max_participants_per_room as nat));
    }
    let holds_lock = match room.locked_by {
        Some(l) => l == id,
        None => false,
    };
    let max = Ghost(state.cfg.max_participants_per_room);
    if holds_lock {
        room.locked_by = None;
        room.lock_seq = bump(room.lock_seq);
        let ghost rd = room;
        proof {
            assert(r.participants@[idx as int].id == id);
            assert(rd.participants@ == r.participants@.remove(idx as int));
            assert forall|x: u64| #[trigger] rd.has(x) <==> (r.has(x) && x != id) by {
                assert(rd.has(x) == r1.has(x));
            }
            assert(departed(rd, r, id));
        }
        if broadcast_and_purge(&mut room, &ServerMsg::Unlocked, None, max) {
            let ghost rp = room;
            retire(state, k, room, "host_left", HOST_LEFT);
            proof {
                assert(state.rooms@ =~= s0.rooms@.remove(k));
                assert(purged(rp, rd) && released_then_left(s0, *state, k, rd, rp, recipients(r.participants@, Some(id)), id));
            }
            return;
        }
        let ghost rp = room;
        let count = room.count();
        let _ = announce_in(state, k, room, &ServerMsg::Left { id, count }, None);
        proof {
            assert(state.rooms@.remove(k) =~= s0.rooms@.remove(k));
            assert(purged(rp, rd) && released_then_left(s0, *state, k, rd, rp, recipients(r.participants@, Some(id)), id));
        }
    } else {
        let count = room.count();
        let _ = announce_in(state, k, room, &ServerMsg::Left { id, count }, None);
        proof {
            assert(state.rooms@.remove(k) =~= s0.rooms@.remove(k));
        }
    }
}

/// Length of an issued host or guest token (32 bytes, unpadded base64).
pub const TOKEN_LEN: usize = 43;

/// The bytes of a presented token.
pub open spec fn opt_bytes(o: Option<&str>) -> Option<Seq<u8>> {
    match o {
        Some(t) => Some(t.spec_bytes()),
        None => None,
    }
}

/// Who a hello admits to room `r`: `Ok(true)` for the host, `Ok(false)` for
/// a guest, or the close code that refuses it. A host token must have the
/// issued length and hash to the stored host hash, and the room must not have
/// a host yet; without a host token, a guest token must have the issued
/// length and hash to the stored guest hash. The room must have space (and
/// ids left to give).
pub open spec fn admission(
    r: Room,
    host_token: Option<Seq<u8>>,
    guest_token: Option<Seq<u8>>,
    max_participants: nat,
) -> Result<bool, u16> {
    let role: Result<bool, u16> = match host_token {
        Some(t) => if t.len() != TOKEN_LEN || sha256_digest(t) != r.host_token_hash@ {
            Err(BAD_HOST_TOKEN)
        } else if r.host_id is Some {
            Err(HOST_ALREADY_CONNECTED)
        } else {
            Ok(true)
        },
        None => match guest_token {
            Some(t) => if t.len() == TOKEN_LEN && sha256_digest(t) == r.guest_token_hash@ {
                Ok(false)
            } else {
                Err(BAD_HOST_TOKEN)
            },
            None => Err(BAD_HOST_TOKEN),
        },
    };
    if r.closing {
        Err(ROOM_NOT_FOUND)
    } else {
        match role {
            Err(c) => Err(c),
            Ok(h) => if r.participants@.len() >= max_participants || r.next_id == u64::MAX {
                Err(ROOM_FULL)
            } else {
                Ok(h)
            },
        }
    }
}

/// How a hello for `room_id` is answered.
pub open spec fn hello_outcome(
    rooms: Map<u64, Room>,
    room_id: &str,
    host_token: Option<&str>,
    guest_token: Option<&str>,
    max_participants: nat,
) -> Result<bool, u16> {
    match lookup(rooms, room_id) {
        None => Err(ROOM_NOT_FOUND),
        Some((k, r)) => admission(r, opt_bytes(host_token), opt_bytes(guest_token), max_participants),
    }
}

/// Decides admission to `room` (see `admission`).
pub fn check_admission(
    room: &Room,
    host_token: Option<&str>,
    guest_token: Option<&str>,
    max_participants: usize,
) -> (r: Result<bool, u16>)
    ensures
        r == admission(*room, opt_bytes(host_token), opt_bytes(guest_token), max_participants as nat),
{
    if room.closing {
        return Err(ROOM_NOT_FOUND);
    }
    let is_host = match host_token {
        Some(token) => {
            if token.as_bytes().len() != TOKEN_LEN {
                return Err(BAD_HOST_TOKEN);
            }
            let hash = sha256(token.as_bytes());
            if !room.verify_host_token(&hash) {
                return Err(BAD_HOST_TOKEN);
            }
            if room.host_id.is_some() {
                return Err(HOST_ALREADY_CONNECTED);
            }
            true
        },
        None => {
            match guest_token {
                Some(token) => {
                    if token.as_bytes().len() != TOKEN_LEN {
                        return Err(BAD_HOST_TOKEN);
                    }
                    let hash = sha256(token.as_bytes());
                    if !room.verify_guest_token(&hash) {
                        return Err(BAD_HOST_TOKEN);
                    }
                },
                None => {
                    return Err(BAD_HOST_TOKEN);
                },
            }
            false
        },
    };
    if room.count() >= max_participants || room.next_id == u64::MAX {
        return Err(ROOM_FULL);
    }
    Ok(is_host)
}

/// The welcome frame for participant `id` joining `r`.
pub open spec fn welcome_msg(r: Room, id: u64, is_host: bool) -> ServerMsg {
    ServerMsg::Welcome {
        you: id,
        role: if is_host {
            "host"
        } else {
            "guest"
        },
        count: (r.participants@.len() + 1) as usize,
        locked_by: r.locked_by,
        everyone_can_generate: r.everyone_can_generate,
    }
}

/// `new` is `old` after participant `id` joined the room that `room_id` names
/// with the next id: the room with the newcomer added and sent the welcome
/// frame, then `joined` announced to everyone else.
pub open spec fn joined(old: AppState, new: AppState, room_id: &str, id: u64, is_host: bool) -> bool {
    let (k, r) = lookup(old.rooms@, room_id).unwrap();
    &&& lookup(old.rooms@, room_id) is Some
    &&& id == r.next_id
    &&& exists|rw: Room|
        #[trigger] admitted(rw, r, id, is_host) && delivers_text(
            rw.deliveries@.last(),
            id,
            server_msg_json(welcome_msg(r, id, is_host)),
        ) && announced_in(
            old,
            new,
            k,
            rw,
            recipients(r.participants@, None),
            ServerMsg::Joined { id, count: (r.participants@.len() + 1) as usize },
        )
}

/// `rw` is `r` after participant `id` joined it (as host or guest) and was
/// sent one frame; nothing else changed.
pub open spec fn admitted(rw: Room, r: Room, id: u64, is_host: bool) -> bool {
    &&& rw.participants@.len() == r.participants@.len() + 1
    &&& rw.participants@.drop_last() == r.participants@
    &&& rw.participants@.last().id == id
    &&& rw.participants@.last().is_host == is_host
    &&& forall|x: u64| #[trigger] rw.has(x) <==> (r.has(x) || x == id)
    &&& rw.next_id == r.next_id + 1
    &&& rw.host_id == if is_host {
        Some(id)
    } else {
        r.host_id
    }
    &&& rw.host_token_hash == r.host_token_hash
    &&& rw.guest_token_hash == r.guest_token_hash
    &&& rw.created_at == r.created_at
    &&& rw.closing == r.closing
    &&& rw.locked_by == r.locked_by
    &&& rw.lock_seq == r.lock_seq
    &&& rw.everyone_can_generate == r.everyone_can_generate
    &&& rw.deliveries@.len() == r.deliveries@.len() + 1
    &&& rw.deliveries@.drop_last() == r.deliveries@
    &&& rw.deliveries@.last().to == id
}

/// Admits the sender of a hello to room `room_id`, or refuses it with a close
/// code (see `hello_outcome`). An admitted participant gets the next id, a
/// fresh outbound queue whose receiving end is returned, a `welcome` frame,
/// and a `joined` announcement to everyone already there.
pub fn register(
    state: &mut AppState,
    room_id: &str,
    host_token: Option<&str>,
    guest_token: Option<&str>,
) -> (res: Result<(u64, bool, Receiver<Outbound>), u16>)
    requires
        old(state).wf(),
    ensures
        final(state).wf(),
        same_server(*final(state), *old(state)),
        closings_recorded(*old(state), *final(state)),
        ({
            let outcome = hello_outcome(
                old(state).rooms@,
                room_id,
                host_token,
                guest_token,
                old(state).cfg.max_participants_per_room as nat,
            );
            match res {
                Err(code) => outcome == Err::<bool, u16>(code) && final(state).rooms@ == old(
                    state,
                ).rooms@,
                Ok((id, is_host, _)) => {
                    &&& outcome == Ok::<bool, u16>(is_host)
                    &&& is_host == (host_token is Some)
                    &&& joined(*old(state), *final(state), room_id, id, is_host)
                },
            }
        }),
{
    let ghost s0 = *state;
    let k = match room_key(room_id) {
        Some(k) => k,
        None => return Err(ROOM_NOT_FOUND),
    };
    let is_host = match state.rooms.get(&k) {
        None => return Err(ROOM_NOT_FOUND),
        Some(room) => match check_admission(
            room,
            host_token,
            guest_token,
            state.cfg.max_participants_per_room,
        ) {
            Ok(h) => h,
            Err(code) => return Err(code),
        },
    };
    let (k, mut room) = match take_room(state, room_id) {
        Some(x) => x,
        None => return Err(ROOM_NOT_FOUND),
    };
    let ghost r = room;
    proof {
        s0.rooms@.lemma_remove_key_len(k);
        assert(r.participants@.len() < s0.cfg.max_participants_per_room);
    }
    let id = room.next_id;
    room.next_id = id + 1;
    let (tx, rx) = open_queue(CLIENT_QUEUE);
    room.participants.push(Participant { id, is_host });
    room.senders.push(tx);
    if is_host {
        room.host_id = Some(id);
    }
    proof {
        let ps = room.participants@;
        assert(ps.drop_last() == r.participants@);
        assert(ps.last().id == id);
        assert(admission(r, opt_bytes(host_token), opt_bytes(guest_token), s0.cfg.max_participants_per_room as nat) == Ok::<bool, u16>(is_host));
        if is_host {
            assert(r.host_id is None);
            assert(forall|i: int| 0 <= i < r.participants@.len() ==> !#[trigger] r.participants@[i].is_host);
        }
        assert forall|i: int, j: int| 0 <= i < j < ps.len() implies ps[i].id < ps[j].id by {
            if j < ps.len() - 1 {
                assert(ps[i] == r.participants@[i]);
                assert(ps[j] == r.participants@[j]);
            } else {
                assert(ps[i] == r.participants@[i]);
            }
        }
        assert forall|i: int| 0 <= i < ps.len() implies 1 <= #[trigger] ps[i].id < room.next_id by {
            if i < ps.len() - 1 {
                assert(ps[i] == r.participants@[i]);
            }
        }
        assert forall|i: int| 0 <= i < ps.len() && #[trigger] ps[i].is_host implies room.host_id == Some(ps[i].id) by {
            if i < ps.len() - 1 {
                assert(ps[i] == r.participants@[i]);
            }
        }
        assert(room.wf());
        assert(room.host_present()) by {
            if is_host {
                assert(ps[ps.len() - 1].id == id && ps[ps.len() - 1].is_host);
            } else if let Some(h) = r.host_id {
                let i = choose|i: int| 0 <= i < r.participants@.len() && #[trigger] r.participants@[i].id == h && r.participants@[i].is_host;
                assert(ps[i] == r.participants@[i]);
            }
        }
        assert(!has_id(r.participants@, id)) by {
            if has_id(r.participants@, id) {
                let i = choose|i: int| 0 <= i < r.participants@.len() && #[trigger] r.participants@[i].id == id;
            }
        }
        lemma_recipients_absent(r.participants@, id);
        assert(recipients(ps, Some(id)) == recipients(r.participants@, Some(id)));
        assert(room.has(id)) by {
            assert(ps[ps.len() - 1].id == id);
        }
    }
    let count = room.count();
    let welcome = ServerMsg::Welcome {
        you: id,
        role: if is_host {
            "host"
        } else {
            "guest"
        },
        count,
        locked_by: room.locked_by,
        everyone_can_generate: room.everyone_can_generate,
    };
    room.send_to(id, &welcome);
    let ghost rw = room;
    proof {
        let new = log_since(rw.deliveries@, r.deliveries@.len() as int);
        assert(new[0] == rw.deliveries@[r.deliveries@.len() as int]);
        assert(rw.deliveries@.subrange(0, r.deliveries@.len() as int) == r.deliveries@);
        assert(rw.deliveries@.drop_last() =~= r.deliveries@);
        assert forall|x: u64| #[trigger] rw.has(x) <==> (r.has(x) || x == id) by {
            let ps = rw.participants@;
            if rw.has(x) {
                let i = choose|i: int| 0 <= i < ps.len() && #[trigger] ps[i].id == x;
                if i < r.participants@.len() {
                    assert(ps[i] == r.participants@[i]);
                }
            }
            if r.has(x) {
                let i = choose|i: int| 0 <= i < r.participants@.len() && #[trigger] r.participants@[i].id == x;
                assert(ps[i] == r.participants@[i]);
            }
        }
        assert(admitted(rw, r, id, is_host));
    }
    let _ = announce_in(state, k, room, &ServerMsg::Joined { id, count }, Some(id));
    proof {
        assert(state.rooms@.remove(k) =~= s0.rooms@.remove(k));
        let c = (r.participants@.len() + 1) as usize;
        assert(c == count);
        assert(welcome_msg(r, id, is_host) == welcome);
        assert(lookup(s0.rooms@, room_id) == Some((k, r)));
        assert(announced_in(s0, *state, k, rw, recipients(r.participants@, None), ServerMsg::Joined { id, count: c }));
        assert(admitted(rw, r, id, is_host) && delivers_text(rw.deliveries@.last(), id, server_msg_json(welcome_msg(r, id, is_host))));
        assert(joined(s0, *state, room_id, id, is_host));
    }
    Ok((id, is_host, rx))
}

/// A room is collected when no host is connected and it is older than
/// `ttl` seconds.
pub open spec fn expired(r: Room, now: u64, ttl: u64) -> bool {
    r.host_id is None && elapsed_ns(r.created_at, now) > secs_ns(ttl)
}

/// Closes (reason `expired`, close code for idle timeout) every room whose
/// host is not connected and that is older than the room TTL; rooms with a
/// connected host live until the host leaves.
pub fn gc_expired_rooms(state: &mut AppState, now: u64)
    requires
        old(state).wf(),
    ensures
        final(state).wf(),
        same_server(*final(state), *old(state)),
        forall|k: u64|
            #[trigger] final(state).rooms@.contains_key(k) <==> (old(state).rooms@.contains_key(k)
                && !expired(old(state).rooms@[k], now, old(state).cfg.room_ttl)),
        forall|k: u64|
            #[trigger] final(state).rooms@.contains_key(k) ==> final(state).rooms@[k] == old(
                state,
            ).rooms@[k],
        closings_recorded(*old(state), *final(state)),
        forall|j: int|
            old(state).closed@.len() <= j < final(state).closed@.len() ==> {
                let (k, rc) = #[trigger] final(state).closed@[j];
                &&& expired(old(state).rooms@[k], now, old(state).cfg.room_ttl)
                &&& closed_room(rc, old(state).rooms@[k], "expired", IDLE_TIMEOUT)
            },
        forall|j1: int, j2: int|
            old(state).closed@.len() <= j1 < j2 < final(state).closed@.len() ==> (
            #[trigger] final(state).closed@[j1]).0 != (#[trigger] final(state).closed@[j2]).0,
        forall|k: u64|
            old(state).rooms@.contains_key(k) && expired(old(state).rooms@[k], now, old(state).cfg.room_ttl)
                ==> exists|j: int|
                old(state).closed@.len() <= j < final(state).closed@.len() && (
                #[trigger] final(state).closed@[j]).0 == k,
{
    let ttl = state.cfg.room_ttl;
    let mut doomed: Vec<u64> = Vec::new();
    let ghost m = state.rooms@;
    let ghost ks = spec_keys_iter(&state.rooms).remaining();
    let ghost mut idx: int = 0;
    for k in it: state.rooms.keys()
        invariant
            m == state.rooms@,
            ttl == state.cfg.room_ttl,
            ks == it.seq(),
            idx == it.index(),
            it.seq().unref().to_set() == m.dom(),
            forall|j: int|
                0 <= j < doomed@.len() ==> m.contains_key(#[trigger] doomed@[j]) && expired(
                    m[doomed@[j]],
                    now,
                    ttl,
                ),
            forall|j: int|
                0 <= j < it.index() && m.contains_key(*it.seq()[j]) && expired(
                    m[*#[trigger] it.seq()[j]],
                    now,
                    ttl,
                ) ==> doomed@.contains(*it.seq()[j]),
    {
        let ghost before = doomed@;
        match state.rooms.get(k) {
            Some(room) => {
                if room.host_id.is_none() && elapsed_more_than(room.created_at, now, ttl) {
                    doomed.push(*k);
                }
            },
            None => {},
        }
        proof {
            assert forall|j: int|
                0 <= j <= it.index() && m.contains_key(*it.seq()[j]) && expired(
                    m[*#[trigger] it.seq()[j]],
                    now,
                    ttl,
                ) implies doomed@.contains(*it.seq()[j]) by {
                if j < it.index() {
                    let w = choose|w: int| 0 <= w < before.len() && before[w] == *it.seq()[j];
                    assert(doomed@[w] == before[w]);
                } else {
                    assert(doomed@[doomed@.len() - 1] == *k);
                }
            }
            idx = idx + 1;
        }
    }
    proof {
        assert(idx == ks.len());
        assert forall|k: u64| m.contains_key(k) && expired(m[k], now, ttl) implies doomed@.contains(k) by {
            assert(ks.unref().to_set().contains(k));
            let j = choose|j: int| 0 <= j < ks.unref().len() && ks.unref()[j] == k;
            assert(*ks[j] == k);
        }
    }
    let n = doomed.len();
    let mut i: usize = 0;
    let ghost c0 = old(state).closed@.len();
    while i < n
        invariant
            n == doomed@.len(),
            i <= n,
            state.wf(),
            same_server(*state, *old(state)),
            m == old(state).rooms@,
            c0 == old(state).closed@.len(),
            forall|j: int|
                0 <= j < doomed@.len() ==> m.contains_key(#[trigger] doomed@[j]) && expired(
                    m[doomed@[j]],
                    now,
                    state.cfg.room_ttl,
                ),
            forall|k: u64|
                m.contains_key(k) && expired(m[k], now, state.cfg.room_ttl) ==> doomed@.contains(k),
            forall|k: u64|
                #[trigger] state.rooms@.contains_key(k) <==> (m.contains_key(k)
                    && !doomed@.take(i as int).contains(k)),
            forall|k: u64| #[trigger] state.rooms@.contains_key(k) ==> state.rooms@[k] == m[k],
            c0 <= state.closed@.len(),
            forall|j: int| 0 <= j < c0 ==> #[trigger] state.closed@[j] == old(state).closed@[j],
            forall|j: int|
                c0 <= j < state.closed@.len() ==> {
                    let (k, rc) = #[trigger] state.closed@[j];
                    &&& m.contains_key(k)
                    &&& expired(m[k], now, state.cfg.room_ttl)
                    &&& !state.rooms@.contains_key(k)
                    &&& closed_room(rc, m[k], "expired", IDLE_TIMEOUT)
                },
            forall|j1: int, j2: int|
                c0 <= j1 < j2 < state.closed@.len() ==> (#[trigger] state.closed@[j1]).0
                    != (#[trigger] state.closed@[j2]).0,
            forall|k: u64|
                #[trigger] doomed@.take(i as int).contains(k) ==> exists|j: int|
                    c0 <= j < state.closed@.len() && (#[trigger] state.closed@[j]).0 == k,
        decreases n - i,
    {
        let ghost before = *state;
        let k = doomed[i];
        match state.rooms.remove(&k) {
            Some(room) => {
                proof {
                    before.rooms@.lemma_remove_key_len(k);
                    assert(state.rooms@.dom() =~= before.rooms@.dom().remove(k));
                }
                retire(state, k, room, "expired", IDLE_TIMEOUT);
            },
            None => {
                assert(state.rooms@ =~= before.rooms@);
            },
        }
        proof {
            let t = doomed@.take(i + 1);
            assert(t == doomed@.take(i as int).push(doomed@[i as int]));
            assert forall|x: u64| #[trigger] state.rooms@.contains_key(x) <==> (m.contains_key(x)
                && !t.contains(x)) by {
                if t.contains(x) && x != k {
                    let w = choose|w: int| 0 <= w < t.len() && t[w] == x;
                    assert(doomed@.take(i as int)[w] == x);
                }
                if doomed@.take(i as int).contains(x) {
                    let w = choose|w: int| 0 <= w < i && doomed@.take(i as int)[w] == x;
                    assert(t[w] == x);
                }
                assert(t[i as int] == k);
            }
            assert forall|x: u64| #[trigger] t.contains(x) implies exists|j: int|
                c0 <= j < state.closed@.len() && (#[trigger] state.closed@[j]).0 == x by {
                if x == k {
                    if before.rooms@.contains_key(k) {
                        assert(state.closed@[state.closed@.len() - 1].0 == k);
                    } else {
                        assert(doomed@.take(i as int).contains(k));
                        let j = choose|j: int| c0 <= j < before.closed@.len() && (#[trigger] before.closed@[j]).0 == k;
                        assert(state.closed@[j] == before.closed@[j]);
                    }
                } else {
                    let w = choose|w: int| 0 <= w < t.len() && t[w] == x;
                    assert(doomed@.take(i as int)[w] == x);
                    assert(doomed@.take(i as int).contains(x));
                    let j = choose|j: int| c0 <= j < before.closed@.len() && (#[trigger] before.closed@[j]).0 == x;
                    assert(state.closed@[j] == before.closed@[j]);
                }
            }
        }
        i = i + 1;
    }
    proof {
        assert(doomed@.take(n as int) =~= doomed@);
    }
}

/// What the read loop does after a frame.
pub enum NextStep {
    Continue,
    /// End the connection.
    Stop,
    /// Continue, and start the lock timer for the lock with this sequence
    /// number.
    StartLockTimer(u64),
}

/// What one parsed frame from participant `my_id` does, and what the read
/// loop does next: a second `hello` ends the connection; every other message
/// goes to its handler.
pub open spec fn dispatch_effect(
    old: AppState,
    new: AppState,
    room_id: &str,
    my_id: u64,
    is_host: bool,
    msg: ClientMsg,
    step: NextStep,
) -> bool {
    match msg {
        ClientMsg::Hello { .. } => step is Stop && untouched(old, new),
        ClientMsg::Relay { p } => step is Continue && relay_effect(
            old,
            new,
            room_id,
            my_id,
            is_host,
            p,
        ),
        ClientMsg::GenStart => gen_start_effect(
            old,
            new,
            room_id,
            my_id,
            is_host,
            match step {
                NextStep::StartLockTimer(seq) => Some(seq),
                _ => None,
            },
        ) && !(step is Stop),
        ClientMsg::GenEnd => step is Continue && gen_end_effect(
            old,
            new,
            room_id,
            my_id,
            is_host,
        ),
        ClientMsg::Policy { everyone } => step is Continue && policy_effect(
            old,
            new,
            room_id,
            my_id,
            is_host,
            everyone,
        ),
    }
}

/// Handles one parsed frame from participant `my_id`. A second `hello` ends
/// the connection; everything else goes to its handler.
pub fn dispatch(state: &mut AppState, room_id: &str, my_id: u64, is_host: bool, msg: ClientMsg) -> (step: NextStep)
    requires
        old(state).wf(),
    ensures
        final(state).wf(),
        same_server(*final(state), *old(state)),
        closings_recorded(*old(state), *final(state)),
        dispatch_effect(*old(state), *final(state), room_id, my_id, is_host, msg, step),
{
    match msg {
        ClientMsg::Hello { .. } => NextStep::Stop,
        ClientMsg::Relay { p } => {
            handle_relay(state, room_id, my_id, is_host, p);
            NextStep::Continue
        },
        ClientMsg::GenStart => match handle_gen_start(state, room_id, my_id, is_host) {
            Some(seq) => NextStep::StartLockTimer(seq),
            None => NextStep::Continue,
        },
        ClientMsg::GenEnd => {
            handle_gen_end(state, room_id, my_id, is_host);
            NextStep::Continue
        },
        ClientMsg::Policy { everyone } => {
            handle_policy(state, room_id, my_id, is_host, everyone);
            NextStep::Continue
        },
    }
}

/// What woke the writer of a connection.
pub enum WriterEvent {
    /// The next item of the outbound queue.
    Queued(Outbound),
    /// The outbound queue was closed and is empty.
    QueueClosed,
    /// The ping interval elapsed; `now` is the clock reading (nanoseconds)
    /// and `last_seen` the reading at the last frame from the client.
    Tick { now: u64, last_seen: u64 },
}

/// What the writer sends next.
pub enum WriterAction {
    /// A text frame; the writer goes on unless sending fails.
    Text(String),
    /// A close frame with this code; the writer stops.
    Close(u16),
    /// A close frame without a code; the writer stops.
    CloseBare,
    /// A ping; the writer goes on unless sending fails.
    Ping,
}

/// The writer's decision for one event: queued text is sent, a queued close
/// (or a closed queue) ends the connection, and at each tick a client idle
/// for longer than `idle_limit` seconds is closed with the idle-timeout code,
/// any other is pinged.
pub fn writer_step(event: WriterEvent, idle_limit: u64) -> (a: WriterAction)
    ensures
        match event {
            WriterEvent::Queued(Outbound::Msg(t)) => a == WriterAction::Text(t),
            WriterEvent::Queued(Outbound::Close(code)) => a == WriterAction::Close(code),
            WriterEvent::QueueClosed => a == WriterAction::CloseBare,
            WriterEvent::Tick { now, last_seen } => if elapsed_ns(last_seen, now) > secs_ns(
                idle_limit,
            ) {
                a == WriterAction::Close(IDLE_TIMEOUT)
            } else {
                a == WriterAction::Ping
            },
        },
{
    match event {
        WriterEvent::Queued(Outbound::Msg(t)) => WriterAction::Text(t),
        WriterEvent::Queued(Outbound::Close(code)) => WriterAction::Close(code),
        WriterEvent::QueueClosed => WriterAction::CloseBare,
        WriterEvent::Tick { now, last_seen } => if elapsed_more_than(last_seen, now, idle_limit) {
            WriterAction::Close(IDLE_TIMEOUT)
        } else {
            WriterAction::Ping
        },
    }
}

/// Per-connection allowance of frames and bytes per rate window.
pub struct FrameLimiter {
    /// Monotonic clock reading (nanoseconds) at which the window started.
    pub started: u64,
    pub frames: u32,
    pub bytes: usize,
}

pub open spec fn sat_add_u32(a: u32, b: u32) -> u32 {
    if a + b > u32::MAX {
        u32::MAX
    } else {
        (a + b) as u32
    }
}

pub open spec fn sat_add_usize(a: usize, b: usize) -> usize {
    if a + b > usize::MAX {
        usize::MAX
    } else {
        (a + b) as usize
    }
}

impl FrameLimiter {
    pub fn new(now: u64) -> (l: Self)
        ensures
            l.started == now,
            l.frames == 0,
            l.bytes == 0,
    {
        FrameLimiter { started: now, frames: 0, bytes: 0 }
    }

    /// Counts a frame of `len` bytes arriving at `now`, after starting a new
    /// window if the current one has lasted the rate window. Returns whether
    /// the connection is still within both allowances; the counts saturate.
    pub fn count_frame(&mut self, now: u64, len: usize, cfg: &Config) -> (ok: bool)
        ensures
            ({
                let reset = elapsed_ns(old(self).started, now) >= secs_ns(cfg.rate_window);
                let f = if reset { 0 } else { old(self).frames };
                let b = if reset { 0 } else { old(self).bytes };
                &&& final(self).started == if reset { now } else { old(self).started }
                &&& final(self).frames == sat_add_u32(f, 1)
                &&& final(self).bytes == sat_add_usize(b, len)
                &&& ok == !(final(self).frames > cfg.max_frames_per_window
                    || final(self).bytes > cfg.max_bytes_per_window)
            }),
    {
        if elapsed_at_least(self.started, now, cfg.rate_window) {
            self.started = now;
            self.frames = 0;
            self.bytes = 0;
        }
        self.frames = self.frames.saturating_add(1);
        self.bytes = self.bytes.saturating_add(len);
        !(self.frames > cfg.max_frames_per_window || self.bytes > cfg.max_bytes_per_window)
    }
}

/// The position of the first comma in `s`, or its length.
pub open spec fn first_comma(s: Seq<char>) -> nat
    decreases s.len(),
{
    if s.len() == 0 {
        0
    } else if s[0] == ',' {
        0
    } else {
        1 + first_comma(s.drop_first())
    }
}

proof fn lemma_first_comma(s: Seq<char>, n: int)
    requires
        0 <= n <= s.len(),
        forall|j: int| 0 <= j < n ==> s[j] != ',',
        n == s.len() || s[n] == ',',
    ensures
        first_comma(s) == n,
    decreases n,
{
    if n > 0 {
        lemma_first_comma(s.drop_first(), n - 1);
    }
}

/// The text up to the first comma.
pub fn first_field(s: &str) -> (r: String)
    ensures
        r@ == s@.take(first_comma(s@) as int),
{
    let mut out = String::new();
    let mut done = false;
    let ghost mut n: int = 0;
    for c in it: s.chars()
        invariant
            it.seq() == s@,
            0 <= n <= it.index(),
            out@ == s@.take(n),
            forall|j: int| 0 <= j < n ==> s@[j] != ',',
            done ==> n < s@.len() && s@[n] == ',',
            !done ==> n == it.index(),
    {
        if !done {
            if c == ',' {
                done = true;
            } else {
                push_char(&mut out, c);
                proof {
                    assert(s@.take(n + 1) =~= s@.take(n).push(c));
                    n = n + 1;
                }
            }
        }
    }
    proof {
        lemma_first_comma(s@, n);
    }
    out
}

/// The `X-Forwarded-For` entry that names the client: the text before the
/// first comma, without surrounding whitespace.
pub fn forwarded_client(header: &str) -> (r: String)
    ensures
        r@ == trimmed(header@.take(first_comma(header@) as int)),
{
    let first = first_field(header);
    let t = trim_text(first.as_str());
    t.to_owned()
}

/// The address a client's limits are kept under: where the proxy is trusted
/// and the forwarded entry parsed as an address, that address; else the
/// peer's own.
pub fn effective_client_ip(peer_ip: IpKey, forwarded_ip: Option<IpKey>, trust_proxy: bool) -> (r: IpKey)
    ensures
        r == if trust_proxy && forwarded_ip is Some {
            forwarded_ip.unwrap()
        } else {
            peer_ip
        },
{
    if !trust_proxy {
        return peer_ip;
    }
    match forwarded_ip {
        Some(ip) => ip,
        None => peer_ip,
    }
}

} // verus!
