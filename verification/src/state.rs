//! In-memory room state. Nothing in this module is ever written to disk, a
//! database or an external cache; dropping the process drops everything.
use vstd::prelude::*;

use tokio::sync::mpsc::Sender;

use crate::crypto::constant_time_eq;
use crate::protocol::{server_msg_json, ServerMsg};
use crate::queue::{accepted, try_queue};

verus! {

/// Per-connection outbound queue size. If a client can't keep up and the
/// queue fills, only that client is disconnected.
pub const CLIENT_QUEUE: usize = 16;

/// A frame queued for delivery to one participant.
pub enum Outbound {
    Msg(String),
    /// Close the connection with this code after flushing.
    Close(u16),
}

/// One attempt to queue a frame for a participant, and whether the queue
/// took it. Rooms keep the sequence of these attempts as ghost state, so that
/// contracts can say who was told what.
pub struct Delivery {
    pub to: u64,
    pub item: Outbound,
    pub queued: bool,
}

/// A connected participant: its id within the room and whether it is the
/// room's host. Its outbound queue is kept beside it, in `Room::senders`.
pub struct Participant {
    pub id: u64,
    pub is_host: bool,
}

pub struct Room {
    /// SHA-256 hash of the host token. The plaintext token is returned exactly
    /// once at creation time and never stored server-side.
    pub host_token_hash: [u8; 32],
    /// Hash of the bearer token required for guest admission.
    pub guest_token_hash: [u8; 32],
    /// Monotonic clock reading at creation, in nanoseconds.
    pub created_at: u64,
    pub next_id: u64,
    /// Connected participants in the order they joined (ascending id).
    pub participants: Vec<Participant>,
    /// The outbound queue of each participant, in the same order.
    pub senders: Vec<Sender<Outbound>>,
    pub host_id: Option<u64>,
    pub locked_by: Option<u64>,
    /// Bumped on every lock and unlock; lets the lock watchdog detect that
    /// "its" lock is still the active one.
    pub lock_seq: u64,
    pub everyone_can_generate: bool,
    /// Set while the room is being torn down.
    pub closing: bool,
    /// Every attempt so far to queue a frame for a participant of this room.
    pub deliveries: Ghost<Seq<Delivery>>,
}

/// `d` is an attempt to queue the text frame `text` for participant `to`.
pub open spec fn delivers_text(d: Delivery, to: u64, text: Seq<char>) -> bool {
    &&& d.to == to
    &&& d.item matches Outbound::Msg(s) && s@ == text
}

/// `d` is an attempt to queue a close frame with `code` for participant `to`.
pub open spec fn delivers_close(d: Delivery, to: u64, code: u16) -> bool {
    &&& d.to == to
    &&& d.item matches Outbound::Close(c) && c == code
}

/// The frames in `ds` that were queued for participant `id`, in order.
pub open spec fn queued_items(ds: Seq<Delivery>, id: u64) -> Seq<Outbound>
    decreases ds.len(),
{
    if ds.len() == 0 {
        seq![]
    } else {
        let r = queued_items(ds.drop_last(), id);
        if ds.last().to == id && ds.last().queued {
            r.push(ds.last().item)
        } else {
            r
        }
    }
}

/// Each queue in `after` (the queues of `ps`, which were `before`) took
/// exactly the frames that the attempts `ds` record as queued for its
/// participant, and nothing else.
pub open spec fn sends_match(
    after: Seq<Sender<Outbound>>,
    before: Seq<Sender<Outbound>>,
    ps: Seq<Participant>,
    ds: Seq<Delivery>,
) -> bool {
    &&& after.len() == before.len()
    &&& forall|j: int|
        0 <= j < before.len() ==> #[trigger] accepted(after[j]) == accepted(before[j]) + queued_items(
            ds,
            ps[j].id,
        )
}

/// No attempt in `ds` went to `id`, so none was queued for it.
pub proof fn lemma_queued_items_absent(ds: Seq<Delivery>, id: u64)
    requires
        forall|k: int| 0 <= k < ds.len() ==> #[trigger] ds[k].to != id,
    ensures
        queued_items(ds, id) == Seq::<Outbound>::empty(),
    decreases ds.len(),
{
    if ds.len() > 0 {
        assert(ds[ds.len() - 1].to != id);
        lemma_queued_items_absent(ds.drop_last(), id);
    }
}

/// `ds` are attempts to queue `text` for each of `to`, in that order.
pub open spec fn text_deliveries(ds: Seq<Delivery>, to: Seq<u64>, text: Seq<char>) -> bool {
    &&& ds.len() == to.len()
    &&& forall|i: int| 0 <= i < ds.len() ==> #[trigger] delivers_text(ds[i], to[i], text)
}

/// The ids of `ps`, in order, leaving out `except`.
pub open spec fn recipients(ps: Seq<Participant>, except: Option<u64>) -> Seq<u64>
    decreases ps.len(),
{
    if ps.len() == 0 {
        seq![]
    } else {
        let r = recipients(ps.drop_last(), except);
        if except == Some(ps.last().id) {
            r
        } else {
            r.push(ps.last().id)
        }
    }
}

/// The recipients, in order, of the attempts in `ds` that the queue refused.
pub open spec fn failed_ids(ds: Seq<Delivery>) -> Seq<u64>
    decreases ds.len(),
{
    if ds.len() == 0 {
        seq![]
    } else {
        let r = failed_ids(ds.drop_last());
        if ds.last().queued {
            r
        } else {
            r.push(ds.last().to)
        }
    }
}

/// The ids of `ps`, in order.
pub open spec fn ids(ps: Seq<Participant>) -> Seq<u64> {
    ps.map_values(|p: Participant| p.id)
}

/// Some participant in `ps` has id `id`.
pub open spec fn has_id(ps: Seq<Participant>, id: u64) -> bool {
    exists|i: int| 0 <= i < ps.len() && #[trigger] ps[i].id == id
}

/// Since position `from`, the log records a refused attempt for `id`.
pub open spec fn refused_since(log: Seq<Delivery>, from: int, id: u64) -> bool {
    exists|k: int| from <= k < log.len() && #[trigger] log[k].to == id && !log[k].queued
}

/// Since position `from`, the log records an attempt to queue a close frame
/// with `code` for `id`.
pub open spec fn closed_since(log: Seq<Delivery>, from: int, id: u64, code: u16) -> bool {
    exists|k: int| from <= k < log.len() && #[trigger] delivers_close(log[k], id, code)
}

/// For each of `to` in order: the text frame `text`, then a close frame with
/// `code`.
pub open spec fn closing_deliveries(ds: Seq<Delivery>, to: Seq<u64>, text: Seq<char>, code: u16) -> bool {
    &&& ds.len() == 2 * to.len()
    &&& forall|i: int|
        0 <= i < to.len() ==> delivers_text(ds[2 * i], #[trigger] to[i], text) && delivers_close(
            ds[2 * i + 1],
            to[i],
            code,
        )
}

/// The frames attempted since the log had length `from`.
pub open spec fn log_since(log: Seq<Delivery>, from: int) -> Seq<Delivery> {
    log.subrange(from, log.len() as int)
}

/// `new` extends `old`.
pub open spec fn log_extends(new: Seq<Delivery>, old: Seq<Delivery>) -> bool {
    old.len() <= new.len() && new.subrange(0, old.len() as int) == old
}

impl Room {
    /// Structure that every room keeps: ids are unique and ascending, below
    /// `next_id`, and a host participant is the one `host_id` names.
    pub open spec fn wf(&self) -> bool {
        let ps = self.participants@;
        &&& self.senders@.len() == ps.len()
        &&& self.next_id >= 1
        &&& forall|i: int, j: int| 0 <= i < j < ps.len() ==> ps[i].id < ps[j].id
        &&& forall|i: int| 0 <= i < ps.len() ==> 1 <= #[trigger] ps[i].id < self.next_id
        &&& forall|i: int|
            0 <= i < ps.len() && #[trigger] ps[i].is_host ==> self.host_id == Some(ps[i].id)
    }

    /// The host that `host_id` names is connected.
    pub open spec fn host_present(&self) -> bool {
        self.host_id matches Some(h) ==> exists|i: int|
            0 <= i < self.participants@.len() && #[trigger] self.participants@[i].id == h
                && self.participants@[i].is_host
    }

    /// Whether `id` is a connected participant.
    pub open spec fn has(&self, id: u64) -> bool {
        has_id(self.participants@, id)
    }

    /// Everything but the delivery log is as in `other`.
    pub open spec fn same_state(&self, other: Room) -> bool {
        &&& self.host_token_hash == other.host_token_hash
        &&& self.guest_token_hash == other.guest_token_hash
        &&& self.created_at == other.created_at
        &&& self.next_id == other.next_id
        &&& self.participants@ == other.participants@
        &&& self.host_id == other.host_id
        &&& self.locked_by == other.locked_by
        &&& self.lock_seq == other.lock_seq
        &&& self.everyone_can_generate == other.everyone_can_generate
        &&& self.closing == other.closing
    }

    pub fn new(host_token_hash: [u8; 32], guest_token_hash: [u8; 32], created_at: u64) -> (r: Self)
        ensures
            r.host_token_hash == host_token_hash,
            r.guest_token_hash == guest_token_hash,
            r.created_at == created_at,
            r.next_id == 1,
            r.participants@.len() == 0,
            r.host_id is None,
            r.locked_by is None,
            r.lock_seq == 0,
            !r.everyone_can_generate,
            !r.closing,
            r.deliveries@.len() == 0,
            r.wf(),
            r.host_present(),
    {
        Room {
            host_token_hash,
            guest_token_hash,
            created_at,
            next_id: 1,
            participants: Vec::new(),
            senders: Vec::new(),
            host_id: None,
            locked_by: None,
            lock_seq: 0,
            everyone_can_generate: false,
            closing: false,
            deliveries: Ghost(Seq::empty()),
        }
    }

    /// Constant-time comparison of a presented hash with the host token hash.
    pub fn verify_host_token(&self, presented_hash: &[u8; 32]) -> (r: bool)
        ensures
            r == (self.host_token_hash@ == presented_hash@),
    {
        constant_time_eq(&self.host_token_hash, presented_hash)
    }

    /// Constant-time comparison of a presented hash with the guest token hash.
    pub fn verify_guest_token(&self, presented_hash: &[u8; 32]) -> (r: bool)
        ensures
            r == (self.guest_token_hash@ == presented_hash@),
    {
        constant_time_eq(&self.guest_token_hash, presented_hash)
    }

    pub fn count(&self) -> (n: usize)
        ensures
            n == self.participants@.len(),
    {
        self.participants.len()
    }

    /// Index of participant `id`, if connected.
    pub fn position(&self, id: u64) -> (r: Option<usize>)
        ensures
            match r {
                Some(i) => i < self.participants@.len() && self.participants@[i as int].id == id,
                None => forall|i: int|
                    0 <= i < self.participants@.len() ==> #[trigger] self.participants@[i].id != id,
            },
    {
        let mut i: usize = 0;
        while i < self.participants.len()
            invariant
                i <= self.participants@.len(),
                forall|j: int| 0 <= j < i ==> #[trigger] self.participants@[j].id != id,
            decreases self.participants@.len() - i,
        {
            if self.participants[i].id == id {
                return Some(i);
            }
            i = i + 1;
        }
        None
    }

    /// Queue a message for every participant except `except`, in join order.
    /// Returns, in that order, the participants whose queue refused it; the
    /// caller removes them.
    pub fn broadcast(&mut self, msg: &ServerMsg, except: Option<u64>) -> (dead: Vec<u64>)
        requires
            old(self).wf(),
        ensures
            final(self).same_state(*old(self)),
            log_extends(final(self).deliveries@, old(self).deliveries@),
            text_deliveries(
                log_since(final(self).deliveries@, old(self).deliveries@.len() as int),
                recipients(old(self).participants@, except),
                server_msg_json(*msg),
            ),
            dead@ == failed_ids(
                log_since(final(self).deliveries@, old(self).deliveries@.len() as int),
            ),
            sends_match(
                final(self).senders@,
                old(self).senders@,
                old(self).participants@,
                log_since(final(self).deliveries@, old(self).deliveries@.len() as int),
            ),
    {
        let json = msg.to_json();
        let mut dead: Vec<u64> = Vec::new();
        let ghost start = self.deliveries@;
        let ghost ps = self.participants@;
        let ghost ss = self.senders@;
        let ghost text = server_msg_json(*msg);
        let n = self.participants.len();
        assert(start.subrange(0, start.len() as int) =~= start);
        let mut i: usize = 0;
        while i < n
            invariant
                n == ps.len(),
                i <= n,
                json@ == text,
                old(self).wf(),
                self.same_state(*old(self)),
                self.participants@ == ps,
                ps == old(self).participants@,
                ss == old(self).senders@,
                self.senders@.len() == n,
                start == old(self).deliveries@,
                log_extends(self.deliveries@, start),
                text_deliveries(
                    log_since(self.deliveries@, start.len() as int),
                    recipients(ps.take(i as int), except),
                    text,
                ),
                dead@ == failed_ids(log_since(self.deliveries@, start.len() as int)),
                forall|j: int|
                    0 <= j < i ==> #[trigger] accepted(self.senders@[j]) == accepted(ss[j]) + queued_items(
                        log_since(self.deliveries@, start.len() as int),
                        ps[j].id,
                    ),
                forall|j: int| i <= j < n ==> #[trigger] self.senders@[j] == ss[j],
                forall|j: int, k: int|
                    i <= j < n && 0 <= k < log_since(self.deliveries@, start.len() as int).len()
                        ==> (#[trigger] log_since(self.deliveries@, start.len() as int)[k]).to != (
                    #[trigger] ps[j]).id,
            decreases n - i,
        {
            let ghost before = self.deliveries@;
            let ghost senders_before = self.senders@;
            let id = self.participants[i].id;
            proof {
                assert(ps.take(i + 1).drop_last() =~= ps.take(i as int));
                assert(ps.take(i + 1).last() == ps[i as int]);
                let seg = log_since(before, start.len() as int);
                assert forall|k: int| 0 <= k < seg.len() implies #[trigger] seg[k].to != id by {
                    assert(seg[k].to != ps[i as int].id);
                }
                lemma_queued_items_absent(seg, id);
            }
            let skip = match except {
                Some(e) => e == id,
                None => false,
            };
            if !skip {
                let item = Outbound::Msg(json.clone());
                let ghost sent = item;
                let queued = try_queue(&mut self.senders[i], item);
                self.deliveries = Ghost(
                    self.deliveries@.push(Delivery { to: id, item: sent, queued }),
                );
                proof {
                    let new = log_since(self.deliveries@, start.len() as int);
                    let old_new = log_since(before, start.len() as int);
                    assert(new.drop_last() =~= old_new);
                    assert(new.last() == Delivery { to: id, item: sent, queued });
                    assert(self.deliveries@.subrange(0, start.len() as int) =~= before.subrange(
                        0,
                        start.len() as int,
                    ));
                    let r = recipients(ps.take(i + 1), except);
                    assert(r == recipients(ps.take(i as int), except).push(id));
                    assert forall|j: int| 0 <= j < new.len() implies #[trigger] delivers_text(
                        new[j],
                        r[j],
                        text,
                    ) by {
                        if j < new.len() - 1 {
                            assert(new[j] == old_new[j]);
                        }
                    }
                    assert forall|j: int| 0 <= j < i + 1 implies #[trigger] accepted(self.senders@[j])
                        == accepted(ss[j]) + queued_items(new, ps[j].id) by {
                        if j < i {
                            assert(ps[j].id < ps[i as int].id);
                            assert(self.senders@[j] == senders_before[j]);
                        } else {
                            assert(queued_items(old_new, id) == Seq::<Outbound>::empty());
                            if queued {
                                assert(accepted(ss[j]).push(sent) =~= accepted(ss[j]) + seq![sent]);
                                assert(queued_items(new, id) =~= seq![sent]);
                            } else {
                                assert(accepted(ss[j]) =~= accepted(ss[j]) + Seq::<Outbound>::empty());
                            }
                        }
                    }
                    assert forall|j: int, k: int|
                        i + 1 <= j < n && 0 <= k < new.len() implies (#[trigger] new[k]).to != (
                        #[trigger] ps[j]).id by {
                        assert(ps[i as int].id < ps[j].id);
                        if k < new.len() - 1 {
                            assert(new[k] == old_new[k]);
                            assert(old_new[k].to != ps[j].id);
                        }
                    }
                }
                if !queued {
                    dead.push(id);
                }
            } else {
                proof {
                    assert(recipients(ps.take(i + 1), except) == recipients(
                        ps.take(i as int),
                        except,
                    ));
                    let seg = log_since(self.deliveries@, start.len() as int);
                    assert(accepted(ss[i as int]) =~= accepted(ss[i as int]) + queued_items(seg, id));
                }
            }
            i = i + 1;
        }
        proof {
            assert(ps.take(n as int) =~= ps);
        }
        dead
    }

    /// Queue a message to a single participant, if connected.
    pub fn send_to(&mut self, id: u64, msg: &ServerMsg)
        requires
            old(self).wf(),
        ensures
            final(self).same_state(*old(self)),
            log_extends(final(self).deliveries@, old(self).deliveries@),
            old(self).has(id) ==> {
                let new = log_since(final(self).deliveries@, old(self).deliveries@.len() as int);
                &&& new.len() == 1
                &&& delivers_text(new[0], id, server_msg_json(*msg))
            },
            !old(self).has(id) ==> final(self).deliveries@ == old(self).deliveries@,
            sends_match(
                final(self).senders@,
                old(self).senders@,
                old(self).participants@,
                log_since(final(self).deliveries@, old(self).deliveries@.len() as int),
            ),
    {
        let ghost ss = self.senders@;
        let ghost ps = self.participants@;
        match self.position(id) {
            Some(i) => {
                let json = msg.to_json();
                let item = Outbound::Msg(json);
                let ghost sent = item;
                let queued = try_queue(&mut self.senders[i], item);
                let ghost before = self.deliveries@;
                self.deliveries = Ghost(
                    self.deliveries@.push(Delivery { to: id, item: sent, queued }),
                );
                proof {
                    assert(self.deliveries@.subrange(0, before.len() as int) =~= before);
                    let new = log_since(self.deliveries@, before.len() as int);
                    assert(new[0] == self.deliveries@.last());
                    assert(new.drop_last() =~= Seq::<Delivery>::empty());
                    assert(new.last() == Delivery { to: id, item: sent, queued });
                    assert(new.len() == 1);
                    assert forall|x: u64| #[trigger] queued_items(new.drop_last(), x) =~= Seq::<Outbound>::empty() by {}
                    assert(queued_items(new, id) == if queued {
                        queued_items(new.drop_last(), id).push(sent)
                    } else {
                        queued_items(new.drop_last(), id)
                    });
                    assert forall|j: int| 0 <= j < ss.len() implies #[trigger] accepted(self.senders@[j])
                        == accepted(ss[j]) + queued_items(new, ps[j].id) by {
                        if j == i {
                            if queued {
                                assert(accepted(ss[j]).push(sent) =~= accepted(ss[j]) + seq![sent]);
                                assert(queued_items(new, id) =~= seq![sent]);
                            } else {
                                assert(accepted(ss[j]) =~= accepted(ss[j]) + Seq::<Outbound>::empty());
                            }
                        } else {
                            if j < i {
                                assert(ps[j].id < ps[i as int].id);
                            } else {
                                assert(ps[i as int].id < ps[j].id);
                            }
                            assert(queued_items(new.drop_last(), ps[j].id) =~= Seq::<Outbound>::empty());
                            assert(queued_items(new, ps[j].id) =~= Seq::<Outbound>::empty());
                            assert(self.senders@[j] == ss[j]);
                            assert(accepted(ss[j]) =~= accepted(ss[j]) + Seq::<Outbound>::empty());
                        }
                    }
                }
            },
            None => {
                proof {
                    assert(self.deliveries@.subrange(0, self.deliveries@.len() as int)
                        =~= self.deliveries@);
                    let new = log_since(self.deliveries@, self.deliveries@.len() as int);
                    assert forall|j: int| 0 <= j < ss.len() implies #[trigger] accepted(self.senders@[j])
                        == accepted(ss[j]) + queued_items(new, ps[j].id) by {
                        assert(accepted(ss[j]) =~= accepted(ss[j]) + Seq::<Outbound>::empty());
                    }
                }
            },
        }
    }
}

impl Room {
    /// Everything but the participants and the delivery log is as in `other`.
    /// The same as `other` in everything but the participants, the delivery
    /// log and the generation lock.
    pub open spec fn same_fixed(&self, other: Room) -> bool {
        &&& self.host_token_hash == other.host_token_hash
        &&& self.guest_token_hash == other.guest_token_hash
        &&& self.created_at == other.created_at
        &&& self.next_id == other.next_id
        &&& self.host_id == other.host_id
        &&& self.everyone_can_generate == other.everyone_can_generate
        &&& self.closing == other.closing
    }

    pub open spec fn same_settings(&self, other: Room) -> bool {
        &&& self.host_token_hash == other.host_token_hash
        &&& self.guest_token_hash == other.guest_token_hash
        &&& self.created_at == other.created_at
        &&& self.next_id == other.next_id
        &&& self.host_id == other.host_id
        &&& self.locked_by == other.locked_by
        &&& self.lock_seq == other.lock_seq
        &&& self.everyone_can_generate == other.everyone_can_generate
        &&& self.closing == other.closing
    }

    /// Takes the participant at `idx` out of the room.
    pub fn remove_at(&mut self, idx: usize) -> (out: (Participant, Sender<Outbound>))
        requires
            old(self).wf(),
            idx < old(self).participants@.len(),
        ensures
            final(self).wf(),
            final(self).same_settings(*old(self)),
            final(self).deliveries@ == old(self).deliveries@,
            out.0 == old(self).participants@[idx as int],
            out.1 == old(self).senders@[idx as int],
            final(self).senders@ == old(self).senders@.remove(idx as int),
            final(self).participants@ == old(self).participants@.remove(idx as int),
            forall|x: u64| #[trigger] final(self).has(x) <==> (old(self).has(x) && x != out.0.id),
    {
        let ghost ps = self.participants@;
        let p = self.participants.remove(idx);
        let tx = self.senders.remove(idx);
        proof {
            let qs = self.participants@;
            assert forall|x: u64| #[trigger] self.has(x) <==> (has_id(ps, x) && x != p.id) by {
                if self.has(x) {
                    let k = choose|k: int| 0 <= k < qs.len() && #[trigger] qs[k].id == x;
                    if k < idx {
                        assert(ps[k] == qs[k]);
                    } else {
                        assert(ps[k + 1] == qs[k]);
                    }
                }
                if has_id(ps, x) && x != p.id {
                    let k = choose|k: int| 0 <= k < ps.len() && #[trigger] ps[k].id == x;
                    if k < idx {
                        assert(qs[k] == ps[k]);
                    } else {
                        assert(k != idx);
                        assert(qs[k - 1] == ps[k]);
                    }
                }
            }
            assert forall|i: int, j: int| 0 <= i < j < qs.len() implies qs[i].id < qs[j].id by {
                let ii = if i < idx { i } else { i + 1 };
                let jj = if j < idx { j } else { j + 1 };
                assert(qs[i] == ps[ii]);
                assert(qs[j] == ps[jj]);
            }
            assert forall|i: int| 0 <= i < qs.len() implies 1 <= #[trigger] qs[i].id < self.next_id by {
                let ii = if i < idx { i } else { i + 1 };
                assert(qs[i] == ps[ii]);
            }
            assert forall|i: int| 0 <= i < qs.len() && #[trigger] qs[i].is_host implies self.host_id
                == Some(qs[i].id) by {
                let ii = if i < idx { i } else { i + 1 };
                assert(qs[i] == ps[ii]);
            }
        }
        (p, tx)
    }

    /// Queues a close frame with `code` on `tx`, the queue of participant
    /// `id` who has just been taken out of the room, and logs the attempt.
    pub fn close_for(&mut self, id: u64, tx: &mut Sender<Outbound>, code: u16)
        ensures
            final(self).same_state(*old(self)),
            final(self).senders@ == old(self).senders@,
            final(self).deliveries@ == old(self).deliveries@.push(
                Delivery { to: id, item: Outbound::Close(code), queued: final(self).deliveries@.last().queued },
            ),
            accepted(*final(tx)) == accepted(*old(tx)) + queued_items(
                log_since(final(self).deliveries@, old(self).deliveries@.len() as int),
                id,
            ),
    {
        let queued = try_queue(tx, Outbound::Close(code));
        let ghost before = self.deliveries@;
        self.deliveries = Ghost(
            self.deliveries@.push(Delivery { to: id, item: Outbound::Close(code), queued }),
        );
        proof {
            let new = log_since(self.deliveries@, before.len() as int);
            assert(new.drop_last() =~= Seq::<Delivery>::empty());
            assert(new.last() == self.deliveries@.last());
            assert(queued_items(new.drop_last(), id) =~= Seq::<Outbound>::empty());
            if queued {
                assert(accepted(*old(tx)).push(Outbound::Close(code)) =~= accepted(*old(tx)) + seq![Outbound::Close(code)]);
                assert(queued_items(new, id) =~= seq![Outbound::Close(code)]);
            } else {
                assert(accepted(*old(tx)) =~= accepted(*old(tx)) + Seq::<Outbound>::empty());
            }
        }
    }

    /// Tells every participant why the room ends, queues a close frame with
    /// `code` for each, and lets go of all of them. The ghost result holds
    /// their queues as they were let go.
    pub fn close(&mut self, reason: &'static str, code: u16) -> (sent: Ghost<Seq<Sender<Outbound>>>)
        requires
            old(self).wf(),
        ensures
            final(self).participants@.len() == 0,
            final(self).senders@.len() == 0,
            final(self).closing,
            final(self).host_token_hash == old(self).host_token_hash,
            final(self).guest_token_hash == old(self).guest_token_hash,
            final(self).created_at == old(self).created_at,
            final(self).next_id == old(self).next_id,
            final(self).host_id == old(self).host_id,
            final(self).locked_by == old(self).locked_by,
            final(self).lock_seq == old(self).lock_seq,
            final(self).everyone_can_generate == old(self).everyone_can_generate,
            log_extends(final(self).deliveries@, old(self).deliveries@),
            closing_deliveries(
                log_since(final(self).deliveries@, old(self).deliveries@.len() as int),
                ids(old(self).participants@),
                server_msg_json(ServerMsg::RoomClosed { reason }),
                code,
            ),
            sends_match(
                sent@,
                old(self).senders@,
                old(self).participants@,
                log_since(final(self).deliveries@, old(self).deliveries@.len() as int),
            ),
    {
        self.closing = true;
        let msg = ServerMsg::RoomClosed { reason };
        let json = msg.to_json();
        let ghost text = server_msg_json(msg);
        let ghost start = self.deliveries@;
        let ghost ps = self.participants@;
        let ghost ss = self.senders@;
        assert(start.subrange(0, start.len() as int) =~= start);
        let n = self.participants.len();
        let mut i: usize = 0;
        while i < n
            invariant
                n == ps.len(),
                i <= n,
                json@ == text,
                old(self).wf(),
                self.participants@ == ps,
                ps == old(self).participants@,
                ss == old(self).senders@,
                self.senders@.len() == n,
                start == old(self).deliveries@,
                self.closing,
                self.host_token_hash == old(self).host_token_hash,
                self.guest_token_hash == old(self).guest_token_hash,
                self.created_at == old(self).created_at,
                self.next_id == old(self).next_id,
                self.host_id == old(self).host_id,
                self.locked_by == old(self).locked_by,
                self.lock_seq == old(self).lock_seq,
                self.everyone_can_generate == old(self).everyone_can_generate,
                log_extends(self.deliveries@, start),
                closing_deliveries(
                    log_since(self.deliveries@, start.len() as int),
                    ids(ps.take(i as int)),
                    text,
                    code,
                ),
                forall|j: int|
                    0 <= j < i ==> #[trigger] accepted(self.senders@[j]) == accepted(ss[j]) + queued_items(
                        log_since(self.deliveries@, start.len() as int),
                        ps[j].id,
                    ),
                forall|j: int| i <= j < n ==> #[trigger] self.senders@[j] == ss[j],
                forall|j: int, k: int|
                    i <= j < n && 0 <= k < log_since(self.deliveries@, start.len() as int).len()
                        ==> (#[trigger] log_since(self.deliveries@, start.len() as int)[k]).to != (
                    #[trigger] ps[j]).id,
            decreases n - i,
        {
            let ghost before = self.deliveries@;
            let ghost senders_before = self.senders@;
            let id = self.participants[i].id;
            proof {
                let seg = log_since(before, start.len() as int);
                assert forall|k: int| 0 <= k < seg.len() implies #[trigger] seg[k].to != id by {
                    assert(seg[k].to != ps[i as int].id);
                }
                lemma_queued_items_absent(seg, id);
            }
            let m = Outbound::Msg(json.clone());
            let ghost gm = m;
            let q1 = try_queue(&mut self.senders[i], m);
            self.deliveries = Ghost(
                self.deliveries@.push(Delivery { to: id, item: gm, queued: q1 }),
            );
            let ghost mid = self.deliveries@;
            let q2 = try_queue(&mut self.senders[i], Outbound::Close(code));
            self.deliveries = Ghost(
                self.deliveries@.push(Delivery { to: id, item: Outbound::Close(code), queued: q2 }),
            );
            proof {
                let new = log_since(self.deliveries@, start.len() as int);
                let old_new = log_since(before, start.len() as int);
                let mid_new = log_since(mid, start.len() as int);
                assert(new.len() == old_new.len() + 2);
                assert(new.drop_last() =~= mid_new);
                assert(mid_new.drop_last() =~= old_new);
                assert forall|k: int| 0 <= k < old_new.len() implies new[k] == old_new[k] by {}
                assert(self.deliveries@.subrange(0, start.len() as int) =~= before.subrange(
                    0,
                    start.len() as int,
                ));
                let to = ids(ps.take(i + 1));
                assert(to =~= ids(ps.take(i as int)).push(id));
                assert forall|j: int| 0 <= j < to.len() implies delivers_text(
                    new[2 * j],
                    #[trigger] to[j],
                    text,
                ) && delivers_close(new[2 * j + 1], to[j], code) by {
                    if j < to.len() - 1 {
                        assert(to[j] == ids(ps.take(i as int))[j]);
                    }
                }
                let e = Seq::<Outbound>::empty();
                let a0 = accepted(ss[i as int]);
                let qm = queued_items(mid_new, id);
                assert(qm == if q1 { e.push(gm) } else { e });
                assert(queued_items(new, id) == if q2 { qm.push(Outbound::Close(code)) } else { qm });
                assert(accepted(self.senders@[i as int]) =~= a0 + queued_items(new, id));
                assert forall|j: int| 0 <= j < i + 1 implies #[trigger] accepted(self.senders@[j])
                    == accepted(ss[j]) + queued_items(new, ps[j].id) by {
                    if j < i {
                        assert(ps[j].id < ps[i as int].id);
                        assert(self.senders@[j] == senders_before[j]);
                        assert(queued_items(mid_new, ps[j].id) == queued_items(old_new, ps[j].id));
                    }
                }
                assert forall|j: int, k: int|
                    i + 1 <= j < n && 0 <= k < new.len() implies (#[trigger] new[k]).to != (
                    #[trigger] ps[j]).id by {
                    assert(ps[i as int].id < ps[j].id);
                    if k < old_new.len() {
                        assert(old_new[k].to != ps[j].id);
                    }
                }
            }
            i = i + 1;
        }
        assert(ps.take(n as int) =~= ps);
        let ghost sent = self.senders@;
        self.participants = Vec::new();
        self.senders = Vec::new();
        Ghost(sent)
    }
}

/// Every id that `failed_ids` reports had a refused attempt.
pub proof fn lemma_failed_ids_refused(ds: Seq<Delivery>, x: u64)
    requires
        failed_ids(ds).contains(x),
    ensures
        exists|k: int| 0 <= k < ds.len() && #[trigger] ds[k].to == x && !ds[k].queued,
    decreases ds.len(),
{
    let p = ds.drop_last();
    let r = failed_ids(p);
    if !ds.last().queued && x == ds.last().to {
        assert(ds[ds.len() - 1].to == x);
    } else {
        if ds.last().queued {
            assert(failed_ids(ds) == r);
        } else {
            let k = choose|k: int| 0 <= k < failed_ids(ds).len() && failed_ids(ds)[k] == x;
            assert(failed_ids(ds) == r.push(ds.last().to));
            assert(k < r.len());
            assert(r.contains(x));
        }
        lemma_failed_ids_refused(p, x);
        let k = choose|k: int| 0 <= k < p.len() && #[trigger] p[k].to == x && !p[k].queued;
        assert(ds[k] == p[k]);
    }
}

/// Every refused attempt is reported by `failed_ids`.
pub proof fn lemma_refused_in_failed_ids(ds: Seq<Delivery>, k: int)
    requires
        0 <= k < ds.len(),
        !ds[k].queued,
    ensures
        failed_ids(ds).contains(ds[k].to),
    decreases ds.len(),
{
    let p = ds.drop_last();
    let r = failed_ids(p);
    if k == ds.len() - 1 {
        assert(failed_ids(ds) == r.push(ds.last().to));
        assert(failed_ids(ds)[r.len() as int] == ds[k].to);
    } else {
        assert(p[k] == ds[k]);
        lemma_refused_in_failed_ids(p, k);
        let j = choose|j: int| 0 <= j < r.len() && r[j] == ds[k].to;
        if ds.last().queued {
            assert(failed_ids(ds) == r);
        } else {
            assert(failed_ids(ds) == r.push(ds.last().to));
            assert(failed_ids(ds)[j] == r[j]);
        }
    }
}

/// A refused attempt stays in a log that only grows.
pub proof fn lemma_refused_since_extends(old_log: Seq<Delivery>, new_log: Seq<Delivery>, from: int, x: u64)
    requires
        0 <= from,
        log_extends(new_log, old_log),
        refused_since(old_log, from, x),
    ensures
        refused_since(new_log, from, x),
{
    let k = choose|k: int| from <= k < old_log.len() && #[trigger] old_log[k].to == x && !old_log[k].queued;
    assert(new_log.subrange(0, old_log.len() as int)[k] == new_log[k]);
    assert(new_log[k].to == x);
}

/// An attempted close frame stays in a log that only grows.
pub proof fn lemma_closed_since_extends(
    old_log: Seq<Delivery>,
    new_log: Seq<Delivery>,
    from: int,
    x: u64,
    code: u16,
)
    requires
        0 <= from,
        log_extends(new_log, old_log),
        closed_since(old_log, from, x, code),
    ensures
        closed_since(new_log, from, x, code),
{
    let k = choose|k: int| from <= k < old_log.len() && #[trigger] delivers_close(old_log[k], x, code);
    assert(new_log.subrange(0, old_log.len() as int)[k] == new_log[k]);
    assert(delivers_close(new_log[k], x, code));
}

/// Extension of logs is transitive.
pub proof fn lemma_log_extends_trans(a: Seq<Delivery>, b: Seq<Delivery>, c: Seq<Delivery>)
    requires
        log_extends(b, a),
        log_extends(c, b),
    ensures
        log_extends(c, a),
{
    assert(c.subrange(0, a.len() as int) =~= b.subrange(0, a.len() as int));
}

} // verus!
