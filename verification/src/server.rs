//! Server-wide state: the room table, the configuration, and the counters
//! that cap connections and room creation per client address.
use vstd::prelude::*;

use std::collections::HashMap;

use crate::config::Config;
use crate::state::Room;

verus! {

broadcast use vstd::std_specs::hash::group_hash_axioms;

/// A client address, as the key under which its abuse counters are kept.
#[derive(Clone, Copy, PartialEq, Eq, Structural, Debug, Hash)]
pub enum IpKey {
    V4(u32),
    V6(u128),
}

/// Per-address counters: open connections, and room creations in the
/// current rate window.
#[derive(Clone, Copy)]
pub struct IpAbuseState {
    pub connections: usize,
    /// Monotonic clock reading (nanoseconds) at which the window started.
    pub room_window_started: Option<u64>,
    pub room_creates: u32,
}

/// The counters of a client that has none recorded yet.
pub open spec fn fresh_abuse_state() -> IpAbuseState {
    IpAbuseState { connections: 0, room_window_started: None, room_creates: 0 }
}

/// The counters kept for addresses, one table per address family.
pub struct AbuseTable {
    v4: HashMap<u32, IpAbuseState>,
    v6: HashMap<u128, IpAbuseState>,
}

impl View for AbuseTable {
    type V = Map<IpKey, IpAbuseState>;

    closed spec fn view(&self) -> Map<IpKey, IpAbuseState> {
        Map::new(
            |k: IpKey|
                match k {
                    IpKey::V4(a) => self.v4@.contains_key(a),
                    IpKey::V6(b) => self.v6@.contains_key(b),
                },
            |k: IpKey|
                match k {
                    IpKey::V4(a) => self.v4@[a],
                    IpKey::V6(b) => self.v6@[b],
                },
        )
    }
}

/// The counters recorded for `ip`, or fresh ones.
pub open spec fn counters_of(t: Map<IpKey, IpAbuseState>, ip: IpKey) -> IpAbuseState {
    if t.contains_key(ip) {
        t[ip]
    } else {
        fresh_abuse_state()
    }
}

impl AbuseTable {
    pub fn new() -> (t: Self)
        ensures
            t@ == Map::<IpKey, IpAbuseState>::empty(),
    {
        let t = AbuseTable { v4: HashMap::new(), v6: HashMap::new() };
        assert(t@ =~= Map::<IpKey, IpAbuseState>::empty());
        t
    }

    pub fn get(&self, ip: IpKey) -> (r: Option<IpAbuseState>)
        ensures
            r == (if self@.contains_key(ip) {
                Some(self@[ip])
            } else {
                None
            }),
    {
        match ip {
            IpKey::V4(a) => match self.v4.get(&a) {
                Some(s) => Some(*s),
                None => None,
            },
            IpKey::V6(b) => match self.v6.get(&b) {
                Some(s) => Some(*s),
                None => None,
            },
        }
    }

    pub fn set(&mut self, ip: IpKey, s: IpAbuseState)
        ensures
            final(self)@ == old(self)@.insert(ip, s),
    {
        match ip {
            IpKey::V4(a) => {
                self.v4.insert(a, s);
            },
            IpKey::V6(b) => {
                self.v6.insert(b, s);
            },
        }
        assert(self@ =~= old(self)@.insert(ip, s));
    }

    pub fn remove(&mut self, ip: IpKey)
        ensures
            final(self)@ == old(self)@.remove(ip),
    {
        match ip {
            IpKey::V4(a) => {
                self.v4.remove(&a);
            },
            IpKey::V6(b) => {
                self.v6.remove(&b);
            },
        }
        assert(self@ =~= old(self)@.remove(ip));
    }
}

/// Nanoseconds from `start` to `now`, zero if `now` is earlier.
pub open spec fn elapsed_ns(start: u64, now: u64) -> nat {
    if now >= start {
        (now - start) as nat
    } else {
        0
    }
}

/// `secs` seconds in nanoseconds.
pub open spec fn secs_ns(secs: u64) -> nat {
    secs as nat * 1_000_000_000
}

/// At least `secs` seconds have passed from `start` to `now`.
pub fn elapsed_at_least(start: u64, now: u64, secs: u64) -> (r: bool)
    ensures
        r == (elapsed_ns(start, now) >= secs_ns(secs)),
{
    let e: u128 = if now >= start {
        (now - start) as u128
    } else {
        0
    };
    e >= (secs as u128) * 1_000_000_000
}

/// More than `secs` seconds have passed from `start` to `now`.
pub fn elapsed_more_than(start: u64, now: u64, secs: u64) -> (r: bool)
    ensures
        r == (elapsed_ns(start, now) > secs_ns(secs)),
{
    let e: u128 = if now >= start {
        (now - start) as u128
    } else {
        0
    };
    e > (secs as u128) * 1_000_000_000
}

/// The room-creation window is over (or was never started).
pub open spec fn window_over(s: IpAbuseState, now: u64, window: u64) -> bool {
    match s.room_window_started {
        Some(start) => elapsed_ns(start, now) >= secs_ns(window),
        None => true,
    }
}

/// The counters after starting a new room-creation window where the old one
/// is over.
pub open spec fn in_current_window(s: IpAbuseState, now: u64, window: u64) -> IpAbuseState {
    if window_over(s, now, window) {
        IpAbuseState { room_window_started: Some(now), room_creates: 0, ..s }
    } else {
        s
    }
}

/// Proof that a connection was admitted; hand it back when it ends.
pub struct ConnectionPermit {
    ip: IpKey,
}

impl ConnectionPermit {
    /// The address the connection was admitted for.
    pub closed spec fn spec_ip(&self) -> IpKey {
        self.ip
    }
}

pub struct AppState {
    /// Rooms by the key of their room code.
    pub rooms: HashMap<u64, Room>,
    pub cfg: Config,
    pub active_connections: usize,
    pub abuse_by_ip: AbuseTable,
    /// Every room closed so far, with its key, as it was once closed.
    pub closed: Ghost<Seq<(u64, Room)>>,
}

impl AppState {
    /// Number of admitted connections.
    pub open spec fn active(&self) -> nat {
        self.active_connections as nat
    }

    /// The per-address counters.
    pub open spec fn abuse(&self) -> Map<IpKey, IpAbuseState> {
        self.abuse_by_ip@
    }

    /// What every room in the table keeps: its structure, a present host
    /// where one is recorded, not closing, and within the participant limit;
    /// and the table within the room limit.
    pub open spec fn wf(&self) -> bool {
        &&& self.rooms@.len() <= self.cfg.max_rooms
        &&& forall|k: u64| #[trigger] self.rooms@.contains_key(k) ==> room_ok(self.rooms@[k], self.cfg.max_participants_per_room as nat)
    }

    pub fn new(cfg: Config) -> (s: Self)
        ensures
            s.rooms@ == Map::<u64, Room>::empty(),
            s.cfg == cfg,
            s.active() == 0,
            s.abuse() == Map::<IpKey, IpAbuseState>::empty(),
            s.closed@.len() == 0,
            s.wf(),
    {
        AppState {
            rooms: HashMap::new(),
            cfg,
            active_connections: 0,
            abuse_by_ip: AbuseTable::new(),
            closed: Ghost(Seq::empty()),
        }
    }

    /// Admits a connection from `ip` unless the server-wide or per-address
    /// connection limit is reached. The address gets counters either way,
    /// once the server-wide limit is not the reason for refusal.
    pub fn try_open_connection(&mut self, ip: IpKey) -> (r: Option<ConnectionPermit>)
        ensures
            final(self).rooms == old(self).rooms,
            final(self).cfg == old(self).cfg,
            final(self).closed == old(self).closed,
            opened(*old(self), *final(self), ip, r is Some),
            r matches Some(p) ==> p.spec_ip() == ip,
    {
        if self.active_connections >= self.cfg.max_connections {
            return None;
        }
        let mut entry = match self.abuse_by_ip.get(ip) {
            Some(s) => s,
            None => IpAbuseState { connections: 0, room_window_started: None, room_creates: 0 },
        };
        if entry.connections >= self.cfg.max_connections_per_ip {
            self.abuse_by_ip.set(ip, entry);
            return None;
        }
        entry.connections = entry.connections + 1;
        self.abuse_by_ip.set(ip, entry);
        self.active_connections = self.active_connections + 1;
        Some(ConnectionPermit { ip })
    }

    /// Lets the connection behind `permit` go: the server-wide count drops by
    /// one (not below zero), and so does the address's; the address's counters
    /// are forgotten once it has no connection and its creation window is
    /// over.
    pub fn release_connection(&mut self, permit: ConnectionPermit, now: u64)
        ensures
            final(self).rooms == old(self).rooms,
            final(self).cfg == old(self).cfg,
            final(self).closed == old(self).closed,
            released(*old(self), *final(self), permit.spec_ip(), now),
    {
        self.active_connections = self.active_connections.saturating_sub(1);
        let ip = permit.ip;
        if let Some(mut entry) = self.abuse_by_ip.get(ip) {
            entry.connections = entry.connections.saturating_sub(1);
            let over = match entry.room_window_started {
                Some(start) => elapsed_at_least(start, now, self.cfg.rate_window),
                None => true,
            };
            if entry.connections == 0 && over {
                self.abuse_by_ip.remove(ip);
            } else {
                self.abuse_by_ip.set(ip, entry);
            }
        }
    }

    /// Counts a room creation by `ip` against its allowance for the current
    /// window, starting a new window where the old one is over; refuses once
    /// the allowance is used up.
    pub fn allow_room_create(&mut self, ip: IpKey, now: u64) -> (r: bool)
        ensures
            final(self).rooms == old(self).rooms,
            final(self).cfg == old(self).cfg,
            final(self).closed == old(self).closed,
            final(self).active() == old(self).active(),
            creation_counted(old(self).abuse(), final(self).abuse(), ip, now, old(self).cfg, r),
    {
        let mut entry = match self.abuse_by_ip.get(ip) {
            Some(s) => s,
            None => IpAbuseState { connections: 0, room_window_started: None, room_creates: 0 },
        };
        let expired = match entry.room_window_started {
            Some(start) => elapsed_at_least(start, now, self.cfg.rate_window),
            None => true,
        };
        if expired {
            entry.room_window_started = Some(now);
            entry.room_creates = 0;
        }
        if entry.room_creates >= self.cfg.room_creates_per_window {
            self.abuse_by_ip.set(ip, entry);
            return false;
        }
        entry.room_creates = entry.room_creates + 1;
        self.abuse_by_ip.set(ip, entry);
        true
    }
}

/// What a room in the table keeps when at most `max_participants` may be in
/// a room.
pub open spec fn room_ok(r: Room, max_participants: nat) -> bool {
    &&& r.wf()
    &&& r.host_present()
    &&& !r.closing
    &&& r.participants@.len() <= max_participants
}

/// `new` is `old` after a connection attempt from `ip`, `granted` or not:
/// refused outright at the server-wide limit; else counted against the
/// address, refused at the per-address limit (the address keeps its
/// counters, created fresh if needed).
pub open spec fn opened(old: AppState, new: AppState, ip: IpKey, granted: bool) -> bool {
    &&& new.rooms == old.rooms
    &&& new.cfg == old.cfg
    &&& if old.active() >= old.cfg.max_connections {
        &&& !granted
        &&& new.active() == old.active()
        &&& new.abuse() == old.abuse()
    } else {
        let c = counters_of(old.abuse(), ip);
        if c.connections < old.cfg.max_connections_per_ip {
            &&& granted
            &&& new.active() == old.active() + 1
            &&& new.abuse() == old.abuse().insert(
                ip,
                IpAbuseState { connections: (c.connections + 1) as usize, ..c },
            )
        } else {
            &&& !granted
            &&& new.active() == old.active()
            &&& new.abuse() == old.abuse().insert(ip, c)
        }
    }
}

/// `new` is `old` after a connection from `ip` ended at `now`: both counts
/// drop by one (not below zero), and the address's counters are forgotten
/// once it has no connection left and its creation window is over.
pub open spec fn released(old: AppState, new: AppState, ip: IpKey, now: u64) -> bool {
    &&& new.rooms == old.rooms
    &&& new.cfg == old.cfg
    &&& new.active() == if old.active() > 0 {
        old.active() - 1
    } else {
        0
    }
    &&& ({
        let t = old.abuse();
        if t.contains_key(ip) {
            let c = t[ip];
            let n = if c.connections > 0 {
                (c.connections - 1) as usize
            } else {
                0usize
            };
            let c2 = IpAbuseState { connections: n, ..c };
            if n == 0 && window_over(c2, now, old.cfg.rate_window) {
                new.abuse() == t.remove(ip)
            } else {
                new.abuse() == t.insert(ip, c2)
            }
        } else {
            new.abuse() == t
        }
    })
}

/// `new` is the counter table `old` after a room creation by `ip` at `now`
/// was counted (`allowed`) or refused: the window restarts where it is
/// over, and a creation is allowed while fewer than the allowance were made
/// in the window.
pub open spec fn creation_counted(
    old: Map<IpKey, IpAbuseState>,
    new: Map<IpKey, IpAbuseState>,
    ip: IpKey,
    now: u64,
    cfg: Config,
    allowed: bool,
) -> bool {
    let c = in_current_window(counters_of(old, ip), now, cfg.rate_window);
    &&& allowed == (c.room_creates < cfg.room_creates_per_window)
    &&& new == old.insert(
        ip,
        if allowed {
            IpAbuseState { room_creates: (c.room_creates + 1) as u32, ..c }
        } else {
            c
        },
    )
}

} // verus!
