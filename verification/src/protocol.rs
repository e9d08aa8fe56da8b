//! Wire protocol between client and relay server.
//!
//! Everything here is metadata only. Message content travels exclusively in
//! `Relay.p` as an opaque, client-side-encrypted string that the server never
//! inspects; it is copied into the outgoing frame with JSON escaping only.
use vstd::prelude::*;

use crate::json::{
    decimal, json_bool, json_opt_u64, json_string, push_bool, push_decimal, push_json_string,
    push_opt_u64, push_text,
};

verus! {

/// Messages the client sends to the server (JSON text frames, tagged by `t`).
pub enum ClientMsg {
    /// Must be the first frame after the WebSocket upgrade. `host_token` is
    /// the authorization secret that the server verifies; `guest_token` is the
    /// admission token for guests.
    Hello { host_token: Option<String>, guest_token: Option<String> },
    /// Opaque encrypted payload, relayed verbatim to all other participants.
    Relay { p: String },
    /// Request the generation lock.
    GenStart,
    /// Release the generation lock (host only).
    GenEnd,
    /// Change who may trigger generation (host only).
    Policy { everyone: bool },
}

/// Messages the server sends to clients.
pub enum ServerMsg {
    Welcome {
        you: u64,
        role: &'static str,
        count: usize,
        locked_by: Option<u64>,
        everyone_can_generate: bool,
    },
    Joined { id: u64, count: usize },
    Left { id: u64, count: usize },
    Relay { from: u64, p: String },
    Locked { by: u64 },
    Unlocked,
    Policy { everyone: bool },
    /// Terminal event: the room is gone. Sent right before the server closes
    /// every remaining connection.
    RoomClosed { reason: &'static str },
    Error { code: &'static str },
}

/// WebSocket close code: the host left.
pub const HOST_LEFT: u16 = 4001;
/// WebSocket close code: idle timeout, or room expired.
pub const IDLE_TIMEOUT: u16 = 4008;
/// WebSocket close code: wrong host or guest token.
pub const BAD_HOST_TOKEN: u16 = 4403;
/// WebSocket close code: no such room.
pub const ROOM_NOT_FOUND: u16 = 4404;
/// WebSocket close code: the room already has a connected host.
pub const HOST_ALREADY_CONNECTED: u16 = 4409;
/// WebSocket close code: malformed or missing `hello`.
pub const PROTOCOL_ERROR: u16 = 4400;
/// WebSocket close code: the participant's outbound queue overflowed.
pub const SLOW_CONSUMER: u16 = 4413;
/// WebSocket close code: the room is full.
pub const ROOM_FULL: u16 = 4429;

/// The JSON object of a server message: the tag `t` in snake case first, then
/// the fields in declaration order.
pub open spec fn server_msg_json(m: ServerMsg) -> Seq<char> {
    match m {
        ServerMsg::Welcome { you, role, count, locked_by, everyone_can_generate } =>
            "{\"t\":\"welcome\",\"you\":"@ + decimal(you as nat) + ",\"role\":"@
                + json_string(role@) + ",\"count\":"@ + decimal(count as nat)
                + ",\"locked_by\":"@ + json_opt_u64(locked_by)
                + ",\"everyone_can_generate\":"@ + json_bool(everyone_can_generate) + "}"@,
        ServerMsg::Joined { id, count } =>
            "{\"t\":\"joined\",\"id\":"@ + decimal(id as nat) + ",\"count\":"@
                + decimal(count as nat) + "}"@,
        ServerMsg::Left { id, count } =>
            "{\"t\":\"left\",\"id\":"@ + decimal(id as nat) + ",\"count\":"@
                + decimal(count as nat) + "}"@,
        ServerMsg::Relay { from, p } =>
            "{\"t\":\"relay\",\"from\":"@ + decimal(from as nat) + ",\"p\":"@ + json_string(p@)
                + "}"@,
        ServerMsg::Locked { by } => "{\"t\":\"locked\",\"by\":"@ + decimal(by as nat) + "}"@,
        ServerMsg::Unlocked => "{\"t\":\"unlocked\"}"@,
        ServerMsg::Policy { everyone } =>
            "{\"t\":\"policy\",\"everyone\":"@ + json_bool(everyone) + "}"@,
        ServerMsg::RoomClosed { reason } =>
            "{\"t\":\"room_closed\",\"reason\":"@ + json_string(reason@) + "}"@,
        ServerMsg::Error { code } => "{\"t\":\"error\",\"code\":"@ + json_string(code@) + "}"@,
    }
}

impl ServerMsg {
    /// The message as one JSON text frame.
    pub fn to_json(&self) -> (s: String)
        ensures
            s@ == server_msg_json(*self),
    {
        let mut out = String::new();
        match self {
            ServerMsg::Welcome { you, role, count, locked_by, everyone_can_generate } => {
                push_text(&mut out, "{\"t\":\"welcome\",\"you\":");
                push_decimal(&mut out, *you);
                push_text(&mut out, ",\"role\":");
                push_json_string(&mut out, role);
                push_text(&mut out, ",\"count\":");
                push_decimal(&mut out, *count as u64);
                push_text(&mut out, ",\"locked_by\":");
                push_opt_u64(&mut out, *locked_by);
                push_text(&mut out, ",\"everyone_can_generate\":");
                push_bool(&mut out, *everyone_can_generate);
                push_text(&mut out, "}");
            },
            ServerMsg::Joined { id, count } => {
                push_text(&mut out, "{\"t\":\"joined\",\"id\":");
                push_decimal(&mut out, *id);
                push_text(&mut out, ",\"count\":");
                push_decimal(&mut out, *count as u64);
                push_text(&mut out, "}");
            },
            ServerMsg::Left { id, count } => {
                push_text(&mut out, "{\"t\":\"left\",\"id\":");
                push_decimal(&mut out, *id);
                push_text(&mut out, ",\"count\":");
                push_decimal(&mut out, *count as u64);
                push_text(&mut out, "}");
            },
            ServerMsg::Relay { from, p } => {
                push_text(&mut out, "{\"t\":\"relay\",\"from\":");
                push_decimal(&mut out, *from);
                push_text(&mut out, ",\"p\":");
                push_json_string(&mut out, p.as_str());
                push_text(&mut out, "}");
            },
            ServerMsg::Locked { by } => {
                push_text(&mut out, "{\"t\":\"locked\",\"by\":");
                push_decimal(&mut out, *by);
                push_text(&mut out, "}");
            },
            ServerMsg::Unlocked => {
                push_text(&mut out, "{\"t\":\"unlocked\"}");
            },
            ServerMsg::Policy { everyone } => {
                push_text(&mut out, "{\"t\":\"policy\",\"everyone\":");
                push_bool(&mut out, *everyone);
                push_text(&mut out, "}");
            },
            ServerMsg::RoomClosed { reason } => {
                push_text(&mut out, "{\"t\":\"room_closed\",\"reason\":");
                push_json_string(&mut out, reason);
                push_text(&mut out, "}");
            },
            ServerMsg::Error { code } => {
                push_text(&mut out, "{\"t\":\"error\",\"code\":");
                push_json_string(&mut out, code);
                push_text(&mut out, "}");
            },
        }
        assert(out@ =~= server_msg_json(*self));
        out
    }
}

} // verus!
