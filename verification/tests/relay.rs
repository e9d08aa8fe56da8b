use relay_server::caching::cache_control;
use relay_server::config::{parse_unsigned_text, Config, ConfigVars};
use relay_server::lobby::{create_room, CreateRoomError};
use relay_server::protocol::{
    ClientMsg, ServerMsg, BAD_HOST_TOKEN, HOST_ALREADY_CONNECTED, HOST_LEFT, IDLE_TIMEOUT,
    ROOM_FULL, ROOM_NOT_FOUND, SLOW_CONSUMER,
};
use relay_server::room_code::{room_code_at, room_key};
use relay_server::server::{elapsed_more_than, AppState, IpKey};
use relay_server::state::{Outbound, Room};
use relay_server::valid_room_id;
use relay_server::ws::{
    close_room, disconnect, dispatch, effective_client_ip, forwarded_client, gc_expired_rooms,
    handle_gen_end, handle_gen_start, handle_policy, handle_relay, lock_timer_expired, register,
    writer_step, FrameLimiter, NextStep, WriterAction, WriterEvent,
};
use base64::Engine;
use sha2::Digest;
use tokio::sync::mpsc::Receiver;

const SEC: u64 = 1_000_000_000;

fn no_vars() -> ConfigVars {
    ConfigVars {
        port: None,
        host_idle_secs: None,
        guest_idle_secs: None,
        lock_timeout_secs: None,
        room_ttl_secs: None,
        max_rooms: None,
        max_connections: None,
        max_connections_per_ip: None,
        max_participants_per_room: None,
        max_message_bytes: None,
        max_frames_per_window: None,
        max_bytes_per_window: None,
        rate_window_secs: None,
        room_creates_per_window: None,
        trust_proxy: None,
    }
}

fn default_config() -> Config {
    Config::from_vars(&no_vars())
}

enum Frame {
    Text(String),
    Close(u16),
}

fn drain(rx: &mut Receiver<Outbound>) -> Vec<Frame> {
    let mut out = Vec::new();
    while let Ok(item) = rx.try_recv() {
        match item {
            Outbound::Msg(s) => out.push(Frame::Text(s)),
            Outbound::Close(c) => out.push(Frame::Close(c)),
        }
    }
    out
}

fn texts(rx: &mut Receiver<Outbound>) -> Vec<String> {
    drain(rx)
        .into_iter()
        .map(|f| match f {
            Frame::Text(s) => s,
            Frame::Close(c) => format!("<close {}>", c),
        })
        .collect()
}

struct Created {
    room_id: String,
    host_token: String,
    guest_token: String,
}

fn new_room(state: &mut AppState) -> Created {
    match create_room(state, IpKey::V4(0x7f00_0001), 5 * SEC) {
        Ok(r) => Created { room_id: r.room_id, host_token: r.host_token, guest_token: r.guest_token },
        Err(e) => panic!("room creation failed: {:?}", e),
    }
}

fn join_host(state: &mut AppState, c: &Created) -> (u64, Receiver<Outbound>) {
    match register(state, &c.room_id, Some(&c.host_token), None) {
        Ok((id, is_host, rx)) => {
            assert!(is_host);
            (id, rx)
        }
        Err(code) => panic!("host refused with {}", code),
    }
}

fn join_guest(state: &mut AppState, c: &Created) -> (u64, Receiver<Outbound>) {
    match register(state, &c.room_id, None, Some(&c.guest_token)) {
        Ok((id, is_host, rx)) => {
            assert!(!is_host);
            (id, rx)
        }
        Err(code) => panic!("guest refused with {}", code),
    }
}

fn room<'a>(state: &'a AppState, room_id: &str) -> Option<&'a Room> {
    let k = room_key(room_id).expect("valid room id");
    state.rooms.get(&k)
}

// ---- room codes ---------------------------------------------------------

#[test]
fn room_ids_use_the_unambiguous_alphabet() {
    assert!(valid_room_id("A3K7PQ"));
    assert!(valid_room_id("ZZ2299"));
    assert!(!valid_room_id("A3K7P"));
    assert!(!valid_room_id("A3K7PQR"));
    assert!(!valid_room_id("a3k7pq"));
    assert!(!valid_room_id("A0K7PQ"));
    assert!(!valid_room_id("A1K7PQ"));
    assert!(!valid_room_id("AIK7PQ"));
    assert!(!valid_room_id("AOK7PQ"));
    assert!(!valid_room_id(""));
    assert!(!valid_room_id("ÄBCDEF"));
}

#[test]
fn room_code_text_and_key_agree() {
    for c in [0u64, 1, 31, 32, 12345, 0x3fff_ffff] {
        let (key, text) = room_code_at(c);
        assert_eq!(text.len(), 6);
        assert!(valid_room_id(&text));
        assert_eq!(room_key(&text), Some(key));
    }
    let (_, first) = room_code_at(0);
    assert_eq!(first, "AAAAAA");
    let (_, last) = room_code_at(0x3fff_ffff);
    assert_eq!(last, "999999");
    let (_, one) = room_code_at(33);
    assert_eq!(one, "AAAABB");
    assert_eq!(room_key("AB2345"), Some(0x41_42_32_33_34_35));
    assert_eq!(room_key("AB234"), None);
}

// ---- JSON framing --------------------------------------------------------

#[test]
fn server_messages_are_tagged_json() {
    let welcome = ServerMsg::Welcome {
        you: 3,
        role: "guest",
        count: 2,
        locked_by: None,
        everyone_can_generate: false,
    };
    assert_eq!(
        welcome.to_json(),
        r#"{"t":"welcome","you":3,"role":"guest","count":2,"locked_by":null,"everyone_can_generate":false}"#
    );
    let locked_welcome = ServerMsg::Welcome {
        you: 1,
        role: "host",
        count: 1,
        locked_by: Some(17),
        everyone_can_generate: true,
    };
    assert_eq!(
        locked_welcome.to_json(),
        r#"{"t":"welcome","you":1,"role":"host","count":1,"locked_by":17,"everyone_can_generate":true}"#
    );
    assert_eq!(ServerMsg::Joined { id: 4, count: 5 }.to_json(), r#"{"t":"joined","id":4,"count":5}"#);
    assert_eq!(ServerMsg::Left { id: 10, count: 0 }.to_json(), r#"{"t":"left","id":10,"count":0}"#);
    assert_eq!(
        ServerMsg::Relay { from: 2, p: "aGVsbG8".to_string() }.to_json(),
        r#"{"t":"relay","from":2,"p":"aGVsbG8"}"#
    );
    assert_eq!(ServerMsg::Locked { by: 18446744073709551615 }.to_json(), r#"{"t":"locked","by":18446744073709551615}"#);
    assert_eq!(ServerMsg::Unlocked.to_json(), r#"{"t":"unlocked"}"#);
    assert_eq!(ServerMsg::Policy { everyone: true }.to_json(), r#"{"t":"policy","everyone":true}"#);
    assert_eq!(
        ServerMsg::RoomClosed { reason: "host_left" }.to_json(),
        r#"{"t":"room_closed","reason":"host_left"}"#
    );
    assert_eq!(ServerMsg::Error { code: "locked" }.to_json(), r#"{"t":"error","code":"locked"}"#);
}

#[test]
fn relay_payload_is_escaped_as_json() {
    let p = "q\"b\\s/\u{8}\u{c}\n\r\t\u{1}\u{1f}\u{7f}é✓".to_string();
    let json = ServerMsg::Relay { from: 0, p }.to_json();
    assert_eq!(
        json,
        "{\"t\":\"relay\",\"from\":0,\"p\":\"q\\\"b\\\\s/\\b\\f\\n\\r\\t\\u0001\\u001f\u{7f}é✓\"}"
    );
    let parsed: serde_json::Value = serde_json::from_str(&json).expect("valid JSON");
    assert_eq!(parsed["p"], "q\"b\\s/\u{8}\u{c}\n\r\t\u{1}\u{1f}\u{7f}é✓");
}

// ---- configuration -------------------------------------------------------

#[test]
fn configuration_defaults() {
    let c = default_config();
    assert_eq!(c.port, 8787);
    assert_eq!(c.host_idle, 30);
    assert_eq!(c.guest_idle, 90);
    assert_eq!(c.lock_timeout, 180);
    assert_eq!(c.room_ttl, 900);
    assert_eq!(c.max_rooms, 256);
    assert_eq!(c.max_connections, 512);
    assert_eq!(c.max_connections_per_ip, 24);
    assert_eq!(c.max_participants_per_room, 12);
    assert_eq!(c.max_message_size, 1048576);
    assert_eq!(c.max_frames_per_window, 80);
    assert_eq!(c.max_bytes_per_window, 2097152);
    assert_eq!(c.rate_window, 10);
    assert_eq!(c.room_creates_per_window, 10);
    assert!(!c.trust_proxy);
    assert_eq!(c.idle_limit(true), 30);
    assert_eq!(c.idle_limit(false), 90);
}

#[test]
fn configuration_values_parse_like_str_parse() {
    let mut v = no_vars();
    v.port = Some("9000".to_string());
    v.max_rooms = Some("+3".to_string());
    v.host_idle_secs = Some("-1".to_string());
    v.guest_idle_secs = Some(" 5".to_string());
    v.max_frames_per_window = Some("4294967296".to_string());
    v.room_creates_per_window = Some("4294967295".to_string());
    v.rate_window_secs = Some("".to_string());
    v.lock_timeout_secs = Some("+".to_string());
    v.trust_proxy = Some("TrUe".to_string());
    let c = Config::from_vars(&v);
    assert_eq!(c.port, 9000);
    assert_eq!(c.max_rooms, 3);
    assert_eq!(c.host_idle, 30);
    assert_eq!(c.guest_idle, 90);
    assert_eq!(c.max_frames_per_window, 80);
    assert_eq!(c.room_creates_per_window, 4294967295);
    assert_eq!(c.rate_window, 10);
    assert_eq!(c.lock_timeout, 180);
    assert!(c.trust_proxy);

    let mut w = no_vars();
    w.port = Some("65536".to_string());
    w.trust_proxy = Some("1".to_string());
    let d = Config::from_vars(&w);
    assert_eq!(d.port, 8787);
    assert!(d.trust_proxy);
    for no in ["yes", "0", "true ", "tru", "11"] {
        let mut x = no_vars();
        x.trust_proxy = Some(no.to_string());
        assert!(!Config::from_vars(&x).trust_proxy, "{}", no);
    }
}

#[test]
fn unsigned_parsing_matches_the_standard_parser() {
    for s in ["0", "7", "+7", "007", "18446744073709551615", "18446744073709551616", "", "+", "-0", "1_0", "x1", "١"] {
        let ours = parse_unsigned_text(s, u64::MAX);
        assert_eq!(ours, s.parse::<u64>().ok(), "{:?}", s);
        let small = parse_unsigned_text(s, 65535);
        assert_eq!(small, s.parse::<u16>().ok().map(u64::from), "{:?}", s);
    }
}

// ---- connection and creation limits --------------------------------------

#[test]
fn connection_limits_per_address_and_overall() {
    let mut cfg = default_config();
    cfg.max_connections = 3;
    cfg.max_connections_per_ip = 2;
    let mut s = AppState::new(cfg);
    let a = IpKey::V4(1);
    let b = IpKey::V6(1);
    let p1 = s.try_open_connection(a).expect("first");
    let p2 = s.try_open_connection(a).expect("second");
    assert!(s.try_open_connection(a).is_none());
    let p3 = s.try_open_connection(b).expect("other address");
    assert!(s.try_open_connection(IpKey::V4(9)).is_none());
    assert_eq!(s.active_connections, 3);
    s.release_connection(p1, 0);
    assert_eq!(s.active_connections, 2);
    let p4 = s.try_open_connection(a).expect("slot freed");
    s.release_connection(p2, 0);
    s.release_connection(p3, 0);
    s.release_connection(p4, 0);
    assert_eq!(s.active_connections, 0);
    assert!(s.abuse_by_ip.get(a).is_none());
    assert!(s.abuse_by_ip.get(b).is_none());
}

#[test]
fn room_creation_rate_limit() {
    let mut cfg = default_config();
    cfg.room_creates_per_window = 2;
    cfg.rate_window = 10;
    let mut s = AppState::new(cfg);
    let ip = IpKey::V4(42);
    assert!(s.allow_room_create(ip, 0));
    assert!(s.allow_room_create(ip, SEC));
    assert!(!s.allow_room_create(ip, 2 * SEC));
    assert!(!s.allow_room_create(ip, 10 * SEC - 1));
    assert!(s.allow_room_create(ip, 10 * SEC));
    assert!(s.allow_room_create(IpKey::V4(43), 10 * SEC));
}

#[test]
fn counters_outlive_connections_while_the_creation_window_runs() {
    let mut s = AppState::new(default_config());
    let ip = IpKey::V4(5);
    let p = s.try_open_connection(ip).expect("open");
    assert!(s.allow_room_create(ip, 0));
    s.release_connection(p, SEC);
    let kept = s.abuse_by_ip.get(ip).expect("still counted");
    assert_eq!(kept.connections, 0);
    assert_eq!(kept.room_creates, 1);
    let p = s.try_open_connection(ip).expect("open again");
    s.release_connection(p, 11 * SEC);
    assert!(s.abuse_by_ip.get(ip).is_none());
}

#[test]
fn room_limit_refuses_creation() {
    let mut cfg = default_config();
    cfg.max_rooms = 1;
    let mut s = AppState::new(cfg);
    new_room(&mut s);
    match create_room(&mut s, IpKey::V4(7), 0) {
        Err(e) => assert_eq!(e, CreateRoomError::ServiceUnavailable),
        Ok(_) => panic!("second room created"),
    }
    let mut limited = AppState::new(default_config());
    limited.cfg.room_creates_per_window = 0;
    match create_room(&mut limited, IpKey::V4(7), 0) {
        Err(e) => assert_eq!(e, CreateRoomError::TooManyRequests),
        Ok(_) => panic!("created past the allowance"),
    }
}

// ---- admission -------------------------------------------------------------

#[test]
fn created_room_has_valid_code_and_tokens() {
    let mut s = AppState::new(default_config());
    let c = new_room(&mut s);
    assert!(valid_room_id(&c.room_id));
    assert_eq!(c.host_token.len(), 43);
    assert_eq!(c.guest_token.len(), 43);
    assert_ne!(c.host_token, c.guest_token);
    assert!(c.host_token.chars().all(|ch| ch.is_ascii_alphanumeric() || ch == '-' || ch == '_'));
    let r = room(&s, &c.room_id).expect("room stored");
    assert_eq!(r.created_at, 5 * SEC);
    assert_eq!(r.participants.len(), 0);
    assert!(r.host_id.is_none());
}

#[test]
fn stored_token_hashes_are_sha256_of_base64url_tokens() {
    let mut s = AppState::new(default_config());
    let c = new_room(&mut s);
    let r = room(&s, &c.room_id).expect("room stored");
    let host_digest: [u8; 32] = sha2::Sha256::digest(c.host_token.as_bytes()).into();
    let guest_digest: [u8; 32] = sha2::Sha256::digest(c.guest_token.as_bytes()).into();
    assert_eq!(r.host_token_hash, host_digest);
    assert_eq!(r.guest_token_hash, guest_digest);
    let raw = base64::engine::general_purpose::URL_SAFE_NO_PAD
        .decode(c.host_token.as_bytes())
        .expect("token is unpadded url-safe base64");
    assert_eq!(raw.len(), 32);
    let raw_g = base64::engine::general_purpose::URL_SAFE_NO_PAD
        .decode(c.guest_token.as_bytes())
        .expect("token is unpadded url-safe base64");
    assert_eq!(raw_g.len(), 32);
    assert_ne!(raw, raw_g);
}

#[test]
fn host_and_guest_are_welcomed_and_announced() {
    let mut s = AppState::new(default_config());
    let c = new_room(&mut s);
    let (h, mut hrx) = join_host(&mut s, &c);
    assert_eq!(h, 1);
    assert_eq!(
        texts(&mut hrx),
        vec![r#"{"t":"welcome","you":1,"role":"host","count":1,"locked_by":null,"everyone_can_generate":false}"#.to_string()]
    );
    let (g, mut grx) = join_guest(&mut s, &c);
    assert_eq!(g, 2);
    assert_eq!(
        texts(&mut grx),
        vec![r#"{"t":"welcome","you":2,"role":"guest","count":2,"locked_by":null,"everyone_can_generate":false}"#.to_string()]
    );
    assert_eq!(texts(&mut hrx), vec![r#"{"t":"joined","id":2,"count":2}"#.to_string()]);
    assert_eq!(room(&s, &c.room_id).unwrap().host_id, Some(1));
}

#[test]
fn bad_tokens_and_unknown_rooms_are_refused() {
    let mut s = AppState::new(default_config());
    let c = new_room(&mut s);
    let wrong = "A".repeat(43);
    assert_eq!(register(&mut s, &c.room_id, Some(&wrong), None).err(), Some(BAD_HOST_TOKEN));
    assert_eq!(register(&mut s, &c.room_id, Some("short"), None).err(), Some(BAD_HOST_TOKEN));
    assert_eq!(register(&mut s, &c.room_id, Some(&c.guest_token), None).err(), Some(BAD_HOST_TOKEN));
    assert_eq!(register(&mut s, &c.room_id, None, None).err(), Some(BAD_HOST_TOKEN));
    assert_eq!(register(&mut s, &c.room_id, None, Some(&wrong)).err(), Some(BAD_HOST_TOKEN));
    assert_eq!(register(&mut s, &c.room_id, None, Some(&c.host_token)).err(), Some(BAD_HOST_TOKEN));
    assert_eq!(register(&mut s, "AAAAAA", None, Some(&c.guest_token)).err().filter(|_| c.room_id != "AAAAAA"), if c.room_id == "AAAAAA" { None } else { Some(ROOM_NOT_FOUND) });
    assert_eq!(register(&mut s, "nope", None, Some(&c.guest_token)).err(), Some(ROOM_NOT_FOUND));
    assert_eq!(room(&s, &c.room_id).unwrap().participants.len(), 0);
    let (_h, _hrx) = join_host(&mut s, &c);
    assert_eq!(
        register(&mut s, &c.room_id, Some(&c.host_token), None).err(),
        Some(HOST_ALREADY_CONNECTED)
    );
}

#[test]
fn full_room_refuses_more_participants() {
    let mut cfg = default_config();
    cfg.max_participants_per_room = 2;
    let mut s = AppState::new(cfg);
    let c = new_room(&mut s);
    let (_h, _hrx) = join_host(&mut s, &c);
    let (_g, _grx) = join_guest(&mut s, &c);
    assert_eq!(register(&mut s, &c.room_id, None, Some(&c.guest_token)).err(), Some(ROOM_FULL));
}

// ---- relay and generation lock ----------------------------------------------

#[test]
fn relay_reaches_everyone_but_the_sender() {
    let mut s = AppState::new(default_config());
    let c = new_room(&mut s);
    let (h, mut hrx) = join_host(&mut s, &c);
    let (g1, mut g1rx) = join_guest(&mut s, &c);
    let (_g2, mut g2rx) = join_guest(&mut s, &c);
    drain(&mut hrx);
    drain(&mut g1rx);
    drain(&mut g2rx);
    handle_relay(&mut s, &c.room_id, g1, false, "cipher".to_string());
    let want = vec![r#"{"t":"relay","from":2,"p":"cipher"}"#.to_string()];
    assert_eq!(texts(&mut hrx), want);
    assert_eq!(texts(&mut g2rx), want);
    assert!(texts(&mut g1rx).is_empty());
    handle_relay(&mut s, &c.room_id, h, true, "x".to_string());
    assert_eq!(texts(&mut g1rx), vec![r#"{"t":"relay","from":1,"p":"x"}"#.to_string()]);
}

#[test]
fn lock_mutes_guests_but_not_the_host() {
    let mut s = AppState::new(default_config());
    let c = new_room(&mut s);
    let (h, mut hrx) = join_host(&mut s, &c);
    let (g, mut grx) = join_guest(&mut s, &c);
    drain(&mut hrx);
    drain(&mut grx);
    let seq = handle_gen_start(&mut s, &c.room_id, h, true);
    assert_eq!(seq, Some(1));
    assert_eq!(texts(&mut hrx), vec![r#"{"t":"locked","by":1}"#.to_string()]);
    assert_eq!(texts(&mut grx), vec![r#"{"t":"locked","by":1}"#.to_string()]);
    handle_relay(&mut s, &c.room_id, g, false, "muted".to_string());
    assert_eq!(texts(&mut grx), vec![r#"{"t":"error","code":"locked"}"#.to_string()]);
    assert!(texts(&mut hrx).is_empty());
    handle_relay(&mut s, &c.room_id, h, true, "stream".to_string());
    assert_eq!(texts(&mut grx), vec![r#"{"t":"relay","from":1,"p":"stream"}"#.to_string()]);
    assert_eq!(handle_gen_start(&mut s, &c.room_id, g, false), None);
    assert_eq!(texts(&mut grx), vec![r#"{"t":"error","code":"already_locked"}"#.to_string()]);
    handle_gen_end(&mut s, &c.room_id, g, false);
    assert_eq!(texts(&mut grx), vec![r#"{"t":"error","code":"not_allowed"}"#.to_string()]);
    handle_gen_end(&mut s, &c.room_id, h, true);
    assert_eq!(texts(&mut grx), vec![r#"{"t":"unlocked"}"#.to_string()]);
    assert_eq!(texts(&mut hrx), vec![r#"{"t":"unlocked"}"#.to_string()]);
    let r = room(&s, &c.room_id).unwrap();
    assert!(r.locked_by.is_none());
    assert_eq!(r.lock_seq, 2);
    handle_gen_end(&mut s, &c.room_id, h, true);
    assert!(texts(&mut grx).is_empty());
}

#[test]
fn guests_generate_only_when_the_policy_allows() {
    let mut s = AppState::new(default_config());
    let c = new_room(&mut s);
    let (h, mut hrx) = join_host(&mut s, &c);
    let (g, mut grx) = join_guest(&mut s, &c);
    drain(&mut hrx);
    drain(&mut grx);
    assert_eq!(handle_gen_start(&mut s, &c.room_id, g, false), None);
    assert_eq!(texts(&mut grx), vec![r#"{"t":"error","code":"not_allowed"}"#.to_string()]);
    handle_policy(&mut s, &c.room_id, g, false, true);
    assert_eq!(texts(&mut grx), vec![r#"{"t":"error","code":"not_allowed"}"#.to_string()]);
    assert!(!room(&s, &c.room_id).unwrap().everyone_can_generate);
    handle_policy(&mut s, &c.room_id, h, true, true);
    assert_eq!(texts(&mut grx), vec![r#"{"t":"policy","everyone":true}"#.to_string()]);
    assert_eq!(texts(&mut hrx), vec![r#"{"t":"policy","everyone":true}"#.to_string()]);
    assert_eq!(handle_gen_start(&mut s, &c.room_id, g, false), Some(1));
    assert_eq!(texts(&mut hrx), vec![r#"{"t":"locked","by":2}"#.to_string()]);
    assert_eq!(room(&s, &c.room_id).unwrap().locked_by, Some(g));
}

#[test]
fn lock_timer_releases_only_its_own_lock() {
    let mut s = AppState::new(default_config());
    let c = new_room(&mut s);
    let (h, mut hrx) = join_host(&mut s, &c);
    let first = handle_gen_start(&mut s, &c.room_id, h, true).unwrap();
    handle_gen_end(&mut s, &c.room_id, h, true);
    let second = handle_gen_start(&mut s, &c.room_id, h, true).unwrap();
    assert_ne!(first, second);
    drain(&mut hrx);
    lock_timer_expired(&mut s, &c.room_id, first);
    assert!(texts(&mut hrx).is_empty());
    assert_eq!(room(&s, &c.room_id).unwrap().locked_by, Some(h));
    lock_timer_expired(&mut s, &c.room_id, second);
    assert_eq!(texts(&mut hrx), vec![r#"{"t":"unlocked"}"#.to_string()]);
    assert!(room(&s, &c.room_id).unwrap().locked_by.is_none());
}

#[test]
fn dispatch_routes_client_messages() {
    let mut s = AppState::new(default_config());
    let c = new_room(&mut s);
    let (h, mut hrx) = join_host(&mut s, &c);
    let (_g, mut grx) = join_guest(&mut s, &c);
    drain(&mut hrx);
    drain(&mut grx);
    assert!(matches!(dispatch(&mut s, &c.room_id, h, true, ClientMsg::Relay { p: "m".to_string() }), NextStep::Continue));
    assert_eq!(texts(&mut grx), vec![r#"{"t":"relay","from":1,"p":"m"}"#.to_string()]);
    assert!(matches!(dispatch(&mut s, &c.room_id, h, true, ClientMsg::GenStart), NextStep::StartLockTimer(1)));
    assert!(matches!(dispatch(&mut s, &c.room_id, h, true, ClientMsg::GenEnd), NextStep::Continue));
    assert!(matches!(dispatch(&mut s, &c.room_id, h, true, ClientMsg::Policy { everyone: true }), NextStep::Continue));
    assert!(matches!(
        dispatch(&mut s, &c.room_id, h, true, ClientMsg::Hello { host_token: None, guest_token: None }),
        NextStep::Stop
    ));
}

// ---- departures -----------------------------------------------------------

#[test]
fn guest_departure_is_announced_and_releases_its_lock() {
    let mut s = AppState::new(default_config());
    let c = new_room(&mut s);
    let (h, mut hrx) = join_host(&mut s, &c);
    handle_policy(&mut s, &c.room_id, h, true, true);
    let (g, _grx) = join_guest(&mut s, &c);
    let (_g2, mut g2rx) = join_guest(&mut s, &c);
    handle_gen_start(&mut s, &c.room_id, g, false).unwrap();
    drain(&mut hrx);
    drain(&mut g2rx);
    disconnect(&mut s, &c.room_id, g);
    let want = vec![r#"{"t":"unlocked"}"#.to_string(), r#"{"t":"left","id":2,"count":2}"#.to_string()];
    assert_eq!(texts(&mut hrx), want);
    assert_eq!(texts(&mut g2rx), want);
    let r = room(&s, &c.room_id).unwrap();
    assert!(r.locked_by.is_none());
    assert_eq!(r.participants.len(), 2);
    disconnect(&mut s, &c.room_id, 99);
    assert!(texts(&mut hrx).is_empty());
}

#[test]
fn host_departure_closes_the_room() {
    let mut s = AppState::new(default_config());
    let c = new_room(&mut s);
    let (h, _hrx) = join_host(&mut s, &c);
    let (_g, mut grx) = join_guest(&mut s, &c);
    drain(&mut grx);
    disconnect(&mut s, &c.room_id, h);
    assert!(room(&s, &c.room_id).is_none());
    let frames = drain(&mut grx);
    assert_eq!(frames.len(), 2);
    assert!(matches!(&frames[0], Frame::Text(t) if t == r#"{"t":"room_closed","reason":"host_left"}"#));
    assert!(matches!(frames[1], Frame::Close(HOST_LEFT)));
    assert_eq!(register(&mut s, &c.room_id, None, Some(&c.guest_token)).err(), Some(ROOM_NOT_FOUND));
}

#[test]
fn slow_consumer_is_dropped_alone() {
    let mut s = AppState::new(default_config());
    let c = new_room(&mut s);
    let (h, mut hrx) = join_host(&mut s, &c);
    let (slow, slow_rx) = join_guest(&mut s, &c);
    let (_g, mut grx) = join_guest(&mut s, &c);
    drop(slow_rx);
    drain(&mut hrx);
    drain(&mut grx);
    handle_relay(&mut s, &c.room_id, h, true, "p".to_string());
    assert_eq!(
        texts(&mut grx),
        vec![r#"{"t":"relay","from":1,"p":"p"}"#.to_string(), r#"{"t":"left","id":2,"count":2}"#.to_string()]
    );
    assert_eq!(texts(&mut hrx), vec![r#"{"t":"left","id":2,"count":2}"#.to_string()]);
    let r = room(&s, &c.room_id).unwrap();
    assert_eq!(r.participants.len(), 2);
    assert!(r.participants.iter().all(|p| p.id != slow));
}

#[test]
fn slow_lock_holder_releases_the_lock() {
    let mut s = AppState::new(default_config());
    let c = new_room(&mut s);
    let (h, mut hrx) = join_host(&mut s, &c);
    let (g, grx) = join_guest(&mut s, &c);
    let (_g2, mut g2rx) = join_guest(&mut s, &c);
    handle_policy(&mut s, &c.room_id, h, true, true);
    let seq = handle_gen_start(&mut s, &c.room_id, g, false).expect("lock taken");
    assert_eq!(room(&s, &c.room_id).unwrap().locked_by, Some(g));
    drain(&mut hrx);
    drain(&mut g2rx);
    drop(grx);
    handle_relay(&mut s, &c.room_id, h, true, "x".to_string());
    let r = room(&s, &c.room_id).expect("room stays open");
    assert_eq!(r.locked_by, None);
    assert_eq!(r.lock_seq, seq + 1);
    assert!(r.participants.iter().all(|p| p.id != g));
    assert_eq!(
        texts(&mut hrx),
        vec![r#"{"t":"left","id":2,"count":2}"#.to_string(), r#"{"t":"unlocked"}"#.to_string()]
    );
    assert_eq!(
        texts(&mut g2rx),
        vec![
            r#"{"t":"relay","from":1,"p":"x"}"#.to_string(),
            r#"{"t":"left","id":2,"count":2}"#.to_string(),
            r#"{"t":"unlocked"}"#.to_string()
        ]
    );
    lock_timer_expired(&mut s, &c.room_id, seq);
    assert!(texts(&mut hrx).is_empty());
    handle_relay(&mut s, &c.room_id, 3, false, "free".to_string());
    assert_eq!(texts(&mut hrx), vec![r#"{"t":"relay","from":3,"p":"free"}"#.to_string()]);
}

#[test]
fn full_queue_counts_as_slow_consumer() {
    let mut s = AppState::new(default_config());
    let c = new_room(&mut s);
    let (h, mut hrx) = join_host(&mut s, &c);
    let (g, mut grx) = join_guest(&mut s, &c);
    drain(&mut hrx);
    for i in 0..15 {
        handle_relay(&mut s, &c.room_id, h, true, format!("{}", i));
    }
    assert!(room(&s, &c.room_id).unwrap().participants.iter().any(|p| p.id == g));
    handle_relay(&mut s, &c.room_id, h, true, "overflow".to_string());
    assert!(room(&s, &c.room_id).unwrap().participants.iter().all(|p| p.id != g));
    let frames = drain(&mut grx);
    assert_eq!(frames.len(), 16);
    assert!(matches!(&frames[0], Frame::Text(t) if t == r#"{"t":"welcome","you":2,"role":"guest","count":2,"locked_by":null,"everyone_can_generate":false}"#));
    assert_eq!(texts(&mut hrx), vec![r#"{"t":"left","id":2,"count":1}"#.to_string()]);
    let _ = SLOW_CONSUMER;
}

#[test]
fn dead_host_closes_the_room_on_broadcast() {
    let mut s = AppState::new(default_config());
    let c = new_room(&mut s);
    let (_h, hrx) = join_host(&mut s, &c);
    let (g, mut grx) = join_guest(&mut s, &c);
    drop(hrx);
    drain(&mut grx);
    handle_relay(&mut s, &c.room_id, g, false, "hi".to_string());
    assert!(room(&s, &c.room_id).is_none());
    let frames = drain(&mut grx);
    assert!(matches!(frames.last(), Some(Frame::Close(HOST_LEFT))));
}

#[test]
fn close_room_tells_everyone_why() {
    let mut s = AppState::new(default_config());
    let c = new_room(&mut s);
    let (_h, mut hrx) = join_host(&mut s, &c);
    let (_g, mut grx) = join_guest(&mut s, &c);
    drain(&mut hrx);
    drain(&mut grx);
    let k = room_key(&c.room_id).unwrap();
    close_room(&mut s.rooms, k, "expired", IDLE_TIMEOUT);
    assert!(s.rooms.is_empty());
    for rx in [&mut hrx, &mut grx] {
        let frames = drain(rx);
        assert_eq!(frames.len(), 2);
        assert!(matches!(&frames[0], Frame::Text(t) if t == r#"{"t":"room_closed","reason":"expired"}"#));
        assert!(matches!(frames[1], Frame::Close(IDLE_TIMEOUT)));
    }
    close_room(&mut s.rooms, k, "expired", IDLE_TIMEOUT);
}

#[test]
fn garbage_collection_keeps_hosted_and_young_rooms() {
    let mut cfg = default_config();
    cfg.room_ttl = 60;
    let mut s = AppState::new(cfg);
    let hosted = new_room(&mut s);
    let (_h, _hrx) = join_host(&mut s, &hosted);
    let lonely = new_room(&mut s);
    let (_g, mut grx) = join_guest(&mut s, &lonely);
    drain(&mut grx);
    gc_expired_rooms(&mut s, 65 * SEC);
    assert_eq!(s.rooms.len(), 2);
    gc_expired_rooms(&mut s, 65 * SEC + 1);
    assert_eq!(s.rooms.len(), 1);
    assert!(room(&s, &hosted.room_id).is_some());
    let frames = drain(&mut grx);
    assert!(matches!(frames.last(), Some(Frame::Close(IDLE_TIMEOUT))));
}

// ---- small decisions ---------------------------------------------------------

#[test]
fn frame_allowance_per_window() {
    let mut cfg = default_config();
    cfg.max_frames_per_window = 2;
    cfg.max_bytes_per_window = 100;
    cfg.rate_window = 10;
    let mut l = FrameLimiter::new(0);
    assert!(l.count_frame(0, 10, &cfg));
    assert!(l.count_frame(SEC, 10, &cfg));
    assert!(!l.count_frame(2 * SEC, 10, &cfg));
    assert!(l.count_frame(10 * SEC, 100, &cfg));
    assert!(!l.count_frame(11 * SEC, 1, &cfg));
    let mut big = FrameLimiter::new(0);
    assert!(!big.count_frame(0, 101, &cfg));
    let mut sat = FrameLimiter::new(0);
    sat.bytes = usize::MAX;
    assert!(!sat.count_frame(0, 5, &cfg));
    assert_eq!(sat.bytes, usize::MAX);
}

#[test]
fn forwarded_for_is_honoured_only_behind_a_trusted_proxy() {
    assert_eq!(forwarded_client(" 203.0.113.7 , 10.0.0.1"), "203.0.113.7");
    assert_eq!(forwarded_client("2001:db8::1"), "2001:db8::1");
    assert_eq!(forwarded_client(",x"), "");
    let peer = IpKey::V4(0x0a00_0001);
    let fwd = IpKey::V4(0xcb00_7107);
    assert_eq!(effective_client_ip(peer, Some(fwd), true), fwd);
    assert_eq!(effective_client_ip(peer, Some(fwd), false), peer);
    assert_eq!(effective_client_ip(peer, None, true), peer);
}

#[test]
fn cache_policy_by_path() {
    assert_eq!(cache_control("/assets/index-abc.js"), "public, max-age=31536000, immutable");
    assert_eq!(cache_control("/api/rooms"), "no-store");
    assert_eq!(cache_control("/"), "no-cache");
    assert_eq!(cache_control("/index.html"), "no-cache");
    assert_eq!(cache_control("/assets"), "no-cache");
    assert_eq!(cache_control("/api"), "no-cache");
}

#[test]
fn idle_check_is_strict() {
    assert!(!elapsed_more_than(0, 30 * SEC, 30));
    assert!(elapsed_more_than(0, 30 * SEC + 1, 30));
    assert!(!elapsed_more_than(10, 5, 0));
}


#[test]
fn writer_closes_idle_clients_and_pings_the_rest() {
    let a = writer_step(WriterEvent::Tick { now: 131 * SEC, last_seen: 100 * SEC }, 30);
    assert!(matches!(a, WriterAction::Close(IDLE_TIMEOUT)));
    assert_eq!(IDLE_TIMEOUT, 4008);
    let b = writer_step(WriterEvent::Tick { now: 130 * SEC, last_seen: 100 * SEC }, 30);
    assert!(matches!(b, WriterAction::Ping));
    let c = writer_step(WriterEvent::Queued(Outbound::Msg("m".to_string())), 30);
    assert!(matches!(c, WriterAction::Text(ref t) if t == "m"));
    let d = writer_step(WriterEvent::Queued(Outbound::Close(SLOW_CONSUMER)), 30);
    assert!(matches!(d, WriterAction::Close(SLOW_CONSUMER)));
    assert!(matches!(writer_step(WriterEvent::QueueClosed, 30), WriterAction::CloseBare));
}

#[test]
fn second_disconnect_changes_nothing() {
    let mut s = AppState::new(default_config());
    let c = new_room(&mut s);
    let (_h, mut hrx) = join_host(&mut s, &c);
    let (g, _grx) = join_guest(&mut s, &c);
    drain(&mut hrx);
    disconnect(&mut s, &c.room_id, g);
    assert_eq!(texts(&mut hrx), vec![r#"{"t":"left","id":2,"count":1}"#.to_string()]);
    let before = room(&s, &c.room_id).unwrap().participants.len();
    disconnect(&mut s, &c.room_id, g);
    assert!(texts(&mut hrx).is_empty());
    assert_eq!(room(&s, &c.room_id).unwrap().participants.len(), before);
}
