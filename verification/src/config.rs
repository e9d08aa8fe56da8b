//! Runtime configuration, read once from the environment at startup. The
//! environment is read outside the library; here each setting's text becomes
//! its value, with the default wherever the variable is unset or does not
//! parse.
use vstd::prelude::*;
use vstd::string::StringSliceAdditionalSpecFns;
use vstd::utf8::encode_utf8;

verus! {

/// Runtime configuration. Durations are whole seconds.
pub struct Config {
    pub port: u16,
    /// Idle limit for the host connection; stricter than for guests, since
    /// losing the host kills the room.
    pub host_idle: u64,
    pub guest_idle: u64,
    /// Auto-unlock deadline for a stuck generation.
    pub lock_timeout: u64,
    /// Rooms whose host never connected are collected after this.
    pub room_ttl: u64,
    pub max_rooms: usize,
    pub max_connections: usize,
    pub max_connections_per_ip: usize,
    pub max_participants_per_room: usize,
    pub max_message_size: usize,
    pub max_frames_per_window: u32,
    pub max_bytes_per_window: usize,
    pub rate_window: u64,
    pub room_creates_per_window: u32,
    /// Honor X-Forwarded-For only when the relay is reachable exclusively
    /// through a trusted reverse proxy.
    pub trust_proxy: bool,
}

/// The text of each configuration variable, `None` where it is unset (or not
/// valid Unicode).
pub struct ConfigVars {
    pub port: Option<String>,
    pub host_idle_secs: Option<String>,
    pub guest_idle_secs: Option<String>,
    pub lock_timeout_secs: Option<String>,
    pub room_ttl_secs: Option<String>,
    pub max_rooms: Option<String>,
    pub max_connections: Option<String>,
    pub max_connections_per_ip: Option<String>,
    pub max_participants_per_room: Option<String>,
    pub max_message_bytes: Option<String>,
    pub max_frames_per_window: Option<String>,
    pub max_bytes_per_window: Option<String>,
    pub rate_window_secs: Option<String>,
    pub room_creates_per_window: Option<String>,
    pub trust_proxy: Option<String>,
}

pub open spec fn is_digit(b: u8) -> bool {
    48 <= b <= 57
}

/// The value of a string of decimal digits.
pub open spec fn digits_value(b: Seq<u8>) -> nat
    decreases b.len(),
{
    if b.len() == 0 {
        0
    } else {
        digits_value(b.drop_last()) * 10 + (b.last() - 48) as nat
    }
}

/// The digits of an unsigned number: the text without one leading `+`.
pub open spec fn unsigned_digits(b: Seq<u8>) -> Seq<u8> {
    if b.len() > 0 && b[0] == 43 {
        b.skip(1)
    } else {
        b
    }
}

/// How `str::parse` reads an unsigned integer type whose largest value is
/// `max`: an optional `+`, then one or more decimal digits, at most `max`.
pub open spec fn parse_unsigned(b: Seq<u8>, max: nat) -> Option<nat> {
    let d = unsigned_digits(b);
    if d.len() > 0 && (forall|i: int| 0 <= i < d.len() ==> is_digit(#[trigger] d[i]))
        && digits_value(d) <= max {
        Some(digits_value(d))
    } else {
        None
    }
}

/// The value of a numeric setting: its text parsed, else the default.
pub open spec fn numeric_setting(v: Option<String>, max: nat, default: nat) -> nat {
    match v {
        Some(s) => match parse_unsigned(encode_utf8(s@), max) {
            Some(n) => n,
            None => default,
        },
        None => default,
    }
}

pub open spec fn ascii_lower(b: u8) -> u8 {
    if 65 <= b <= 90 {
        (b + 32) as u8
    } else {
        b
    }
}

/// `1`, or `true` in any mix of case.
pub open spec fn is_true_text(b: Seq<u8>) -> bool {
    ||| b == seq![49u8]
    ||| b.len() == 4 && ascii_lower(b[0]) == 116 && ascii_lower(b[1]) == 114 && ascii_lower(b[2])
        == 117 && ascii_lower(b[3]) == 101
}

/// The configuration that a set of variables gives.
pub open spec fn config_of(v: ConfigVars) -> Config {
    Config {
        port: numeric_setting(v.port, u16::MAX as nat, 8787) as u16,
        host_idle: numeric_setting(v.host_idle_secs, u64::MAX as nat, 30) as u64,
        guest_idle: numeric_setting(v.guest_idle_secs, u64::MAX as nat, 90) as u64,
        lock_timeout: numeric_setting(v.lock_timeout_secs, u64::MAX as nat, 180) as u64,
        room_ttl: numeric_setting(v.room_ttl_secs, u64::MAX as nat, 900) as u64,
        max_rooms: numeric_setting(v.max_rooms, usize::MAX as nat, 256) as usize,
        max_connections: numeric_setting(v.max_connections, usize::MAX as nat, 512) as usize,
        max_connections_per_ip: numeric_setting(v.max_connections_per_ip, usize::MAX as nat, 24)
            as usize,
        max_participants_per_room: numeric_setting(
            v.max_participants_per_room,
            usize::MAX as nat,
            12,
        ) as usize,
        max_message_size: numeric_setting(v.max_message_bytes, usize::MAX as nat, 1048576)
            as usize,
        max_frames_per_window: numeric_setting(v.max_frames_per_window, u32::MAX as nat, 80)
            as u32,
        max_bytes_per_window: numeric_setting(v.max_bytes_per_window, usize::MAX as nat, 2097152)
            as usize,
        rate_window: numeric_setting(v.rate_window_secs, u64::MAX as nat, 10) as u64,
        room_creates_per_window: numeric_setting(v.room_creates_per_window, u32::MAX as nat, 10)
            as u32,
        trust_proxy: match v.trust_proxy {
            Some(s) => is_true_text(encode_utf8(s@)),
            None => false,
        },
    }
}

/// Reads an unsigned number the way `str::parse` does for an integer type
/// whose largest value is `max`.
pub fn parse_unsigned_text(text: &str, max: u64) -> (r: Option<u64>)
    ensures
        r matches Some(n) ==> parse_unsigned(text.spec_bytes(), max as nat) == Some(n as nat),
        r is None ==> parse_unsigned(text.spec_bytes(), max as nat) is None,
{
    let b = text.as_bytes();
    let ghost all = b@;
    let start: usize = if b.len() > 0 && b[0] == 43 { 1 } else { 0 };
    let ghost d = unsigned_digits(all);
    assert(d =~= all.skip(start as int));
    let mut acc: u64 = 0;
    let mut over = false;
    let mut digits = true;
    let mut i: usize = start;
    while i < b.len()
        invariant
            b@ == all,
            start <= i <= all.len(),
            d == all.skip(start as int),
            digits == (forall|j: int| 0 <= j < i - start ==> is_digit(#[trigger] d[j])),
            digits ==> over == (digits_value(d.take(i - start)) > max),
            digits && !over ==> acc == digits_value(d.take(i - start)),
        decreases all.len() - i,
    {
        let c = b[i];
        let ghost k = (i - start) as int;
        assert(d[k] == c);
        if !(48 <= c && c <= 57) {
            digits = false;
        } else if digits {
            proof {
                assert(d.take(k + 1).drop_last() =~= d.take(k));
                assert(d.take(k + 1).last() == c);
            }
            let v = (c - 48) as u64;
            if !over {
                if v > max || acc > (max - v) / 10 {
                    over = true;
                } else {
                    acc = acc * 10 + v;
                }
            }
        }
        i = i + 1;
    }
    assert(d.take(d.len() as int) =~= d);
    if b.len() == start || !digits || over {
        None
    } else {
        Some(acc)
    }
}

/// `1`, or `true` in any mix of case (`str::eq_ignore_ascii_case`).
pub fn is_true_setting(text: &str) -> (r: bool)
    ensures
        r == is_true_text(text.spec_bytes()),
{
    let b = text.as_bytes();
    if b.len() == 1 && b[0] == 49 {
        assert(b@ =~= seq![49u8]);
        return true;
    }
    assert(b@ != seq![49u8]);
    if b.len() != 4 {
        return false;
    }
    lower(b[0]) == 116 && lower(b[1]) == 114 && lower(b[2]) == 117 && lower(b[3]) == 101
}

fn lower(b: u8) -> (r: u8)
    ensures
        r == ascii_lower(b),
{
    if 65 <= b && b <= 90 {
        b + 32
    } else {
        b
    }
}

fn numeric(v: &Option<String>, max: u64, default: u64) -> (r: u64)
    requires
        default <= max,
    ensures
        r == numeric_setting(*v, max as nat, default as nat),
        r <= max,
{
    match v {
        Some(s) => match parse_unsigned_text(s.as_str(), max) {
            Some(n) => n,
            None => default,
        },
        None => default,
    }
}

impl Config {
    /// The configuration that the variables give: each number parsed as
    /// its type, the default where unset or unparsable; `trust_proxy` is on
    /// for `1` or any casing of `true`.
    pub fn from_vars(v: &ConfigVars) -> (c: Config)
        ensures
            c == config_of(*v),
    {
        Config {
            port: numeric(&v.port, 65535, 8787) as u16,
            host_idle: numeric(&v.host_idle_secs, u64::MAX, 30),
            guest_idle: numeric(&v.guest_idle_secs, u64::MAX, 90),
            lock_timeout: numeric(&v.lock_timeout_secs, u64::MAX, 180),
            room_ttl: numeric(&v.room_ttl_secs, u64::MAX, 900),
            max_rooms: numeric(&v.max_rooms, usize::MAX as u64, 256) as usize,
            max_connections: numeric(&v.max_connections, usize::MAX as u64, 512) as usize,
            max_connections_per_ip: numeric(&v.max_connections_per_ip, usize::MAX as u64, 24)
                as usize,
            max_participants_per_room: numeric(
                &v.max_participants_per_room,
                usize::MAX as u64,
                12,
            ) as usize,
            max_message_size: numeric(&v.max_message_bytes, usize::MAX as u64, 1048576) as usize,
            max_frames_per_window: numeric(&v.max_frames_per_window, 4294967295, 80) as u32,
            max_bytes_per_window: numeric(&v.max_bytes_per_window, usize::MAX as u64, 2097152)
                as usize,
            rate_window: numeric(&v.rate_window_secs, u64::MAX, 10),
            room_creates_per_window: numeric(&v.room_creates_per_window, 4294967295, 10) as u32,
            trust_proxy: match &v.trust_proxy {
                Some(s) => is_true_setting(s.as_str()),
                None => false,
            },
        }
    }

    /// The idle limit for a connection, in seconds.
    pub fn idle_limit(&self, is_host: bool) -> (secs: u64)
        ensures
            secs == if is_host {
                self.host_idle
            } else {
                self.guest_idle
            },
    {
        if is_host {
            self.host_idle
        } else {
            self.guest_idle
        }
    }
}

} // verus!
