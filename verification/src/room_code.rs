//! Room codes: six characters from an alphabet without the ambiguous
//! characters 0/O and 1/I. A code is stored as the integer whose base-256
//! digits are its bytes, which is how the room table is keyed.
use vstd::prelude::*;
use vstd::string::StringSliceAdditionalSpecFns;

verus! {

/// Number of characters in a room code.
pub const CODE_LEN: usize = 6;

/// The room-code alphabet, "ABCDEFGHJKLMNPQRSTUVWXYZ23456789", as bytes.
pub open spec fn code_alphabet() -> Seq<u8> {
    seq![
        65u8, 66, 67, 68, 69, 70, 71, 72, 74, 75, 76, 77, 78, 80, 81, 82,
        83, 84, 85, 86, 87, 88, 89, 90, 50, 51, 52, 53, 54, 55, 56, 57,
    ]
}

/// `b` is a well-formed room code.
pub open spec fn is_room_code(b: Seq<u8>) -> bool {
    &&& b.len() == CODE_LEN
    &&& forall|i: int| 0 <= i < b.len() ==> #[trigger] code_alphabet().contains(b[i])
}

/// Whether `b` is one of the 32 alphabet bytes.
fn is_code_byte(b: u8) -> (r: bool)
    ensures
        r == code_alphabet().contains(b),
{
    let alphabet: [u8; 32] = [
        65u8, 66, 67, 68, 69, 70, 71, 72, 74, 75, 76, 77, 78, 80, 81, 82,
        83, 84, 85, 86, 87, 88, 89, 90, 50, 51, 52, 53, 54, 55, 56, 57,
    ];
    assert(alphabet@ =~= code_alphabet());
    let mut i: usize = 0;
    while i < 32
        invariant
            i <= 32,
            alphabet@ == code_alphabet(),
            forall|j: int| 0 <= j < i ==> alphabet@[j] != b,
        decreases 32 - i,
    {
        if alphabet[i] == b {
            return true;
        }
        i = i + 1;
    }
    false
}

/// Accepts exactly the six-byte strings over the room-code alphabet.
pub fn valid_room_id(room_id: &str) -> (r: bool)
    ensures
        r == is_room_code(room_id.spec_bytes()),
{
    let bytes = room_id.as_bytes();
    if bytes.len() != CODE_LEN {
        return false;
    }
    let mut i: usize = 0;
    while i < CODE_LEN
        invariant
            bytes@ == room_id.spec_bytes(),
            bytes@.len() == CODE_LEN,
            i <= CODE_LEN,
            forall|j: int| 0 <= j < i ==> #[trigger] code_alphabet().contains(bytes@[j]),
        decreases CODE_LEN - i,
    {
        if !is_code_byte(bytes[i]) {
            return false;
        }
        i = i + 1;
    }
    true
}

} // verus!

verus! {

/// The integer whose base-256 digits, most significant first, are `b`.
pub open spec fn code_key(b: Seq<u8>) -> nat
    decreases b.len(),
{
    if b.len() == 0 {
        0
    } else {
        code_key(b.drop_last()) * 256 + b.last() as nat
    }
}

/// The last `n` base-256 digits of `k`, most significant first.
pub open spec fn key_bytes(k: nat, n: nat) -> Seq<u8>
    decreases n,
{
    if n == 0 {
        seq![]
    } else {
        key_bytes(k / 256, (n - 1) as nat).push((k % 256) as u8)
    }
}

/// `k` is the key of some room code.
pub open spec fn is_room_key(k: nat) -> bool {
    k < 0x1_0000_0000_0000 && is_room_code(key_bytes(k, CODE_LEN as nat))
}

pub open spec fn pow256(n: nat) -> nat
    decreases n,
{
    if n == 0 {
        1
    } else {
        256 * pow256((n - 1) as nat)
    }
}

/// Digits read back from a key are the digits the key was made of.
pub proof fn lemma_key_bytes_of_code_key(b: Seq<u8>)
    ensures
        key_bytes(code_key(b), b.len()) == b,
        code_key(b) < pow256(b.len()),
    decreases b.len(),
{
    if b.len() > 0 {
        let p = b.drop_last();
        lemma_key_bytes_of_code_key(p);
        let k = code_key(b);
        assert(k / 256 == code_key(p));
        assert(k % 256 == b.last());
        assert(key_bytes(k, b.len()) =~= p.push(b.last()));
        assert(b =~= p.push(b.last()));
    }
}

pub proof fn lemma_pow256_positive(n: nat)
    ensures
        pow256(n) > 0,
    decreases n,
{
    if n > 0 {
        lemma_pow256_positive((n - 1) as nat);
    }
}

/// Every room code is the digit string of exactly one key below 2^48.
pub proof fn lemma_room_code_key(b: Seq<u8>)
    requires
        is_room_code(b),
    ensures
        is_room_key(code_key(b)),
        key_bytes(code_key(b), CODE_LEN as nat) == b,
{
    lemma_key_bytes_of_code_key(b);
    lemma_pow256_six();
}

pub proof fn lemma_pow256_six()
    ensures
        pow256(6) == 0x1_0000_0000_0000,
{
    reveal_with_fuel(pow256, 7);
}

/// The key of a room code, or `None` for a string that is not one.
pub fn room_key(room_id: &str) -> (r: Option<u64>)
    ensures
        r == (if is_room_code(room_id.spec_bytes()) {
            Some(code_key(room_id.spec_bytes()) as u64)
        } else {
            None
        }),
        r matches Some(k) ==> is_room_key(k as nat),
{
    if !valid_room_id(room_id) {
        return None;
    }
    let bytes = room_id.as_bytes();
    let ghost b = bytes@;
    proof {
        lemma_room_code_key(b);
    }
    let mut key: u64 = 0;
    let mut i: usize = 0;
    while i < CODE_LEN
        invariant
            bytes@ == b,
            b.len() == CODE_LEN,
            i <= CODE_LEN,
            key == code_key(b.take(i as int)),
            key < pow256(i as nat),
        decreases CODE_LEN - i,
    {
        proof {
            assert(b.take(i + 1).drop_last() =~= b.take(i as int));
            lemma_key_bytes_of_code_key(b.take(i + 1));
            assert(pow256((i + 1) as nat) <= pow256(6)) by {
                lemma_pow256_monotone((i + 1) as nat, 6);
            }
            lemma_pow256_six();
        }
        key = key * 256 + bytes[i] as u64;
        i = i + 1;
    }
    assert(b.take(6) =~= b);
    Some(key)
}

pub proof fn lemma_pow256_monotone(m: nat, n: nat)
    requires
        m <= n,
    ensures
        pow256(m) <= pow256(n),
    decreases n,
{
    if m < n {
        lemma_pow256_monotone(m, (n - 1) as nat);
    }
}

/// Number of distinct room codes: 32^6.
pub const CODE_SPACE: u64 = 0x4000_0000;

/// The room code with index `c`: base-32 digits of `c` (last `n` of them,
/// most significant first), each mapped through the alphabet.
pub open spec fn index_bytes(c: nat, n: nat) -> Seq<u8>
    decreases n,
{
    if n == 0 {
        seq![]
    } else {
        index_bytes(c / 32, (n - 1) as nat).push(code_alphabet()[(c % 32) as int])
    }
}

/// The key of the room code with index `c`.
pub open spec fn index_key(c: nat) -> nat {
    code_key(index_bytes(c, CODE_LEN as nat))
}

/// The room code with index `c`, as characters.
pub open spec fn index_chars(c: nat) -> Seq<char> {
    index_bytes(c, CODE_LEN as nat).map_values(|b: u8| b as char)
}

/// Every room code is taken in `keys`.
pub open spec fn all_codes_taken<V>(keys: Map<u64, V>) -> bool {
    forall|c: nat| c < CODE_SPACE ==> #[trigger] keys.contains_key(index_key(c) as u64)
}

pub proof fn lemma_index_bytes(c: nat, n: nat)
    ensures
        index_bytes(c, n).len() == n,
        forall|i: int| 0 <= i < n ==> code_alphabet().contains(#[trigger] index_bytes(c, n)[i]),
    decreases n,
{
    if n > 0 {
        lemma_index_bytes(c / 32, (n - 1) as nat);
        let s = index_bytes(c, n);
        assert forall|i: int| 0 <= i < n implies code_alphabet().contains(#[trigger] s[i]) by {
            if i < n - 1 {
                assert(s[i] == index_bytes(c / 32, (n - 1) as nat)[i]);
            } else {
                assert(s[i] == code_alphabet()[(c % 32) as int]);
            }
        }
    }
}

/// Each index names a room code, whose key is a room key.
pub proof fn lemma_index_is_room_code(c: nat)
    ensures
        is_room_code(index_bytes(c, CODE_LEN as nat)),
        is_room_key(index_key(c)),
        key_bytes(index_key(c), CODE_LEN as nat) == index_bytes(c, CODE_LEN as nat),
{
    lemma_index_bytes(c, CODE_LEN as nat);
    lemma_room_code_key(index_bytes(c, CODE_LEN as nat));
}

fn push_code_chars(out: &mut String, key: &mut u64, c: u64, n: usize)
    requires
        n <= CODE_LEN,
        *old(key) == 0,
    ensures
        *final(key) == code_key(index_bytes(c as nat, n as nat)),
        final(out)@ == old(out)@ + index_bytes(c as nat, n as nat).map_values(|b: u8| b as char),
    decreases n,
{
    let alphabet: [u8; 32] = [
        65u8, 66, 67, 68, 69, 70, 71, 72, 74, 75, 76, 77, 78, 80, 81, 82,
        83, 84, 85, 86, 87, 88, 89, 90, 50, 51, 52, 53, 54, 55, 56, 57,
    ];
    assert(alphabet@ =~= code_alphabet());
    let ghost start = out@;
    if n == 0 {
        assert(out@ =~= start + index_bytes(c as nat, 0).map_values(|b: u8| b as char));
        return;
    }
    push_code_chars(out, key, c / 32, n - 1);
    let b = alphabet[(c % 32) as usize];
    proof {
        lemma_key_bytes_of_code_key(index_bytes((c / 32) as nat, (n - 1) as nat));
        lemma_index_bytes((c / 32) as nat, (n - 1) as nat);
        lemma_pow256_monotone((n - 1) as nat, 5);
        reveal_with_fuel(pow256, 6);
        assert(index_bytes(c as nat, n as nat).drop_last() == index_bytes((c / 32) as nat, (n - 1) as nat));
    }
    *key = *key * 256 + b as u64;
    crate::text::push_char(out, b as char);
    assert(out@ =~= start + index_bytes(c as nat, n as nat).map_values(|b: u8| b as char));
}

/// The key and the text of the room code with index `c`.
pub fn room_code_at(c: u64) -> (r: (u64, String))
    requires
        c < CODE_SPACE,
    ensures
        r.0 == index_key(c as nat),
        r.1@ == index_chars(c as nat),
        is_room_key(r.0 as nat),
{
    let mut text = String::new();
    let mut key: u64 = 0;
    push_code_chars(&mut text, &mut key, c, CODE_LEN);
    proof {
        lemma_index_is_room_code(c as nat);
        assert(text@ =~= index_chars(c as nat));
    }
    (key, text)
}

} // verus!
