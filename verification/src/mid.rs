//! The machine identifier: a 64-bit word derived from the machine's id (or,
//! failing that, from the advertised IP address), used as a key stream that
//! masks persisted data.

use vstd::prelude::*;
use crate::text::{hex_digit_char, hex_padded, push_hex_padded, push_str, to_string};

verus! {

/// The identifier used where none can be derived.
pub const DEFAULT_MID: u64 = 0x6bd7ee27268c6c24;

/// The byte that pads the last, short chunk at position `i` (`i < 8`).
pub open spec fn pad_byte(i: int) -> u8 {
    if i == 0 {
        0x6b
    } else if i == 1 {
        0xd7
    } else if i == 2 {
        0xee
    } else if i == 3 {
        0x27
    } else if i == 4 {
        0x26
    } else if i == 5 {
        0x8c
    } else if i == 6 {
        0x6c
    } else {
        0x24
    }
}

fn pad(i: usize) -> (r: u8)
    requires
        i < 8,
    ensures
        r == pad_byte(i as int),
{
    if i == 0 {
        0x6b
    } else if i == 1 {
        0xd7
    } else if i == 2 {
        0xee
    } else if i == 3 {
        0x27
    } else if i == 4 {
        0x26
    } else if i == 5 {
        0x8c
    } else if i == 6 {
        0x6c
    } else {
        0x24
    }
}

/// `256^n`.
pub open spec fn pow256(n: nat) -> nat
    decreases n,
{
    if n == 0 {
        1
    } else {
        256 * pow256((n - 1) as nat)
    }
}

/// The little-endian value of a byte string.
pub open spec fn le_value(b: Seq<u8>) -> nat
    decreases b.len(),
{
    if b.len() == 0 {
        0
    } else {
        (b[0] + 256 * le_value(b.drop_first())) as nat
    }
}

/// The `n` lowest bytes of `m`, least significant first.
pub open spec fn le_bytes(m: nat, n: nat) -> Seq<u8>
    decreases n,
{
    if n == 0 {
        seq![]
    } else {
        seq![(m % 256) as u8] + le_bytes(m / 256, (n - 1) as nat)
    }
}

/// Chunk `k` of `bytes` (8 bytes from `8k` on), padded with `pad_byte`.
pub open spec fn padded_chunk(bytes: Seq<u8>, k: int) -> Seq<u8> {
    Seq::new(8, |i: int| if 8 * k + i < bytes.len() { bytes[8 * k + i] } else { pad_byte(i) })
}

/// The exclusive or of the little-endian words of the first `n` chunks.
pub open spec fn xor_chunks(bytes: Seq<u8>, n: nat) -> u64
    decreases n,
{
    if n == 0 {
        0
    } else {
        xor_chunks(bytes, (n - 1) as nat) ^ (le_value(padded_chunk(bytes, n - 1)) as u64)
    }
}

/// The identifier derived from a byte string: the exclusive or of its 8-byte
/// chunks read little-endian (the last chunk padded), or `DEFAULT_MID` where
/// there are no bytes.
pub open spec fn mid_of(bytes: Option<Seq<u8>>) -> u64 {
    match bytes {
        Some(b) => if b.len() == 0 {
            DEFAULT_MID
        } else {
            xor_chunks(b, ((b.len() + 7) / 8) as nat)
        },
        None => DEFAULT_MID,
    }
}

proof fn lemma_le_value_bound(b: Seq<u8>)
    ensures
        le_value(b) < pow256(b.len()),
    decreases b.len(),
{
    if b.len() > 0 {
        lemma_le_value_bound(b.drop_first());
        let x = le_value(b.drop_first());
        let p = pow256(b.drop_first().len());
        let b0 = b[0] as int;
        assert(b0 + 256 * x < 256 * p) by (nonlinear_arith)
            requires
                x < p,
                0 <= b0 < 256,
        ;
    }
}

proof fn lemma_pow256_mono(a: nat, b: nat)
    requires
        a <= b,
    ensures
        pow256(a) <= pow256(b),
    decreases b - a,
{
    if a < b {
        lemma_pow256_mono(a, (b - 1) as nat);
    }
}

proof fn lemma_pow256_8()
    ensures
        pow256(8) == 0x1_0000_0000_0000_0000,
{
    assert(pow256(0) == 1);
    assert(pow256(1) == 256);
    assert(pow256(2) == 0x1_0000);
    assert(pow256(3) == 0x100_0000);
    assert(pow256(4) == 0x1_0000_0000);
    assert(pow256(5) == 0x100_0000_0000);
    assert(pow256(6) == 0x1_0000_0000_0000);
    assert(pow256(7) == 0x100_0000_0000_0000);
}

/// The little-endian word of an 8-byte buffer, as `u64::from_le_bytes` reads it.
fn word_from_le(buf: &Vec<u8>) -> (r: u64)
    requires
        buf.len() == 8,
    ensures
        r == le_value(buf@),
{
    proof {
        lemma_le_value_bound(buf@);
        lemma_pow256_8();
    }
    let mut acc: u128 = 0;
    let mut i: usize = 8;
    while i > 0
        invariant
            buf.len() == 8,
            i <= 8,
            acc == le_value(buf@.skip(i as int)),
            acc < pow256((8 - i) as nat),
            pow256(8) == 0x1_0000_0000_0000_0000,
        decreases i,
    {
        i -= 1;
        proof {
            assert(buf@.skip(i as int).drop_first() =~= buf@.skip(i + 1));
            lemma_le_value_bound(buf@.skip(i as int));
            lemma_pow256_mono((8 - i) as nat, 8);
        }
        acc = acc * 256 + buf[i] as u128;
    }
    assert(buf@.skip(0) =~= buf@);
    acc as u64
}

/// The identifier derived from a byte string (see `mid_of`).
pub fn mid_from_bytes(bytes: Option<Vec<u8>>) -> (r: u64)
    ensures
        r == mid_of(match bytes {
            Some(b) => Some(b@),
            None => None::<Seq<u8>>,
        }),
{
    match bytes {
        None => DEFAULT_MID,
        Some(b) => {
            if b.len() == 0 {
                return DEFAULT_MID;
            }
            let n = b.len() / 8 + if b.len() % 8 == 0 {
                0
            } else {
                1
            };
            assert(n == (b.len() + 7) / 8);
            let mut acc: u64 = 0;
            let mut k: usize = 0;
            while k < n
                invariant
                    n == (b.len() + 7) / 8,
                    k <= n,
                    acc == xor_chunks(b@, k as nat),
                decreases n - k,
            {
                let mut buf: Vec<u8> = Vec::new();
                let mut i: usize = 0;
                while i < 8
                    invariant
                        k < n,
                        n == (b.len() + 7) / 8,
                        i <= 8,
                        buf@ == padded_chunk(b@, k as int).take(i as int),
                    decreases 8 - i,
                {
                    if k * 8 + i < b.len() {
                        buf.push(b[k * 8 + i]);
                    } else {
                        buf.push(pad(i));
                    }
                    i += 1;
                    assert(buf@ =~= padded_chunk(b@, k as int).take(i as int));
                }
                assert(buf@ =~= padded_chunk(b@, k as int));
                let w = word_from_le(&buf);
                acc = acc ^ w;
                k += 1;
            }
            acc
        },
    }
}

/// The identifier's bytes, least significant first (`u64::to_le_bytes`).
pub open spec fn mid_key(mid: u64) -> Seq<u8> {
    le_bytes(mid as nat, 8)
}

fn mid_key_bytes(mid: u64) -> (r: Vec<u8>)
    ensures
        r@ == mid_key(mid),
        r@.len() == 8,
{
    let mut out: Vec<u8> = Vec::new();
    let mut m: u64 = mid;
    let mut j: usize = 0;
    while j < 8
        invariant
            j <= 8,
            out@.len() == j,
            out@ + le_bytes(m as nat, (8 - j) as nat) == le_bytes(mid as nat, 8),
        decreases 8 - j,
    {
        let ghost before = out@;
        out.push((m % 256) as u8);
        assert(le_bytes(m as nat, (8 - j) as nat) == seq![(m % 256) as u8] + le_bytes(
            (m / 256) as nat,
            (8 - j - 1) as nat,
        ));
        assert(out@ + le_bytes((m / 256) as nat, (8 - j - 1) as nat) =~= before + le_bytes(
            m as nat,
            (8 - j) as nat,
        ));
        m = m / 256;
        j += 1;
    }
    assert(out@ =~= le_bytes(mid as nat, 8));
    out
}

/// `bytes` masked with the identifier: byte `i` is exclusive-ored with byte
/// `i % 8` of the identifier's little-endian bytes.
pub open spec fn masked(bytes: Seq<u8>, mid: u64) -> Seq<u8> {
    Seq::new(bytes.len(), |i: int| bytes[i] ^ mid_key(mid)[i % 8])
}

/// Masks `bytes` with the identifier, in place.
pub fn apply_mid(bytes: &mut Vec<u8>, mid: u64)
    ensures
        final(bytes)@ == masked(old(bytes)@, mid),
{
    let key = mid_key_bytes(mid);
    let n = bytes.len();
    let mut i: usize = 0;
    while i < n
        invariant
            n == bytes.len(),
            n == old(bytes)@.len(),
            key@ == mid_key(mid),
            key@.len() == 8,
            i <= n,
            forall|j: int| 0 <= j < i ==> bytes@[j] == old(bytes)@[j] ^ mid_key(mid)[j % 8],
            forall|j: int| i <= j < n ==> bytes@[j] == old(bytes)@[j],
        decreases n - i,
    {
        let b = bytes[i] ^ key[i % 8];
        bytes.set(i, b);
        i += 1;
    }
    assert(bytes@ =~= masked(old(bytes)@, mid));
}

/// Masking twice with the same identifier restores the bytes.
pub proof fn masking_is_an_involution(bytes: Seq<u8>, mid: u64)
    ensures
        masked(masked(bytes, mid), mid) == bytes,
{
    assert forall|i: int| 0 <= i < bytes.len() implies masked(masked(bytes, mid), mid)[i] == bytes[i] by {
        let x = bytes[i];
        let k = mid_key(mid)[i % 8];
        assert((x ^ k) ^ k == x) by (bit_vector);
    }
    assert(masked(masked(bytes, mid), mid) =~= bytes);
}

/// The value of a hexadecimal digit (either case).
pub open spec fn hex_value(c: char) -> Option<nat> {
    if '0' <= c && c <= '9' {
        Some(((c as u32) - ('0' as u32)) as nat)
    } else if 'a' <= c && c <= 'f' {
        Some(((c as u32) - ('a' as u32) + 10) as nat)
    } else if 'A' <= c && c <= 'F' {
        Some(((c as u32) - ('A' as u32) + 10) as nat)
    } else {
        None
    }
}

/// The bytes a hexadecimal text stands for: pairs of digits, high digit
/// first; `None` for an odd length or a character that is no digit.
pub open spec fn hex_decoded(s: Seq<char>) -> Option<Seq<u8>> {
    if s.len() % 2 == 0 && forall|i: int| 0 <= i < s.len() ==> (#[trigger] hex_value(s[i])) is Some {
        Some(
            Seq::new(
                s.len() / 2,
                |i: int| (hex_value(s[2 * i])->0 * 16 + hex_value(s[2 * i + 1])->0) as u8,
            ),
        )
    } else {
        None
    }
}

/// `hex::decode` of the text's bytes: as `hex_decoded` says (characters
/// outside ASCII are never digits, so their bytes are refused too).
#[verifier::external_body]
fn decode_hex(s: &str) -> (r: Option<Vec<u8>>)
    ensures
        match hex_decoded(s@) {
            Some(b) => r matches Some(v) && v@ == b,
            None => r is None,
        },
{
    hex::decode(s).ok()
}

/// The identifier: from the machine's id where it is hexadecimal, else
/// from the serialized advertised address, else `DEFAULT_MID`.
pub open spec fn machine_mid(machine_id: Option<Seq<char>>, ip_bytes: Option<Seq<u8>>) -> u64 {
    let from_id = match machine_id {
        Some(s) => hex_decoded(s),
        None => None,
    };
    match from_id {
        Some(b) => mid_of(Some(b)),
        None => mid_of(ip_bytes),
    }
}

/// Derives the identifier from the machine's id (hexadecimal text) or, where
/// that is absent or no hexadecimal, from the serialized advertised address.
pub fn machine_id_word(machine_id: Option<&str>, ip_bytes: Option<Vec<u8>>) -> (r: u64)
    ensures
        r == machine_mid(
            match machine_id {
                Some(s) => Some(s@),
                None => None::<Seq<char>>,
            },
            match ip_bytes {
                Some(b) => Some(b@),
                None => None::<Seq<u8>>,
            },
        ),
{
    let from_id = match machine_id {
        Some(s) => decode_hex(s),
        None => None,
    };
    match from_id {
        Some(b) => mid_from_bytes(Some(b)),
        None => mid_from_bytes(ip_bytes),
    }
}

/// The storage key of the persisted overrides: `ovrd-` and the identifier
/// as 16 lower-case hexadecimal digits.
pub open spec fn store_key(mid: u64) -> Seq<char> {
    seq!['o', 'v', 'r', 'd', '-'] + hex_padded(mid as nat, 16)
}

/// Builds the storage key of the persisted overrides.
pub fn get_store_key(mid: u64) -> (r: String)
    ensures
        r@ == store_key(mid),
{
    let mut r = to_string("ovrd-");
    push_hex_padded(&mut r, mid, 16);
    proof {
        reveal_strlit("ovrd-");
    }
    assert(r@ =~= store_key(mid));
    r
}


/// A hexadecimal machine id takes precedence: where it decodes, the
/// identifier is derived from its bytes, whatever the advertised address
/// is; only where the id is absent or no hexadecimal does the address
/// decide.
pub proof fn machine_id_takes_precedence(machine_id: Seq<char>, ip: Option<Seq<u8>>, other_ip: Option<Seq<u8>>)
    ensures
        hex_decoded(machine_id) matches Some(b) ==> machine_mid(Some(machine_id), ip) == mid_of(Some(b)),
        hex_decoded(machine_id) is Some ==> machine_mid(Some(machine_id), ip) == machine_mid(Some(machine_id), other_ip),
        hex_decoded(machine_id) is None ==> machine_mid(Some(machine_id), ip) == mid_of(ip),
        machine_mid(None, ip) == mid_of(ip),
{
}

} // verus!
