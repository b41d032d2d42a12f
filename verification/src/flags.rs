//! Bit sets handed out by the Allnodes service (voting flags and service
//! capabilities), and the process-wide second flag word.
//!
//! `Flags` and `ServiceCapabilities` model the service's protocol messages
//! as plain bit words. The meaning of each bit is set by the service's
//! protocol definitions; the bit positions used in this library are taken
//! as given and are not checked against those definitions here.

use vstd::prelude::*;
use vstd::arithmetic::power2::*;
use vstd::bits::*;

verus! {

/// Whether bit `i` of `bits` is set.
pub open spec fn bit_set(bits: u64, i: nat) -> bool {
    (bits as nat / pow2(i)) % 2 == 1
}

/// The `len`-bit field of `bits` that starts at bit `start`.
pub open spec fn bit_field(bits: u64, start: nat, len: nat) -> nat {
    (bits as nat / pow2(start)) % pow2(len)
}

fn shifted(bits: u64, start: u64) -> (r: u64)
    requires
        start < 64,
    ensures
        r == bits as nat / pow2(start as nat),
{
    proof {
        lemma_u64_shr_is_div(bits, start);
    }
    bits >> start
}

/// The bit set of voting flags that the Allnodes service returns.
#[derive(Clone, Copy, Debug)]
pub struct Flags {
    pub bits: u64,
}

impl Flags {
    /// Flags from their bits.
    pub fn new(bits: u64) -> (r: Flags)
        ensures
            r.bits == bits,
    {
        Flags { bits }
    }

    /// Whether flag `i` is set.
    pub fn is_set(&self, i: u64) -> (r: bool)
        requires
            i < 64,
        ensures
            r == bit_set(self.bits, i as nat),
    {
        shifted(self.bits, i) % 2 == 1
    }

    /// Flag `i` as a number: 1 where it is set, else 0.
    pub fn bit(&self, i: u64) -> (r: u64)
        requires
            i < 64,
        ensures
            r == (if bit_set(self.bits, i as nat) {
                1int
            } else {
                0int
            }),
    {
        shifted(self.bits, i) % 2
    }

    /// The `len`-bit number stored from bit `start` on.
    pub fn value(&self, start: u64, len: u64) -> (r: u64)
        requires
            start < 64,
            len < 64,
        ensures
            r == bit_field(self.bits, start as nat, len as nat),
    {
        proof {
            lemma_u64_pow2_no_overflow(len as nat);
            lemma_u64_shl_is_mul(1, len);
            lemma_pow2_pos(len as nat);
        }
        let m: u64 = 1u64 << len;
        shifted(self.bits, start) % m
    }
}

impl Default for Flags {
    fn default() -> (r: Flags)
        ensures
            r.bits == 0,
    {
        Flags { bits: 0 }
    }
}

/// The bit set of request kinds that an Allnodes endpoint serves.
#[derive(Clone, Copy, Debug)]
pub struct ServiceCapabilities {
    pub bits: u64,
}

impl ServiceCapabilities {
    /// Capabilities from their bits.
    pub fn new(bits: u64) -> (r: ServiceCapabilities)
        ensures
            r.bits == bits,
    {
        ServiceCapabilities { bits }
    }

    /// Whether the endpoint serves requests of kind `capability`; kinds past
    /// the 64 bits are not served.
    pub fn is_supported(&self, capability: usize) -> (r: bool)
        ensures
            r == (capability < 64 && bit_set(self.bits, capability as nat)),
    {
        if capability < 64 {
            shifted(self.bits, capability as u64) % 2 == 1
        } else {
            false
        }
    }
}

/// The second flag word for a clock reading of `millis` milliseconds since
/// the Unix epoch: the reading cut to 64 bits, with bit 0 set exactly when the
/// experimental feature is on.
pub open spec fn flags2_word(millis: u128, experimental_feature: bool) -> nat {
    let low = millis % 0x1_0000_0000_0000_0000;
    (low - low % 2) as nat + if experimental_feature {
        1nat
    } else {
        0nat
    }
}

/// Builds the second flag word from a clock reading.
pub fn flags2_from_millis(millis: u128, experimental_feature: bool) -> (r: u64)
    ensures
        r == flags2_word(millis, experimental_feature),
{
    let low: u64 = (millis % 0x1_0000_0000_0000_0000u128) as u64;
    let r = if experimental_feature {
        low | 1
    } else {
        low & (u64::MAX ^ 1)
    };
    assert(low | 1 == low - low % 2 + 1) by (bit_vector);
    assert(low & (0xffff_ffff_ffff_ffffu64 ^ 1) == low - low % 2) by (bit_vector);
    r
}

/// Milliseconds since the Unix epoch (zero for a clock set before it), from
/// `SystemTime::now`; nothing is claimed of the reading.
#[verifier::external_body]
fn unix_millis_now() -> u128 {
    std::time::SystemTime::now().duration_since(std::time::SystemTime::UNIX_EPOCH).unwrap_or_default().as_millis()
}

/// The initial second flag word: the current time in milliseconds with bit 0
/// standing for the experimental feature.
pub fn init_flags2(experimental_feature: bool) -> (r: u64)
    ensures
        (r % 2 == 1) == experimental_feature,
{
    let millis = unix_millis_now();
    let r = flags2_from_millis(millis, experimental_feature);
    assert((millis % 0x1_0000_0000_0000_0000) % 2 < 2);
    r
}

/// Whether the experimental feature is on in a second flag word.
pub fn experimental_feature_enabled(flags2: u64) -> (r: bool)
    ensures
        r == (flags2 % 2 == 1),
{
    assert(flags2 & 1 == flags2 % 2) by (bit_vector);
    flags2 & 1 == 1
}

} // verus!
