//! Start-up decisions: which virtual core the XDP retransmitter is pinned
//! to, and whether XDP retransmission is set up at all.

use vstd::prelude::*;
use crate::storage::CoreConfig;

verus! {

/// Whether one of the first half of the cores holds the PoH virtual core
/// (compared as a `u32`), before index `k`.
pub open spec fn poh_in_first_half_before(cores: Seq<CoreConfig>, poh: usize, k: int) -> bool {
    exists|i: int| 0 <= i < k && i < cores.len() / 2 && #[trigger] cores[i].vcore_ids@.contains(poh as u32)
}

/// The virtual core recommended for XDP: where the PoH core is pinned and
/// lies on one of the first half of the cores, the first virtual core of the
/// last core; else 0.
pub open spec fn xdp_core(cores: Seq<CoreConfig>, poh: Option<usize>) -> nat {
    match poh {
        Some(p) => if poh_in_first_half_before(cores, p, (cores.len() / 2) as int) {
            cores[cores.len() - 1].vcore_ids@[0] as nat
        } else {
            0
        },
        None => 0,
    }
}

fn contains_u32(v: &Vec<u32>, x: u32) -> (r: bool)
    ensures
        r == v@.contains(x),
{
    let mut i: usize = 0;
    while i < v.len()
        invariant
            i <= v.len(),
            forall|j: int| 0 <= j < i ==> v@[j] != x,
        decreases v.len() - i,
    {
        if v[i] == x {
            assert(v@[i as int] == x);
            return true;
        }
        i += 1;
    }
    false
}

/// The virtual core recommended for the XDP retransmitter.
pub fn xdp_recommended_vcore_id(cores: &Vec<CoreConfig>, poh_vcore_id: Option<usize>) -> (r: usize)
    requires
        poh_vcore_id matches Some(p) && poh_in_first_half_before(cores@, p, (cores@.len() / 2) as int)
            ==> cores@[cores@.len() - 1].vcore_ids@.len() > 0,
    ensures
        r == xdp_core(cores@, poh_vcore_id),
{
    match poh_vcore_id {
        None => 0,
        Some(p) => {
            let half = cores.len() / 2;
            let target = p as u32;
            let mut i: usize = 0;
            while i < half
                invariant
                    half == cores@.len() / 2,
                    target == p as u32,
                    poh_vcore_id == Some(p),
                    poh_in_first_half_before(cores@, p, (cores@.len() / 2) as int)
                        ==> cores@[cores@.len() - 1].vcore_ids@.len() > 0,
                    i <= half,
                    !poh_in_first_half_before(cores@, p, i as int),
                decreases half - i,
            {
                if contains_u32(&cores[i].vcore_ids, target) {
                    assert(cores@[i as int].vcore_ids@.contains(p as u32));
                    assert(poh_in_first_half_before(cores@, p, half as int));
                    let last = cores.len() - 1;
                    return cores[last].vcore_ids[0] as usize;
                }
                i += 1;
            }
            0
        },
    }
}

/// Whether to set up XDP retransmission: it is not configured yet and XDP,
/// an interface or zero-copy was asked for.
pub fn should_configure_xdp(already_configured: bool, enable_xdp: bool, interface_given: bool, zero_copy: bool) -> (r: bool)
    ensures
        r == (!already_configured && (enable_xdp || interface_given || zero_copy)),
{
    !already_configured && (enable_xdp || interface_given || zero_copy)
}

} // verus!
