//! Allnodes service endpoints: the built-in mirror list, the override read
//! from the environment, the choice of the fastest mirror group, and the
//! retry policy of a call across the chosen endpoints.

use vstd::prelude::*;
use vstd::string::*;
use crate::flags::ServiceCapabilities;
use crate::text::{decimal, push_char, push_decimal, push_str, trim, trim_str, string_views};

verus! {

/// The data centres that host Allnodes mirrors.
pub open spec fn location(k: int) -> Seq<char> {
    if k == 0 {
        "ash"@
    } else if k == 1 {
        "fra"@
    } else {
        "tyo"@
    }
}

/// The ports each data centre serves on.
pub open spec fn port(k: int) -> nat {
    if k == 0 {
        10280
    } else if k == 1 {
        20280
    } else {
        21280
    }
}

/// The address of mirror `i` (from 1) in data centre `loc` on `port`.
pub open spec fn endpoint_uri(loc: Seq<char>, i: nat, port: nat) -> Seq<char> {
    "https://solana-server-"@ + loc + "-"@ + decimal(i) + ".allnodes.me:"@ + decimal(port)
}

fn location_name(k: usize) -> (r: &'static str)
    requires
        k < 3,
    ensures
        r@ == location(k as int),
{
    if k == 0 {
        "ash"
    } else if k == 1 {
        "fra"
    } else {
        "tyo"
    }
}

fn port_number(k: usize) -> (r: u64)
    requires
        k < 3,
    ensures
        r == port(k as int),
{
    if k == 0 {
        10280
    } else if k == 1 {
        20280
    } else {
        21280
    }
}

/// Group `g` of the built-in endpoints holds the three mirrors of its data
/// centre and port.
pub open spec fn group_ok(v: Seq<Vec<String>>, g: int) -> bool {
    &&& v[g]@.len() == 3
    &&& forall|m: int| 0 <= m < 3 ==> #[trigger] v[g]@[m]@ == endpoint_uri(location(g / 3), (m + 1) as nat, port(g % 3))
}

/// The built-in endpoints: for each data centre and each port (in that
/// order), a group of three mirrors.
pub fn get_allnodes_endpoints() -> (r: Vec<Vec<String>>)
    ensures
        r@.len() == 9,
        forall|g: int| 0 <= g < 9 ==> #[trigger] group_ok(r@, g),
{
    let mut endpoints: Vec<Vec<String>> = Vec::new();
    let mut l: usize = 0;
    while l < 3
        invariant
            l <= 3,
            endpoints@.len() == 3 * l,
            forall|g: int| 0 <= g < 3 * l ==> #[trigger] group_ok(endpoints@, g),
        decreases 3 - l,
    {
        let mut p: usize = 0;
        while p < 3
            invariant
                l < 3,
                p <= 3,
                endpoints@.len() == 3 * l + p,
                forall|g: int| 0 <= g < 3 * l + p ==> #[trigger] group_ok(endpoints@, g),
            decreases 3 - p,
        {
            let mut mirrors: Vec<String> = Vec::new();
            let mut i: u64 = 1;
            while i <= 3
                invariant
                    l < 3,
                    p < 3,
                    1 <= i <= 4,
                    mirrors@.len() == i - 1,
                    forall|m: int|
                        0 <= m < i - 1 ==> #[trigger] mirrors@[m]@ == endpoint_uri(location(l as int), (m + 1) as nat, port(p as int)),
                decreases 4 - i,
            {
                let mut uri = String::new();
                push_str(&mut uri, "https://solana-server-");
                push_str(&mut uri, location_name(l));
                push_str(&mut uri, "-");
                push_decimal(&mut uri, i);
                push_str(&mut uri, ".allnodes.me:");
                push_decimal(&mut uri, port_number(p));
                assert(uri@ =~= endpoint_uri(location(l as int), i as nat, port(p as int)));
                mirrors.push(uri);
                i += 1;
            }
            let ghost g = (3 * l + p) as int;
            assert(g / 3 == l as int && g % 3 == p as int);
            let ghost before = endpoints@;
            let ghost mv = mirrors@;
            assert(mv.len() == 3);
            endpoints.push(mirrors);
            assert forall|h: int| 0 <= h < 3 * l + p + 1 implies #[trigger] group_ok(endpoints@, h) by {
                if h < 3 * l + p {
                    assert(group_ok(before, h));
                    assert(endpoints@[h] == before[h]);
                } else {
                    assert(h == g);
                    assert(endpoints@[h]@ == mv);
                    assert forall|m: int| 0 <= m < 3 implies #[trigger] endpoints@[h]@[m]@ == endpoint_uri(location(h / 3), (m + 1) as nat, port(h % 3)) by {
                        assert(mv[m]@ == endpoint_uri(location(l as int), (m + 1) as nat, port(p as int)));
                    }
                }
            }
            p += 1;
        }
        l += 1;
    }
    endpoints
}

/// Whether `c` separates endpoints in the override list.
pub open spec fn is_separator(c: char) -> bool {
    c == ',' || c == ';'
}

/// The pieces of `s` between separators, empty ones included (`str::split`).
pub open spec fn pieces(s: Seq<char>) -> Seq<Seq<char>>
    decreases s.len(),
{
    if s.len() == 0 {
        seq![seq![]]
    } else {
        let p = pieces(s.drop_last());
        if is_separator(s.last()) {
            p.push(seq![])
        } else {
            p.update(p.len() - 1, p.last().push(s.last()))
        }
    }
}

proof fn lemma_pieces_len(s: Seq<char>)
    ensures
        pieces(s).len() >= 1,
    decreases s.len(),
{
    if s.len() > 0 {
        lemma_pieces_len(s.drop_last());
    }
}

/// The endpoint override: none where the text is blank, else its pieces
/// between commas and semicolons.
pub open spec fn endpoints_override(s: Seq<char>) -> Option<Seq<Seq<char>>> {
    if trim(s).len() == 0 {
        None
    } else {
        Some(pieces(s))
    }
}

/// Reads the endpoint override from the environment variable's value.
pub fn parse_endpoints_override(value: &str) -> (r: Option<Vec<String>>)
    ensures
        match endpoints_override(value@) {
            Some(p) => r matches Some(v) && string_views(v@) == p,
            None => r is None,
        },
{
    let t = trim_str(value);
    if t.as_str().unicode_len() == 0 {
        return None;
    }
    let n = value.unicode_len();
    let mut out: Vec<String> = Vec::new();
    let mut cur = String::new();
    let mut i: usize = 0;
    while i < n
        invariant
            n == value@.len(),
            i <= n,
            pieces(value@.take(i as int)) == string_views(out@).push(cur@),
        decreases n - i,
    {
        let c = value.get_char(i);
        proof {
            lemma_pieces_len(value@.take(i as int));
            assert(value@.take(i + 1).drop_last() =~= value@.take(i as int));
        }
        if c == ',' || c == ';' {
            let ghost before = string_views(out@);
            let ghost cv = cur@;
            out.push(cur);
            cur = String::new();
            assert(string_views(out@) =~= before.push(cv));
            assert(pieces(value@.take(i + 1)) =~= string_views(out@).push(cur@));
        } else {
            push_char(&mut cur, c);
            assert(pieces(value@.take(i + 1)) =~= string_views(out@).push(cur@));
        }
        i += 1;
    }
    let ghost before = string_views(out@);
    let ghost cv = cur@;
    out.push(cur);
    assert(string_views(out@) =~= before.push(cv));
    assert(value@.take(n as int) =~= value@);
    Some(out)
}

/// `Duration::MAX` in nanoseconds: the latency key of a group with no
/// responsive mirror.
pub const NO_LATENCY: u128 = 18_446_744_073_709_551_615_999_999_999;

/// The smallest latency of a group, or `NO_LATENCY` for an empty group.
pub open spec fn group_key(g: Seq<u128>) -> u128
    decreases g.len(),
{
    if g.len() == 0 {
        NO_LATENCY
    } else {
        let k = group_key(g.drop_last());
        if g.last() < k {
            g.last()
        } else {
            k
        }
    }
}

/// Group `i` comes first among those with the smallest key.
pub open spec fn is_first_fastest(groups: Seq<Seq<u128>>, i: int) -> bool {
    &&& 0 <= i < groups.len()
    &&& forall|j: int| 0 <= j < groups.len() ==> group_key(groups[i]) <= #[trigger] group_key(groups[j])
    &&& forall|j: int| 0 <= j < i ==> group_key(groups[i]) < #[trigger] group_key(groups[j])
}

fn key_of(g: &Vec<u128>) -> (r: u128)
    ensures
        r == group_key(g@),
{
    let mut k: u128 = NO_LATENCY;
    let mut i: usize = 0;
    assert(g@.take(0) =~= seq![]);
    while i < g.len()
        invariant
            i <= g@.len(),
            k == group_key(g@.take(i as int)),
        decreases g.len() - i,
    {
        assert(g@.take(i + 1).drop_last() =~= g@.take(i as int));
        if g[i] < k {
            k = g[i];
        }
        i += 1;
    }
    assert(g@.take(i as int) =~= g@);
    k
}

/// The mirror group to use, by index: the first of the groups whose fastest
/// mirror is fastest, provided it has a responsive mirror.
pub fn select_mirror_group(groups: &Vec<Vec<u128>>) -> (r: Option<usize>)
    ensures
        match r {
            Some(i) => is_first_fastest(groups@.map_values(|g: Vec<u128>| g@), i as int)
                && groups@[i as int]@.len() > 0,
            None => groups@.len() == 0 || exists|i: int|
                is_first_fastest(groups@.map_values(|g: Vec<u128>| g@), i) && groups@[i]@.len() == 0,
        },
{
    let ghost gs = groups@.map_values(|g: Vec<u128>| g@);
    if groups.len() == 0 {
        return None;
    }
    let mut best: usize = 0;
    let mut best_key = key_of(&groups[0]);
    let mut i: usize = 1;
    while i < groups.len()
        invariant
            gs == groups@.map_values(|g: Vec<u128>| g@),
            1 <= i <= groups@.len(),
            best < i,
            best_key == group_key(gs[best as int]),
            forall|j: int| 0 <= j < i ==> best_key <= #[trigger] group_key(gs[j]),
            forall|j: int| 0 <= j < best ==> best_key < #[trigger] group_key(gs[j]),
        decreases groups.len() - i,
    {
        let k = key_of(&groups[i]);
        assert(gs[i as int] == groups@[i as int]@);
        if k < best_key {
            best = i;
            best_key = k;
        }
        i += 1;
    }
    assert(is_first_fastest(gs, best as int));
    if groups[best].len() == 0 {
        None
    } else {
        Some(best)
    }
}

/// Whether an endpoint serves the validator's cluster.
pub fn serves_shred_version(service_shred_version: u32, shred_version: u16) -> (r: bool)
    ensures
        r == (service_shred_version == shred_version),
{
    service_shred_version == shred_version as u32
}

/// Whether a client version text is fit for a user-agent header: every
/// byte is printable (at least 32 and not 127).
pub open spec fn valid_client_version(bytes: Seq<u8>) -> bool {
    forall|i: int| 0 <= i < bytes.len() ==> #[trigger] bytes[i] >= 32 && bytes[i] != 127
}

/// Checks a client version text.
pub fn is_valid_client_version(version: &str) -> (r: bool)
    ensures
        r == valid_client_version(version.spec_bytes()),
{
    let bytes = version.as_bytes();
    let mut i: usize = 0;
    while i < bytes.len()
        invariant
            i <= bytes@.len(),
            bytes@ == version.spec_bytes(),
            forall|j: int| 0 <= j < i ==> #[trigger] bytes@[j] >= 32 && bytes@[j] != 127,
        decreases bytes.len() - i,
    {
        if bytes[i] < 32 || bytes[i] == 127 {
            return false;
        }
        i += 1;
    }
    true
}

/// The client version, which must be valid.
pub fn get_client_version(version: &str) -> (r: &str)
    requires
        valid_client_version(version.spec_bytes()),
    ensures
        r@ == version@,
{
    version
}

/// Attempts a call makes on its first endpoint beyond the first try.
pub const MAX_RPC_CALL_ATTEMPTS: usize = 5;

/// Where a call across the endpoints stands: the endpoint in use and the
/// retries left on it.
#[derive(Clone, Copy, Debug)]
pub struct CallState {
    pub client_index: usize,
    pub attempts_left: usize,
}

/// What the caller does next.
#[derive(Clone, Copy, Debug, PartialEq, Eq, Structural)]
pub enum CallAction {
    /// Send the request to this endpoint.
    Send { client_index: usize },
    /// Wait the retry interval, then send to this endpoint again.
    SleepThenSend { client_index: usize },
    /// The last response succeeded: return it.
    ReturnOk,
    /// Every endpoint failed: return the last error.
    ReturnErr,
    /// The endpoint does not serve this kind of request: give up.
    Unsupported,
}

/// Whether endpoint `i` serves requests of kind `capability` (any, where none is given).
pub open spec fn serves(caps: Seq<ServiceCapabilities>, i: int, capability: Option<usize>) -> bool {
    match capability {
        Some(c) => c < 64 && crate::flags::bit_set(caps[i].bits, c as nat),
        None => true,
    }
}

/// The sends a call may still make from a state, over `n` endpoints.
pub open spec fn sends_left(s: CallState, n: nat) -> int {
    s.attempts_left + 1 + 2 * (n - 1 - s.client_index)
}

fn serves_exec(caps: &Vec<ServiceCapabilities>, i: usize, capability: Option<usize>) -> (r: bool)
    requires
        i < caps.len(),
    ensures
        r == serves(caps@, i as int, capability),
{
    match capability {
        Some(c) => caps[i].is_supported(c),
        None => true,
    }
}

/// Starts a call: the first endpoint, with all retries, where it serves the request.
pub fn call_start(caps: &Vec<ServiceCapabilities>, capability: Option<usize>) -> (r: (CallState, CallAction))
    requires
        caps.len() > 0,
    ensures
        r.0.client_index == 0,
        r.0.attempts_left == MAX_RPC_CALL_ATTEMPTS,
        r.1 == (if serves(caps@, 0, capability) {
            CallAction::Send { client_index: 0 }
        } else {
            CallAction::Unsupported
        }),
{
    let s = CallState { client_index: 0, attempts_left: MAX_RPC_CALL_ATTEMPTS };
    if serves_exec(caps, 0, capability) {
        (s, CallAction::Send { client_index: 0 })
    } else {
        (s, CallAction::Unsupported)
    }
}

/// The step of a call after a response: a success is returned; a failure is
/// retried on the same endpoint while retries are left, else the call moves
/// to the next endpoint with one retry, and fails after the last one.
pub fn call_next(
    s: CallState,
    caps: &Vec<ServiceCapabilities>,
    capability: Option<usize>,
    succeeded: bool,
) -> (r: (CallState, CallAction))
    requires
        s.client_index < caps.len(),
    ensures
        succeeded ==> r.1 == CallAction::ReturnOk,
        !succeeded && s.attempts_left > 0 ==> r.0 == (CallState {
            client_index: s.client_index,
            attempts_left: (s.attempts_left - 1) as usize,
        }) && r.1 == (CallAction::SleepThenSend { client_index: s.client_index }),
        !succeeded && s.attempts_left == 0 && s.client_index + 1 >= caps.len() ==> r.1
            == CallAction::ReturnErr,
        !succeeded && s.attempts_left == 0 && s.client_index + 1 < caps.len() ==> r.0 == (CallState {
            client_index: (s.client_index + 1) as usize,
            attempts_left: 1,
        }) && r.1 == (if serves(caps@, s.client_index + 1, capability) {
            CallAction::Send { client_index: (s.client_index + 1) as usize }
        } else {
            CallAction::Unsupported
        }),
        r.0.client_index < caps.len(),
        (r.1 is Send || r.1 is SleepThenSend) ==> 0 <= sends_left(r.0, caps.len() as nat) < sends_left(s, caps.len() as nat),
{
    if succeeded {
        return (s, CallAction::ReturnOk);
    }
    if s.attempts_left > 0 {
        let next = CallState { client_index: s.client_index, attempts_left: s.attempts_left - 1 };
        return (next, CallAction::SleepThenSend { client_index: s.client_index });
    }
    let i = s.client_index + 1;
    if i >= caps.len() {
        return (s, CallAction::ReturnErr);
    }
    let next = CallState { client_index: i, attempts_left: 1 };
    if serves_exec(caps, i, capability) {
        (next, CallAction::Send { client_index: i })
    } else {
        (next, CallAction::Unsupported)
    }
}


/// The characters of `s` other than ',' and ';'.
pub open spec fn without_list_separators(s: Seq<char>) -> Seq<char>
    decreases s.len(),
{
    if s.len() == 0 {
        seq![]
    } else if s.last() == ',' || s.last() == ';' {
        without_list_separators(s.drop_last())
    } else {
        without_list_separators(s.drop_last()).push(s.last())
    }
}

/// The number of ',' and ';' characters in `s`.
pub open spec fn list_separator_count(s: Seq<char>) -> nat
    decreases s.len(),
{
    if s.len() == 0 {
        0
    } else if s.last() == ',' || s.last() == ';' {
        list_separator_count(s.drop_last()) + 1
    } else {
        list_separator_count(s.drop_last())
    }
}

/// The pieces written one after another.
pub open spec fn concat_pieces(p: Seq<Seq<char>>) -> Seq<char>
    decreases p.len(),
{
    if p.len() == 0 {
        seq![]
    } else {
        concat_pieces(p.drop_last()) + p.last()
    }
}

proof fn lemma_pieces_split(s: Seq<char>)
    ensures
        pieces(s).len() == list_separator_count(s) + 1,
        concat_pieces(pieces(s)) == without_list_separators(s),
        forall|i: int, k: int| 0 <= i < pieces(s).len() && 0 <= k < pieces(s)[i].len()
            ==> (#[trigger] pieces(s)[i][k]) != ',' && pieces(s)[i][k] != ';',
    decreases s.len(),
{
    if s.len() == 0 {
        let q: Seq<Seq<char>> = seq![seq![]];
        assert(q.drop_last() =~= Seq::<Seq<char>>::empty());
        assert(concat_pieces(q.drop_last()) =~= Seq::<char>::empty());
        assert(concat_pieces(q) =~= seq![]);
    } else {
        let d = s.drop_last();
        lemma_pieces_split(d);
        let p = pieces(d);
        let c = s.last();
        if c == ',' || c == ';' {
            let q = p.push(seq![]);
            assert(q.drop_last() =~= p);
            assert(concat_pieces(q) =~= concat_pieces(p));
            assert forall|i: int, k: int| 0 <= i < q.len() && 0 <= k < q[i].len()
                implies (#[trigger] q[i][k]) != ',' && q[i][k] != ';' by {
                assert(q[i] == p[i]);
            }
        } else {
            let q = p.update(p.len() - 1, p.last().push(c));
            assert(q.drop_last() =~= p.drop_last());
            assert(concat_pieces(p) == concat_pieces(p.drop_last()) + p.last());
            assert(concat_pieces(q) =~= concat_pieces(p).push(c));
            assert forall|i: int, k: int| 0 <= i < q.len() && 0 <= k < q[i].len()
                implies (#[trigger] q[i][k]) != ',' && q[i][k] != ';' by {
                if i < p.len() - 1 {
                    assert(q[i] == p[i]);
                } else if k < p.last().len() {
                    assert(q[i][k] == p[p.len() - 1][k]);
                }
            }
        }
    }
}

/// The endpoint override splits only at ',' and ';': a blank text gives
/// none; otherwise there is one piece more than separators, no piece holds
/// a separator, and the pieces written one after another are the text
/// without its separators. In particular a text with neither ',' nor ';'
/// is a single piece, the text itself.
pub proof fn override_splits_only_at_commas_and_semicolons(s: Seq<char>)
    ensures
        endpoints_override(s) is None <==> trim(s).len() == 0,
        endpoints_override(s) matches Some(p) ==> {
            &&& p.len() == list_separator_count(s) + 1
            &&& concat_pieces(p) == without_list_separators(s)
            &&& forall|i: int, k: int| 0 <= i < p.len() && 0 <= k < p[i].len()
                ==> (#[trigger] p[i][k]) != ',' && p[i][k] != ';'
        },
        (trim(s).len() > 0 && list_separator_count(s) == 0) ==> endpoints_override(s) == Some(seq![s]),
{
    lemma_pieces_split(s);
    if trim(s).len() > 0 && list_separator_count(s) == 0 {
        lemma_no_separators(s);
        let p = pieces(s);
        assert(p.drop_last().len() == 0);
        assert(concat_pieces(p.drop_last()) =~= seq![]);
        assert(concat_pieces(p) =~= p[0]);
        assert(p =~= seq![s]);
    }
}

proof fn lemma_no_separators(s: Seq<char>)
    requires
        list_separator_count(s) == 0,
    ensures
        without_list_separators(s) == s,
    decreases s.len(),
{
    if s.len() > 0 {
        lemma_no_separators(s.drop_last());
        assert(s.drop_last().push(s.last()) =~= s);
    }
}

} // verus!
