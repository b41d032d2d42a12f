//! The local key-value storage of the Allnodes add-ons: what it persists of
//! CPU benchmarks, how it recognises the files of its older layout, and
//! where it writes.

use vstd::prelude::*;
use crate::text::{to_string, str_equal};

verus! {

/// A CPU core as the Allnodes service describes it.
#[derive(Clone, Debug)]
pub struct CoreConfig {
    pub processor_id: u32,
    pub core_id: u32,
    pub vcore_ids: Vec<u32>,
    pub score: Option<u64>,
}

/// A CPU benchmark as the Allnodes service describes it.
#[derive(Clone, Debug)]
pub struct BenchmarkResults {
    pub cores: Vec<CoreConfig>,
}

/// A CPU core as the storage persists it.
#[derive(Clone, Debug)]
pub struct StoreCoreConfig {
    pub processor_id: u32,
    pub core_id: u32,
    pub vcore_ids: Vec<u32>,
    pub score: Option<u64>,
}

/// A CPU benchmark as the storage persists it.
#[derive(Clone, Debug)]
pub struct StoreBenchmarkResults {
    pub cores: Vec<StoreCoreConfig>,
}

fn copy_ids(v: &Vec<u32>) -> (r: Vec<u32>)
    ensures
        r@ == v@,
{
    let mut r: Vec<u32> = Vec::new();
    let mut i: usize = 0;
    while i < v.len()
        invariant
            i <= v.len(),
            r@ == v@.take(i as int),
        decreases v.len() - i,
    {
        r.push(v[i]);
        i += 1;
        assert(r@ =~= v@.take(i as int));
    }
    assert(v@.take(i as int) =~= v@);
    r
}

/// The same core, field by field.
pub open spec fn same_core(a: StoreCoreConfig, b: CoreConfig) -> bool {
    &&& a.processor_id == b.processor_id
    &&& a.core_id == b.core_id
    &&& a.vcore_ids@ == b.vcore_ids@
    &&& a.score == b.score
}

impl StoreCoreConfig {
    /// The stored form of a core.
    pub fn from_core_config(c: &CoreConfig) -> (r: StoreCoreConfig)
        ensures
            same_core(r, *c),
    {
        StoreCoreConfig {
            processor_id: c.processor_id,
            core_id: c.core_id,
            vcore_ids: copy_ids(&c.vcore_ids),
            score: c.score,
        }
    }

    /// The service form of a stored core.
    pub fn into_core_config(self) -> (r: CoreConfig)
        ensures
            same_core(self, r),
    {
        CoreConfig {
            processor_id: self.processor_id,
            core_id: self.core_id,
            vcore_ids: self.vcore_ids,
            score: self.score,
        }
    }
}

impl StoreBenchmarkResults {
    /// The stored form of a benchmark.
    pub fn from_benchmark(b: &BenchmarkResults) -> (r: StoreBenchmarkResults)
        ensures
            r.cores@.len() == b.cores@.len(),
            forall|i: int| 0 <= i < r.cores@.len() ==> same_core(#[trigger] r.cores@[i], b.cores@[i]),
    {
        let mut cores: Vec<StoreCoreConfig> = Vec::new();
        let mut i: usize = 0;
        while i < b.cores.len()
            invariant
                i <= b.cores@.len(),
                cores@.len() == i,
                forall|j: int| 0 <= j < i ==> same_core(#[trigger] cores@[j], b.cores@[j]),
            decreases b.cores.len() - i,
        {
            cores.push(StoreCoreConfig::from_core_config(&b.cores[i]));
            i += 1;
        }
        StoreBenchmarkResults { cores }
    }

    /// The service form of a stored benchmark.
    pub fn into_benchmark(self) -> (r: BenchmarkResults)
        ensures
            r.cores@.len() == self.cores@.len(),
            forall|i: int| 0 <= i < r.cores@.len() ==> same_core(self.cores@[i], #[trigger] r.cores@[i]),
    {
        let mut cores: Vec<CoreConfig> = Vec::new();
        let mut rest = self.cores;
        let ghost all = rest@;
        let mut i: usize = 0;
        let n = rest.len();
        while i < n
            invariant
                n == all.len(),
                i <= n,
                rest@.len() == n,
                cores@.len() == i,
                forall|j: int| i <= j < n ==> rest@[j] == all[j],
                forall|j: int| 0 <= j < i ==> same_core(all[j], #[trigger] cores@[j]),
            decreases n - i,
        {
            let c2 = CoreConfig {
                processor_id: rest[i].processor_id,
                core_id: rest[i].core_id,
                vcore_ids: copy_ids(&rest[i].vcore_ids),
                score: rest[i].score,
            };
            cores.push(c2);
            i += 1;
        }
        BenchmarkResults { cores }
    }
}

/// The version of the storage layout.
pub const STORAGE_VERSION: usize = 1;

/// Whether storage written under layout `from` must be migrated.
pub fn needs_migration(from: Option<usize>) -> (r: bool)
    ensures
        r == !(from matches Some(v) && v >= STORAGE_VERSION),
{
    match from {
        Some(v) => v < STORAGE_VERSION,
        None => true,
    }
}

/// A lower-case hexadecimal digit.
pub open spec fn is_lower_hex(c: char) -> bool {
    ('0' <= c && c <= '9') || ('a' <= c && c <= 'f')
}

/// Whether `s` from index `start` on holds 16 lower-case hexadecimal digits.
pub open spec fn hex16_at(s: Seq<char>, start: int) -> bool {
    forall|i: int| start <= i < start + 16 ==> is_lower_hex(#[trigger] s[i])
}

/// The old layout's override file: `an-ovrd-` and 16 hexadecimal digits.
pub open spec fn is_override_file(s: Seq<char>) -> bool {
    &&& s.len() == 24
    &&& s.take(8) == "an-ovrd-"@
    &&& hex16_at(s, 8)
}

/// The old layout's benchmark file: `poh-`, 16 hexadecimal digits and `.bin`.
pub open spec fn is_benchmark_file(s: Seq<char>) -> bool {
    &&& s.len() == 24
    &&& s.take(4) == "poh-"@
    &&& hex16_at(s, 4)
    &&& s.skip(20) == ".bin"@
}

/// What a file in a storage directory is to the migration.
#[derive(Clone, Debug)]
pub enum StorageFile {
    /// An override file of the old layout, to delete.
    Override,
    /// A benchmark file of the old layout, whose contents move to this key.
    Benchmark(String),
    /// Anything else, left alone.
    Other,
}

fn hex16_from(s: &str, start: usize) -> (r: bool)
    requires
        start + 16 <= s@.len(),
    ensures
        r == hex16_at(s@, start as int),
{
    let n = s.unicode_len();
    let end = start + 16;
    let mut i: usize = start;
    while i < end
        invariant
            end == start + 16,
            end <= s@.len(),
            start <= i <= end,
            forall|j: int| start <= j < i ==> is_lower_hex(#[trigger] s@[j]),
        decreases end - i,
    {
        let c = s.get_char(i);
        if !(('0' <= c && c <= '9') || ('a' <= c && c <= 'f')) {
            return false;
        }
        i += 1;
    }
    true
}

/// Classifies a file name found in a storage directory.
pub fn classify_storage_file(name: &str) -> (r: StorageFile)
    ensures
        is_override_file(name@) ==> r is Override,
        !is_override_file(name@) && is_benchmark_file(name@) ==> (r matches StorageFile::Benchmark(k)
            && k@ == name@.take(20)),
        !is_override_file(name@) && !is_benchmark_file(name@) ==> r is Other,
{
    proof {
        reveal_strlit("an-ovrd-");
        reveal_strlit("poh-");
        reveal_strlit(".bin");
    }
    let n = name.unicode_len();
    if n != 24 {
        return StorageFile::Other;
    }
    let prefix = name.substring_char(0, 8);
    assert(prefix@ == name@.take(8));
    if str_equal(prefix, "an-ovrd-") && hex16_from(name, 8) {
        return StorageFile::Override;
    }
    let head = name.substring_char(0, 4);
    let tail = name.substring_char(20, 24);
    assert(head@ == name@.take(4));
    assert(tail@ =~= name@.skip(20));
    if str_equal(head, "poh-") && hex16_from(name, 4) && str_equal(tail, ".bin") {
        let key = name.substring_char(0, 20);
        assert(key@ =~= name@.take(20));
        return StorageFile::Benchmark(to_string(key));
    }
    StorageFile::Other
}

/// The storage directory to record as the one written: the first, from the
/// current one on, whose write succeeded (writes are tried in order and stop
/// at the first success), where there is one.
pub fn written_directory(start: usize, write_ok: &Vec<bool>) -> (r: Option<usize>)
    ensures
        match r {
            Some(i) => start <= i < write_ok@.len() && write_ok@[i as int] && forall|j: int|
                start <= j < i ==> !write_ok@[j],
            None => forall|j: int| start <= j < write_ok@.len() ==> !write_ok@[j],
        },
{
    let mut i: usize = start;
    while i < write_ok.len()
        invariant
            start <= i,
            forall|j: int| start <= j < i && j < write_ok@.len() ==> !write_ok@[j],
        decreases write_ok.len() - i,
    {
        if write_ok[i] {
            return Some(i);
        }
        i += 1;
    }
    None
}

} // verus!
