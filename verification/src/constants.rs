//! Run-time constants: values that the Allnodes service may override by
//! name, that take effect in registered constants at once, and that are
//! persisted (masked with the machine identifier) across restarts.

use vstd::prelude::*;
use base64::Engine;
use crate::mid::{apply_mid, masked, masking_is_an_involution};
use crate::text::{parse_bounded, parse_u64_bounded, to_string};

verus! {

/// A type whose values can be read from text.
pub trait Parseable: Sized {
    /// The value `s` reads as, if any.
    spec fn parsed(s: Seq<char>) -> Option<Self>;

    /// Reads a value from text.
    fn parse(value: &str) -> (r: Option<Self>)
        ensures
            r == Self::parsed(value@),
    ;

    /// Whether two values are the same.
    fn same_value(&self, other: &Self) -> (r: bool)
        ensures
            r == (*self == *other),
    ;
}

impl Parseable for u64 {
    open spec fn parsed(s: Seq<char>) -> Option<u64> {
        match parse_bounded(s, u64::MAX as nat) {
            Some(v) => Some(v as u64),
            None => None,
        }
    }

    fn parse(value: &str) -> (r: Option<u64>) {
        parse_u64_bounded(value, u64::MAX)
    }

    fn same_value(&self, other: &u64) -> (r: bool) {
        *self == *other
    }
}

impl Parseable for u32 {
    open spec fn parsed(s: Seq<char>) -> Option<u32> {
        match parse_bounded(s, u32::MAX as nat) {
            Some(v) => Some(v as u32),
            None => None,
        }
    }

    fn parse(value: &str) -> (r: Option<u32>) {
        match parse_u64_bounded(value, u32::MAX as u64) {
            Some(v) => Some(v as u32),
            None => None,
        }
    }

    fn same_value(&self, other: &u32) -> (r: bool) {
        *self == *other
    }
}

impl Parseable for u16 {
    open spec fn parsed(s: Seq<char>) -> Option<u16> {
        match parse_bounded(s, u16::MAX as nat) {
            Some(v) => Some(v as u16),
            None => None,
        }
    }

    fn parse(value: &str) -> (r: Option<u16>) {
        match parse_u64_bounded(value, u16::MAX as u64) {
            Some(v) => Some(v as u16),
            None => None,
        }
    }

    fn same_value(&self, other: &u16) -> (r: bool) {
        *self == *other
    }
}

impl Parseable for usize {
    open spec fn parsed(s: Seq<char>) -> Option<usize> {
        match parse_bounded(s, usize::MAX as nat) {
            Some(v) => Some(v as usize),
            None => None,
        }
    }

    fn parse(value: &str) -> (r: Option<usize>) {
        match parse_u64_bounded(value, usize::MAX as u64) {
            Some(v) => Some(v as usize),
            None => None,
        }
    }

    fn same_value(&self, other: &usize) -> (r: bool) {
        *self == *other
    }
}

/// The duration that `Duration::from_micros` makes of a number of
/// microseconds.
pub uninterp spec fn duration_from_micros(micros: u64) -> std::time::Duration;

/// `Duration::from_micros`.
#[verifier::external_body]
fn micros_duration(micros: u64) -> (r: std::time::Duration)
    ensures
        r == duration_from_micros(micros),
{
    std::time::Duration::from_micros(micros)
}

/// `==` on durations: a duration is its whole seconds and the nanoseconds
/// below one second, and two are equal where both agree.
#[verifier::external_body]
fn durations_equal(a: &std::time::Duration, b: &std::time::Duration) -> (r: bool)
    ensures
        r == (*a == *b),
{
    *a == *b
}

/// A duration reads as a whole number of microseconds.
impl Parseable for std::time::Duration {
    open spec fn parsed(s: Seq<char>) -> Option<std::time::Duration> {
        match <u64 as Parseable>::parsed(s) {
            Some(v) => Some(duration_from_micros(v)),
            None => None,
        }
    }

    fn parse(value: &str) -> (r: Option<std::time::Duration>) {
        match <u64 as Parseable>::parse(value) {
            Some(v) => Some(micros_duration(v)),
            None => None,
        }
    }

    fn same_value(&self, other: &std::time::Duration) -> (r: bool) {
        durations_equal(self, other)
    }
}

/// The number of value slots of a constant: its initial value and one
/// replacement.
pub const VALUES_LEN: usize = 2;

/// A run-time constant: the values it has held, of which the last is current.
pub struct Constant<T> {
    values: Vec<T>,
    index: usize,
}

/// Something that takes overriding values as text.
pub trait Const {
    /// Whether `value` can be taken without running out of value slots.
    spec fn accepts(&self, value: Seq<char>) -> bool;

    /// Takes an overriding value given as text.
    fn update(&mut self, value: &str)
        requires
            old(self).accepts(value@),
    ;

    /// Whether `update` can take `value`.
    fn can_update(&self, value: &str) -> (r: bool)
        ensures
            r == self.accepts(value@),
    ;
}

impl<T: Parseable> Constant<T> {
    /// The slots are filled up to the current one.
    pub closed spec fn wf(&self) -> bool {
        &&& self.values.len() == self.index + 1
        &&& self.index < VALUES_LEN
    }

    /// The current value.
    pub closed spec fn current(&self) -> T {
        self.values@[self.index as int]
    }

    /// The values held so far, oldest first.
    pub closed spec fn history(&self) -> Seq<T> {
        self.values@
    }

    /// Whether overriding with `value` is possible: it does not parse, is the
    /// current value, or a slot is left.
    pub open spec fn can_take(&self, value: Seq<char>) -> bool {
        match T::parsed(value) {
            None => true,
            Some(v) => v == self.current() || self.history().len() < VALUES_LEN,
        }
    }

    /// A constant holding `value`.
    pub fn new(value: T) -> (r: Constant<T>)
        ensures
            r.wf(),
            r.current() == value,
            r.history() == seq![value],
    {
        let mut values: Vec<T> = Vec::new();
        values.push(value);
        Constant { values, index: 0 }
    }

    /// The current value.
    pub fn get(&self) -> (r: &T)
        requires
            self.wf(),
        ensures
            *r == self.current(),
    {
        &self.values[self.index]
    }

    /// Takes an overriding value given as text: a value that parses and
    /// differs from the current one becomes current; anything else is
    /// ignored.
    pub fn set_from_text(&mut self, value: &str)
        requires
            old(self).wf(),
            old(self).can_take(value@),
        ensures
            final(self).wf(),
            final(self).history() == (match T::parsed(value@) {
                Some(v) => if v == old(self).current() {
                    old(self).history()
                } else {
                    old(self).history().push(v)
                },
                None => old(self).history(),
            }),
            final(self).current() == (match T::parsed(value@) {
                Some(v) => v,
                None => old(self).current(),
            }),
    {
        let parsed = T::parse(value);
        match parsed {
            None => {},
            Some(v) => {
                if v.same_value(&self.values[self.index]) {
                    return;
                }
                let new_index = self.index + 1;
                self.values.push(v);
                self.index = new_index;
            },
        }
    }
}

impl<T: Parseable> Const for Constant<T> {
    open spec fn accepts(&self, value: Seq<char>) -> bool {
        self.wf() && self.can_take(value)
    }

    fn update(&mut self, value: &str)
        ensures
            final(self).wf(),
            final(self).history() == (match T::parsed(value@) {
                Some(v) => if v == old(self).current() {
                    old(self).history()
                } else {
                    old(self).history().push(v)
                },
                None => old(self).history(),
            }),
            final(self).current() == (match T::parsed(value@) {
                Some(v) => v,
                None => old(self).current(),
            }),
    {
        self.set_from_text(value)
    }

    fn can_update(&self, value: &str) -> (r: bool) {
        if !(self.index < VALUES_LEN && self.values.len() == self.index + 1) {
            return false;
        }
        match T::parse(value) {
            None => true,
            Some(v) => v.same_value(&self.values[self.index]) || self.values.len() < VALUES_LEN,
        }
    }
}

/// An overriding value known for a name, and whether it is persisted.
#[derive(Clone, Debug)]
pub struct OverrideEntry {
    pub key: String,
    pub value: String,
    pub save: bool,
}

/// The overrides by name: later entries win.
pub open spec fn entries_map(e: Seq<OverrideEntry>) -> Map<Seq<char>, (Seq<char>, bool)>
    decreases e.len(),
{
    if e.len() == 0 {
        Map::empty()
    } else {
        entries_map(e.drop_last()).insert(e.last().key@, (e.last().value@, e.last().save))
    }
}

/// Name/value pairs as a map: later pairs win.
pub open spec fn pairs_map(p: Seq<(String, String)>) -> Map<Seq<char>, Seq<char>>
    decreases p.len(),
{
    if p.len() == 0 {
        Map::empty()
    } else {
        pairs_map(p.drop_last()).insert(p.last().0@, p.last().1@)
    }
}

/// The persisted overrides of a map of overrides: those marked for saving.
pub open spec fn saved_overrides(m: Map<Seq<char>, (Seq<char>, bool)>) -> Map<Seq<char>, Seq<char>> {
    Map::new(|k: Seq<char>| m.contains_key(k) && m[k].1, |k: Seq<char>| m[k].0)
}

/// Overrides read back from storage, each marked for saving, over `m`.
pub open spec fn with_loaded(
    m: Map<Seq<char>, (Seq<char>, bool)>,
    loaded: Map<Seq<char>, Seq<char>>,
) -> Map<Seq<char>, (Seq<char>, bool)> {
    Map::new(
        |k: Seq<char>| m.contains_key(k) || loaded.contains_key(k),
        |k: Seq<char>|
            if loaded.contains_key(k) {
                (loaded[k], true)
            } else {
                m[k]
            },
    )
}

/// What `bincode::serialize` makes of a map from strings to strings (as a
/// `BTreeMap`).
pub uninterp spec fn bincode_map_encoding(m: Map<Seq<char>, Seq<char>>) -> Seq<u8>;

/// What `bincode::deserialize` into a map from strings to strings (a
/// `BTreeMap`) makes of bytes, where it succeeds.
pub uninterp spec fn bincode_map_decoding(b: Seq<u8>) -> Option<Map<Seq<char>, Seq<char>>>;

/// The standard Base64 text of bytes (`BASE64_STANDARD.encode`).
pub uninterp spec fn base64_encoding(b: Seq<u8>) -> Seq<char>;

/// The bytes of a standard Base64 text (`BASE64_STANDARD.decode`), where
/// it is one.
pub uninterp spec fn base64_decoding(s: Seq<char>) -> Option<Seq<u8>>;

/// Keys of a list of pairs are distinct.
pub open spec fn distinct_keys(p: Seq<(String, String)>) -> bool {
    forall|i: int, j: int| 0 <= i < j < p.len() ==> p[i].0@ != p[j].0@
}

/// `bincode::serialize` of the pairs collected into a `BTreeMap`, and
/// `bincode::deserialize` of the bytes gives the map back. With the default
/// options (no size limit, fixed-width lengths) and a map that reports its
/// length, serializing strings into a `Vec` does not fail.
#[verifier::external_body]
fn encode_pairs(pairs: &Vec<(String, String)>) -> (r: Vec<u8>)
    requires
        distinct_keys(pairs@),
    ensures
        bincode_map_encoding(pairs_map(pairs@)) == r@,
        bincode_map_decoding(r@) == Some(pairs_map(pairs@)),
{
    let map: std::collections::BTreeMap<String, String> = pairs.iter().cloned().collect();
    match bincode::serialize(&map) {
        Ok(bytes) => bytes,
        Err(_) => Vec::new(),
    }
}


/// `bincode::deserialize` of bytes into a `BTreeMap` of strings, its
/// entries listed in key order.
#[verifier::external_body]
fn decode_pairs(bytes: &Vec<u8>) -> (r: Option<Vec<(String, String)>>)
    ensures
        match r {
            Some(v) => bincode_map_decoding(bytes@) == Some(pairs_map(v@)) && distinct_keys(v@),
            None => bincode_map_decoding(bytes@) is None,
        },
{
    match bincode::deserialize::<std::collections::BTreeMap<String, String>>(bytes) {
        Ok(m) => Some(m.into_iter().collect()),
        Err(_) => None,
    }
}

/// `BASE64_STANDARD.encode`; decoding the text gives the bytes back.
#[verifier::external_body]
fn encode_base64(bytes: &Vec<u8>) -> (r: String)
    ensures
        r@ == base64_encoding(bytes@),
        base64_decoding(r@) == Some(bytes@),
{
    base64::prelude::BASE64_STANDARD.encode(bytes)
}

/// `BASE64_STANDARD.decode`.
#[verifier::external_body]
fn decode_base64(s: &str) -> (r: Option<Vec<u8>>)
    ensures
        match r {
            Some(v) => base64_decoding(s@) == Some(v@),
            None => base64_decoding(s@) is None,
        },
{
    base64::prelude::BASE64_STANDARD.decode(s).ok()
}

/// What saving the overrides asks of the storage.
#[derive(Clone, Debug)]
pub enum SaveAction {
    /// No override is persisted: delete the stored entry.
    Delete,
    /// Store this text under the overrides' key.
    Put(String),
}

/// The text that persists a map of overrides under identifier `mid`: the
/// serialized map, masked, in Base64.
pub open spec fn persisted_text(m: Map<Seq<char>, Seq<char>>, mid: u64) -> Seq<char> {
    base64_encoding(masked(bincode_map_encoding(m), mid))
}

/// The overrides stored in a persisted text under identifier `mid`.
pub open spec fn persisted_overrides(s: Seq<char>, mid: u64) -> Option<Map<Seq<char>, Seq<char>>> {
    match base64_decoding(s) {
        Some(b) => bincode_map_decoding(masked(b, mid)),
        None => None,
    }
}

/// The overrides known by name and the names of registered constants.
pub struct Constants {
    entries: Vec<OverrideEntry>,
    registered: Vec<String>,
}

impl Constants {
    /// Names are stored once each.
    pub closed spec fn wf(&self) -> bool {
        &&& forall|i: int, j: int|
            0 <= i < j < self.entries@.len() ==> self.entries@[i].key@ != self.entries@[j].key@
        &&& forall|i: int, j: int|
            0 <= i < j < self.registered@.len() ==> self.registered@[i]@ != self.registered@[j]@
    }

    /// The overrides by name: value and whether it is persisted.
    pub closed spec fn values(&self) -> Map<Seq<char>, (Seq<char>, bool)> {
        entries_map(self.entries@)
    }

    /// The names of the registered constants.
    pub closed spec fn registered_names(&self) -> Set<Seq<char>> {
        Set::new(|k: Seq<char>| exists|i: int| 0 <= i < self.registered@.len() && self.registered@[i]@ == k)
    }

    /// No overrides and no registered constants.
    pub fn new() -> (r: Constants)
        ensures
            r.wf(),
            r.values() == Map::<Seq<char>, (Seq<char>, bool)>::empty(),
            r.registered_names() == Set::<Seq<char>>::empty(),
    {
        let r = Constants { entries: Vec::new(), registered: Vec::new() };
        assert(r.registered_names() =~= Set::<Seq<char>>::empty());
        r
    }

    fn find(&self, key: &str) -> (r: Option<usize>)
        requires
            self.wf(),
        ensures
            match r {
                Some(i) => i < self.entries@.len() && self.entries@[i as int].key@ == key@,
                None => forall|i: int| 0 <= i < self.entries@.len() ==> self.entries@[i].key@ != key@,
            },
    {
        let mut i: usize = 0;
        while i < self.entries.len()
            invariant
                i <= self.entries@.len(),
                forall|j: int| 0 <= j < i ==> self.entries@[j].key@ != key@,
            decreases self.entries.len() - i,
        {
            if crate::text::str_equal(self.entries[i].key.as_str(), key) {
                return Some(i);
            }
            i += 1;
        }
        None
    }

    /// The override known for `key`.
    pub fn lookup(&self, key: &str) -> (r: Option<(String, bool)>)
        requires
            self.wf(),
        ensures
            match r {
                Some(p) => self.values().contains_key(key@) && self.values()[key@] == (p.0@, p.1),
                None => !self.values().contains_key(key@),
            },
    {
        proof {
            lemma_entries_map(self.entries@);
        }
        match self.find(key) {
            Some(i) => {
                proof {
                    lemma_entries_map_at(self.entries@, i as int);
                }
                Some((to_string(self.entries[i].value.as_str()), self.entries[i].save))
            },
            None => None,
        }
    }
}

impl Constants {
    fn insert(&mut self, key: &str, value: &str, save: bool) -> (r: Option<String>)
        requires
            old(self).wf(),
        ensures
            final(self).wf(),
            final(self).values() == old(self).values().insert(key@, (value@, save)),
            final(self).registered_names() == old(self).registered_names(),
            match r {
                Some(v) => old(self).values().contains_key(key@) && old(self).values()[key@].0 == v@,
                None => !old(self).values().contains_key(key@),
            },
    {
        proof {
            lemma_entries_map(self.entries@);
        }
        let entry = OverrideEntry { key: to_string(key), value: to_string(value), save };
        match self.find(key) {
            Some(i) => {
                proof {
                    lemma_entries_map_at(self.entries@, i as int);
                }
                let old_value = to_string(self.entries[i].value.as_str());
                let ghost before = self.entries@;
                self.entries.set(i, entry);
                proof {
                    lemma_entries_map_replace(before, i as int, self.entries@[i as int]);
                }
                Some(old_value)
            },
            None => {
                let ghost before = self.entries@;
                self.entries.push(entry);
                assert(self.entries@.drop_last() =~= before);
                None
            },
        }
    }

    fn is_registered(&self, key: &str) -> (r: bool)
        ensures
            r == self.registered_names().contains(key@),
    {
        let mut i: usize = 0;
        while i < self.registered.len()
            invariant
                i <= self.registered@.len(),
                forall|j: int| 0 <= j < i ==> self.registered@[j]@ != key@,
            decreases self.registered.len() - i,
        {
            if crate::text::str_equal(self.registered[i].as_str(), key) {
                assert(self.registered_names().contains(key@));
                return true;
            }
            i += 1;
        }
        false
    }

    /// Records an override for `key`; says whether the registered constant
    /// of that name must take the value: it is registered and the value is
    /// not the one already known for the name.
    pub fn update(&mut self, key: &str, value: &str, save: bool) -> (r: bool)
        requires
            old(self).wf(),
        ensures
            final(self).wf(),
            final(self).values() == old(self).values().insert(key@, (value@, save)),
            final(self).registered_names() == old(self).registered_names(),
            r == (!(old(self).values().contains_key(key@) && old(self).values()[key@].0 == value@)
                && old(self).registered_names().contains(key@)),
    {
        let previous = self.insert(key, value, save);
        if let Some(old_value) = previous {
            if crate::text::str_equal(old_value.as_str(), value) {
                return false;
            }
        }
        self.is_registered(key)
    }

    /// Registers the constant named `key`: it starts with the override
    /// known for the name where that parses, else with `expr`.
    pub fn register<T: Parseable>(&mut self, key: &str, expr: T) -> (r: Constant<T>)
        requires
            old(self).wf(),
        ensures
            final(self).wf(),
            final(self).values() == old(self).values(),
            final(self).registered_names() == old(self).registered_names().insert(key@),
            r.wf(),
            r.history().len() == 1,
            r.current() == (if old(self).values().contains_key(key@) && T::parsed(
                old(self).values()[key@].0,
            ) is Some {
                T::parsed(old(self).values()[key@].0)->0
            } else {
                expr
            }),
    {
        let known = self.lookup(key);
        let parsed = match known {
            Some((v, _)) => T::parse(v.as_str()),
            None => None,
        };
        let c = match parsed {
            Some(v) => Constant::new(v),
            None => Constant::new(expr),
        };
        let ghost before = self.registered_names();
        if !self.is_registered(key) {
            let ghost regs = self.registered@;
            self.registered.push(to_string(key));
            assert forall|x: Seq<char>| #[trigger] self.registered_names().contains(x) == before.insert(key@).contains(x) by {
                if before.contains(x) {
                    let j = choose|j: int| 0 <= j < regs.len() && regs[j]@ == x;
                    assert(self.registered@[j] == regs[j]);
                }
                if self.registered_names().contains(x) {
                    let j = choose|j: int| 0 <= j < self.registered@.len() && self.registered@[j]@ == x;
                    if j < regs.len() {
                        assert(self.registered@[j] == regs[j]);
                    }
                }
                if x == key@ {
                    assert(self.registered@[regs.len() as int]@ == x);
                }
            }
            assert(self.registered_names() =~= before.insert(key@));
        } else {
            assert(self.registered_names() =~= before.insert(key@));
        }
        c
    }

    /// The persisted overrides as name/value pairs.
    pub fn saved_pairs(&self) -> (r: Vec<(String, String)>)
        requires
            self.wf(),
        ensures
            distinct_keys(r@),
            pairs_map(r@) == saved_overrides(self.values()),
    {
        let mut r: Vec<(String, String)> = Vec::new();
        let mut i: usize = 0;
        proof {
            lemma_entries_map(self.entries@);
        }
        while i < self.entries.len()
            invariant
                self.wf(),
                i <= self.entries@.len(),
                distinct_keys(r@),
                forall|j: int| 0 <= j < r@.len() ==> exists|k: int| 0 <= k < i && #[trigger] r@[j].0@ == self.entries@[k].key@,
                pairs_map(r@) == saved_overrides(entries_map(self.entries@.take(i as int))),
            decreases self.entries.len() - i,
        {
            let e = &self.entries[i];
            let ghost before = r@;
            assert(self.entries@.take(i + 1).drop_last() =~= self.entries@.take(i as int));
            if e.save {
                r.push((to_string(e.key.as_str()), to_string(e.value.as_str())));
                assert(r@.drop_last() =~= before);
                assert forall|a: int, b: int| 0 <= a < b < r@.len() implies r@[a].0@ != r@[b].0@ by {
                    if b == r@.len() - 1 {
                        let k = choose|k: int| 0 <= k < i && #[trigger] before[a].0@ == self.entries@[k].key@;
                        assert(r@[a] == before[a]);
                    } else {
                        assert(r@[a] == before[a]);
                        assert(r@[b] == before[b]);
                    }
                }
                assert forall|j: int| 0 <= j < r@.len() implies exists|k: int| 0 <= k < i + 1 && #[trigger] r@[j].0@ == self.entries@[k].key@ by {
                    if j < r@.len() - 1 {
                        assert(r@[j] == before[j]);
                        let k = choose|k: int| 0 <= k < i && #[trigger] before[j].0@ == self.entries@[k].key@;
                    } else {
                        assert(r@[j].0@ == self.entries@[i as int].key@);
                    }
                }
                assert(pairs_map(r@) =~= saved_overrides(entries_map(self.entries@.take(i + 1))));
            } else {
                assert forall|j: int| 0 <= j < r@.len() implies exists|k: int| 0 <= k < i + 1 && #[trigger] r@[j].0@ == self.entries@[k].key@ by {
                    let k = choose|k: int| 0 <= k < i && #[trigger] r@[j].0@ == self.entries@[k].key@;
                }
                assert forall|k: Seq<char>| #[trigger] saved_overrides(entries_map(self.entries@.take(i + 1))).contains_key(k)
                    == saved_overrides(entries_map(self.entries@.take(i as int))).contains_key(k) by {
                    if k == e.key@ {
                        proof_key_absent_prefix(self.entries@, i as int);
                    }
                }
                assert(saved_overrides(entries_map(self.entries@.take(i + 1))) =~= saved_overrides(entries_map(self.entries@.take(i as int))));
            }
            i += 1;
        }
        assert(self.entries@.take(i as int) =~= self.entries@);
        r
    }

    /// What saving asks of the storage under identifier `mid`: delete the
    /// entry where nothing is persisted, else put the persisted text, whose
    /// reading gives back the persisted overrides.
    pub fn save(&self, mid: u64) -> (r: SaveAction)
        requires
            self.wf(),
        ensures
            match r {
                SaveAction::Delete => saved_overrides(self.values()).dom() =~= Set::<Seq<char>>::empty(),
                SaveAction::Put(s) => !(saved_overrides(self.values()).dom() =~= Set::<Seq<char>>::empty())
                    && persisted_text(saved_overrides(self.values()), mid) == s@
                    && persisted_overrides(s@, mid) == Some(saved_overrides(self.values())),
            },
    {
        let pairs = self.saved_pairs();
        if pairs.len() == 0 {
            assert(pairs_map(pairs@) =~= Map::<Seq<char>, Seq<char>>::empty());
            return SaveAction::Delete;
        }
        proof {
            lemma_pairs_map_nonempty(pairs@);
            assert(saved_overrides(self.values()).dom().contains(pairs@.last().0@));
        }
        let b = encode_pairs(&pairs);
        let ghost raw = b@;
        let mut buf = b;
        apply_mid(&mut buf, mid);
        let text = encode_base64(&buf);
        proof {
            masking_is_an_involution(raw, mid);
        }
        SaveAction::Put(text)
    }

    /// Reads the persisted text (if any) stored under identifier `mid`:
    /// every override in it becomes known, marked for saving; a text that
    /// does not read changes nothing.
    pub fn load(&mut self, encoded: Option<&str>, mid: u64)
        requires
            old(self).wf(),
        ensures
            final(self).wf(),
            final(self).registered_names() == old(self).registered_names(),
            final(self).values() == (match encoded {
                Some(s) => match persisted_overrides(s@, mid) {
                    Some(m) => with_loaded(old(self).values(), m),
                    None => old(self).values(),
                },
                None => old(self).values(),
            }),
    {
        let text = match encoded {
            Some(s) => s,
            None => {
                return;
            },
        };
        let mut buf = match decode_base64(text) {
            Some(b) => b,
            None => {
                return;
            },
        };
        apply_mid(&mut buf, mid);
        let pairs = match decode_pairs(&buf) {
            Some(p) => p,
            None => {
                return;
            },
        };
        let ghost start = self.values();
        let mut i: usize = 0;
        assert(with_loaded(start, pairs_map(pairs@.take(0))) =~= start);
        while i < pairs.len()
            invariant
                self.wf(),
                i <= pairs@.len(),
                self.registered_names() == old(self).registered_names(),
                self.values() == with_loaded(start, pairs_map(pairs@.take(i as int))),
            decreases pairs.len() - i,
        {
            self.insert(pairs[i].0.as_str(), pairs[i].1.as_str(), true);
            assert(pairs@.take(i + 1).drop_last() =~= pairs@.take(i as int));
            proof {
                lemma_with_loaded_insert(start, pairs_map(pairs@.take(i as int)), pairs@[i as int].0@, pairs@[i as int].1@);
            }
            i += 1;
        }
        assert(pairs@.take(i as int) =~= pairs@);
    }
}

/// Loading one more override is inserting it, marked for saving.
proof fn lemma_with_loaded_insert(
    m: Map<Seq<char>, (Seq<char>, bool)>,
    l: Map<Seq<char>, Seq<char>>,
    k: Seq<char>,
    v: Seq<char>,
)
    ensures
        with_loaded(m, l.insert(k, v)) == with_loaded(m, l).insert(k, (v, true)),
{
    assert(with_loaded(m, l.insert(k, v)) =~= with_loaded(m, l).insert(k, (v, true)));
}

/// A non-empty list of pairs makes a non-empty map.
proof fn lemma_pairs_map_nonempty(p: Seq<(String, String)>)
    requires
        p.len() > 0,
    ensures
        pairs_map(p).contains_key(p.last().0@),
{
}

/// A name not among the first `i` entries (being entry `i`'s, with distinct
/// names) is not in their map.
proof fn proof_key_absent_prefix(e: Seq<OverrideEntry>, i: int)
    requires
        0 <= i < e.len(),
        forall|a: int, b: int| 0 <= a < b < e.len() ==> e[a].key@ != e[b].key@,
    ensures
        !entries_map(e.take(i)).contains_key(e[i].key@),
{
    lemma_entries_map(e.take(i));
    if entries_map(e.take(i)).contains_key(e[i].key@) {
        let j = choose|j: int| 0 <= j < e.take(i).len() && e.take(i)[j].key@ == e[i].key@;
        assert(e.take(i)[j] == e[j]);
    }
}

/// Replacing entry `i` by one with the same name updates that name only.
proof fn lemma_entries_map_replace(e: Seq<OverrideEntry>, i: int, x: OverrideEntry)
    requires
        0 <= i < e.len(),
        x.key@ == e[i].key@,
        forall|a: int, b: int| 0 <= a < b < e.len() ==> e[a].key@ != e[b].key@,
    ensures
        entries_map(e.update(i, x)) == entries_map(e).insert(x.key@, (x.value@, x.save)),
{
    let e2 = e.update(i, x);
    lemma_entries_map(e);
    lemma_entries_map(e2);
    assert forall|k: Seq<char>| #[trigger] entries_map(e2).contains_key(k) == entries_map(e).insert(
        x.key@,
        (x.value@, x.save),
    ).contains_key(k) by {
        if entries_map(e).contains_key(k) {
            let j = choose|j: int| 0 <= j < e.len() && e[j].key@ == k;
            if j != i {
                assert(e2[j] == e[j]);
            }
        }
        if entries_map(e2).contains_key(k) {
            let j = choose|j: int| 0 <= j < e2.len() && e2[j].key@ == k;
            if j != i {
                assert(e2[j] == e[j]);
            }
        }
        if k == x.key@ {
            assert(e2[i] == x);
        }
    }
    assert forall|k: Seq<char>| #[trigger] entries_map(e2).contains_key(k) implies entries_map(e2)[k]
        == entries_map(e).insert(x.key@, (x.value@, x.save))[k] by {
        let j = choose|j: int| 0 <= j < e2.len() && e2[j].key@ == k;
        lemma_entries_map_at(e2, j);
        if j != i {
            assert(e2[j] == e[j]);
            lemma_entries_map_at(e, j);
        } else {
            assert(e2[j] == x);
        }
    }
    assert(entries_map(e2) =~= entries_map(e).insert(x.key@, (x.value@, x.save)));
}

/// A map of distinct entries holds exactly their names.
proof fn lemma_entries_map(e: Seq<OverrideEntry>)
    ensures
        forall|k: Seq<char>|
            #[trigger] entries_map(e).contains_key(k) <==> exists|i: int| 0 <= i < e.len() && e[i].key@ == k,
    decreases e.len(),
{
    if e.len() > 0 {
        lemma_entries_map(e.drop_last());
        assert forall|k: Seq<char>| #[trigger] entries_map(e).contains_key(k) implies exists|i: int|
            0 <= i < e.len() && e[i].key@ == k by {
            if k != e.last().key@ {
                assert(entries_map(e.drop_last()).contains_key(k));
                let i = choose|i: int| 0 <= i < e.drop_last().len() && e.drop_last()[i].key@ == k;
                assert(e[i] == e.drop_last()[i]);
            } else {
                assert(e[e.len() - 1].key@ == k);
            }
        }
        assert forall|k: Seq<char>| (exists|i: int| 0 <= i < e.len() && e[i].key@ == k) implies #[trigger] entries_map(e).contains_key(k) by {
            let i = choose|i: int| 0 <= i < e.len() && e[i].key@ == k;
            if i < e.len() - 1 {
                assert(e.drop_last()[i] == e[i]);
                assert(entries_map(e.drop_last()).contains_key(k));
            }
        }
    }
}

/// In a list of distinct entries, entry `i` is what the map holds for its name.
proof fn lemma_entries_map_at(e: Seq<OverrideEntry>, i: int)
    requires
        0 <= i < e.len(),
        forall|a: int, b: int| 0 <= a < b < e.len() ==> e[a].key@ != e[b].key@,
    ensures
        entries_map(e).contains_key(e[i].key@),
        entries_map(e)[e[i].key@] == (e[i].value@, e[i].save),
    decreases e.len(),
{
    if i < e.len() - 1 {
        lemma_entries_map_at(e.drop_last(), i);
        assert(e.drop_last()[i] == e[i]);
    }
}

/// What is read back of an override is what was written: after recording
/// `value` for `key`, the registry holds exactly that value and marking.
pub proof fn override_reads_back(
    before: Map<Seq<char>, (Seq<char>, bool)>,
    key: Seq<char>,
    value: Seq<char>,
    save: bool,
)
    ensures
        before.insert(key, (value, save)).contains_key(key),
        before.insert(key, (value, save))[key] == (value, save),
{
}

/// Persisted overrides survive a restart: when `text` is what saving the
/// overrides `m` put in the storage under identifier `mid`, a fresh registry
/// that loads it holds exactly the overrides that were marked for saving,
/// with their values, marked for saving again; those not marked for saving
/// are not restored.
pub proof fn persisted_overrides_reload(m: Map<Seq<char>, (Seq<char>, bool)>, text: Seq<char>, mid: u64)
    ensures
        persisted_overrides(text, mid) == Some(saved_overrides(m)) ==> with_loaded(
            Map::empty(),
            persisted_overrides(text, mid)->0,
        ) == Map::new(
            |k: Seq<char>| m.contains_key(k) && m[k].1,
            |k: Seq<char>| (m[k].0, true),
        ),
{
    assert(with_loaded(Map::empty(), saved_overrides(m)) =~= Map::new(
        |k: Seq<char>| m.contains_key(k) && m[k].1,
        |k: Seq<char>| (m[k].0, true),
    ));
}

} // verus!
