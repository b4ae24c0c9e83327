//! The expiring key-value store: a mapping from key to value with an
//! optional absolute expiry instant per key, removed lazily on reads and
//! actively by a periodic sweep.
use vstd::prelude::*;
use vstd::string::StringExecFns;

use crate::set::{KeyExipry, KeyExistence, SetArgs};
use crate::storage_result::StorageResult;

verus! {

broadcast use vstd::std_specs::vec::group_vec_axioms, vstd::seq::group_seq_axioms, vstd::set_lib::group_set_lib_default, vstd::set::group_set_axioms, vstd::map::group_map_axioms;

/// A stored payload. Strings are the only value type of this store.
#[derive(Debug, PartialEq, Eq)]
pub enum StorageValue {
    String(String),
}

/// What the store keeps for one key: the payload and, optionally, the
/// absolute instant (in milliseconds) at which it expires.
#[derive(Debug, PartialEq, Eq)]
pub struct StorageData {
    pub value: StorageValue,
    pub expiry: Option<u128>,
}

/// The model of one stored entry.
pub struct StoredVal {
    pub value: Seq<char>,
    pub expiry: Option<u128>,
}

/// The model of a payload.
pub open spec fn data_model(d: StorageData) -> StoredVal {
    match d.value {
        StorageValue::String(s) => StoredVal { value: s@, expiry: d.expiry },
    }
}

impl StorageData {
    /// Attach an absolute expiry instant to this payload.
    pub fn add_expiry(&mut self, expiry: u128)
        ensures
            final(self).expiry == Some(expiry),
            final(self).value == old(self).value,
    {
        self.expiry = Some(expiry);
    }

    /// An identical payload.
    pub fn duplicate(&self) -> (r: StorageData)
        ensures
            r == *self,
    {
        StorageData {
            value: match &self.value {
                StorageValue::String(s) => StorageValue::String(s.clone()),
            },
            expiry: self.expiry,
        }
    }
}

impl From<String> for StorageData {
    /// A fresh, never-expiring payload holding the given text.
    fn from(s: String) -> (r: StorageData) {
        StorageData { value: StorageValue::String(s), expiry: None }
    }
}

impl vstd::std_specs::convert::FromSpecImpl<String> for StorageData {
    open spec fn obeys_from_spec() -> bool {
        true
    }

    open spec fn from_spec(s: String) -> StorageData {
        StorageData { value: StorageValue::String(s), expiry: None }
    }
}

// ---------------------------------------------------------------------------
// The entry list and its map model
// ---------------------------------------------------------------------------
/// No two entries share a key.
pub open spec fn unique_keys(s: Seq<(String, StorageData)>) -> bool {
    forall|i: int, j: int| 0 <= i < j < s.len() ==> (#[trigger] s[i]).0@ != (#[trigger] s[j]).0@
}

/// The mapping an entry list stands for.
pub open spec fn entries_map(s: Seq<(String, StorageData)>) -> Map<Seq<char>, StoredVal>
    decreases s.len(),
{
    if s.len() == 0 {
        Map::empty()
    } else {
        entries_map(s.drop_last()).insert(s.last().0@, data_model(s.last().1))
    }
}

/// An entry's key is in the map.
pub proof fn lemma_entries_map_contains_at(s: Seq<(String, StorageData)>, i: int)
    requires
        0 <= i < s.len(),
    ensures
        entries_map(s).dom().contains(s[i].0@),
    decreases s.len(),
{
    if i < s.len() - 1 {
        lemma_entries_map_contains_at(s.drop_last(), i);
    }
}

/// A key held by no entry is not in the map.
pub proof fn lemma_entries_map_not_contains(s: Seq<(String, StorageData)>, k: Seq<char>)
    requires
        forall|i: int| 0 <= i < s.len() ==> (#[trigger] s[i]).0@ != k,
    ensures
        !entries_map(s).dom().contains(k),
    decreases s.len(),
{
    if s.len() > 0 {
        lemma_entries_map_not_contains(s.drop_last(), k);
    }
}

/// With unique keys, the map sends each entry's key to that entry's payload.
pub proof fn lemma_entries_map_value(s: Seq<(String, StorageData)>, i: int)
    requires
        unique_keys(s),
        0 <= i < s.len(),
    ensures
        entries_map(s).dom().contains(s[i].0@),
        entries_map(s)[s[i].0@] == data_model(s[i].1),
    decreases s.len(),
{
    lemma_entries_map_contains_at(s, i);
    if i < s.len() - 1 {
        assert(unique_keys(s.drop_last()));
        lemma_entries_map_value(s.drop_last(), i);
        assert(s[i].0@ != s.last().0@);
    }
}

/// The map is finite and has exactly one element per entry.
pub proof fn lemma_entries_map_card(s: Seq<(String, StorageData)>)
    requires
        unique_keys(s),
    ensures
        entries_map(s).dom().finite(),
        entries_map(s).dom().len() == s.len(),
    decreases s.len(),
{
    if s.len() > 0 {
        assert(unique_keys(s.drop_last()));
        lemma_entries_map_card(s.drop_last());
        lemma_entries_map_not_contains(s.drop_last(), s.last().0@);
    }
}

/// Replacing the entry at `i` by one with the same key updates the map at
/// that key and keeps the keys unique.
pub proof fn lemma_entries_map_update(s: Seq<(String, StorageData)>, i: int, e: (String, StorageData))
    requires
        unique_keys(s),
        0 <= i < s.len(),
        e.0@ == s[i].0@,
    ensures
        unique_keys(s.update(i, e)),
        entries_map(s.update(i, e)) == entries_map(s).insert(e.0@, data_model(e.1)),
    decreases s.len(),
{
    let su = s.update(i, e);
    if i == s.len() - 1 {
        assert(su.drop_last() =~= s.drop_last());
        assert(su.last() == e);
        assert(entries_map(su) =~= entries_map(s).insert(e.0@, data_model(e.1)));
    } else {
        assert(unique_keys(s.drop_last()));
        lemma_entries_map_update(s.drop_last(), i, e);
        assert(su.drop_last() =~= s.drop_last().update(i, e));
        assert(su.last() == s.last());
        assert(entries_map(su) =~= entries_map(s).insert(e.0@, data_model(e.1)));
    }
}

/// Removing the entry at `i` removes exactly its key from the map and keeps
/// the keys unique.
pub proof fn lemma_entries_map_remove(s: Seq<(String, StorageData)>, i: int)
    requires
        unique_keys(s),
        0 <= i < s.len(),
    ensures
        unique_keys(s.remove(i)),
        entries_map(s.remove(i)) == entries_map(s).remove(s[i].0@),
    decreases s.len(),
{
    let sr = s.remove(i);
    if i == s.len() - 1 {
        assert(sr =~= s.drop_last());
        lemma_entries_map_not_contains(s.drop_last(), s.last().0@);
        assert(entries_map(sr) =~= entries_map(s).remove(s[i].0@));
    } else {
        assert(unique_keys(s.drop_last()));
        lemma_entries_map_remove(s.drop_last(), i);
        assert(sr.drop_last() =~= s.drop_last().remove(i));
        assert(sr.last() == s.last());
        assert(s[i].0@ != s.last().0@);
        assert(entries_map(sr) =~= entries_map(s).remove(s[i].0@));
    }
}

// ---------------------------------------------------------------------------
// The store's semantics
// ---------------------------------------------------------------------------
/// The absolute expiry instant an expiry constraint asks for, from `now` in
/// milliseconds: `EX` counts seconds, `PX` milliseconds.
pub open spec fn spec_instant(e: KeyExipry, now: u64) -> u128 {
    match e {
        KeyExipry::EX(s) => (now + s * 1000) as u128,
        KeyExipry::PX(ms) => (now + ms) as u128,
    }
}

/// Reading a key at `now`: a key whose expiry instant has been reached is
/// evicted and absent; otherwise the stored text is returned.
pub open spec fn spec_get(m: Map<Seq<char>, StoredVal>, k: Seq<char>, now: u64) -> (
    Map<Seq<char>, StoredVal>,
    Option<Seq<char>>,
) {
    if m.dom().contains(k) {
        match m[k].expiry {
            Some(e) => if e <= now {
                (m.remove(k), None::<Seq<char>>)
            } else {
                (m, Some(m[k].value))
            },
            None => (m, Some(m[k].value)),
        }
    } else {
        (m, None)
    }
}

/// Writing a key at `now`. Existence is judged against the raw map, with no
/// eviction: `NX` proceeds only on an absent key, `XX` only on a present
/// one. A write that proceeds replaces the whole entry — clearing any old
/// expiry unless the options set a new one — and acknowledges with `OK`; a
/// write that does not proceed changes nothing and reports whether the key
/// was present.
pub open spec fn spec_set(
    m: Map<Seq<char>, StoredVal>,
    k: Seq<char>,
    v: Seq<char>,
    args: SetArgs,
    now: u64,
) -> (Map<Seq<char>, StoredVal>, Seq<char>) {
    let present = m.dom().contains(k);
    let proceed = match args.existence {
        None => true,
        Some(KeyExistence::NX) => !present,
        Some(KeyExistence::XX) => present,
    };
    if proceed {
        let exp = match args.expiry {
            None => None::<u128>,
            Some(e) => Some(spec_instant(e, now)),
        };
        (m.insert(k, StoredVal { value: v, expiry: exp }), "OK"@)
    } else if present {
        (m, "Key is present true"@)
    } else {
        (m, "Key is present false"@)
    }
}

/// An entry the sweep removes: its expiry instant lies strictly before `now`.
pub open spec fn expired_strictly(sv: StoredVal, now: u64) -> bool {
    sv.expiry matches Some(e) && e < now
}

/// The sweep keeps exactly the entries not yet strictly expired.
pub open spec fn spec_sweep(m: Map<Seq<char>, StoredVal>, now: u64) -> Map<Seq<char>, StoredVal> {
    Map::new(|k: Seq<char>| m.dom().contains(k) && !expired_strictly(m[k], now), |k: Seq<char>| m[k])
}

/// Appending an entry with a fresh key inserts it into the map and keeps the
/// keys unique.
pub proof fn lemma_entries_map_push(s: Seq<(String, StorageData)>, e: (String, StorageData))
    requires
        unique_keys(s),
        forall|i: int| 0 <= i < s.len() ==> (#[trigger] s[i]).0@ != e.0@,
    ensures
        unique_keys(s.push(e)),
        entries_map(s.push(e)) == entries_map(s).insert(e.0@, data_model(e.1)),
{
    assert(s.push(e).drop_last() =~= s);
    assert(forall|i: int, j: int|
        0 <= i < j < s.push(e).len() ==> (#[trigger] s.push(e)[i]).0@ != (#[trigger] s.push(
            e,
        )[j]).0@);
}

// ---------------------------------------------------------------------------
// The store
// ---------------------------------------------------------------------------
/// Relies on `SystemTime::now` with `duration_since` the Unix epoch: the
/// current wall-clock time in milliseconds, capped at the largest `u64`.
/// Nothing is assumed of the value.
#[verifier::external_body]
pub(crate) fn now_millis() -> u64 {
    let ms = std::time::SystemTime::now()
        .duration_since(std::time::UNIX_EPOCH)
        .map(|d| d.as_millis())
        .unwrap_or(0);
    if ms > u64::MAX as u128 {
        u64::MAX
    } else {
        ms as u64
    }
}

/// The key-value store: the entry list (one entry per key) and the flag
/// that enables the periodic sweep. Lazy, read-time expiry is always on.
pub struct Storage {
    entries: Vec<(String, StorageData)>,
    active_expiry: bool,
}

impl View for Storage {
    type V = Map<Seq<char>, StoredVal>;

    closed spec fn view(&self) -> Map<Seq<char>, StoredVal> {
        entries_map(self.entries@)
    }
}

impl Storage {
    /// Well-formed: no two entries share a key.
    pub closed spec fn wf(&self) -> bool {
        unique_keys(self.entries@)
    }

    /// Whether the periodic sweep is enabled.
    pub closed spec fn spec_active_expiry(&self) -> bool {
        self.active_expiry
    }

    /// An empty store with the active sweep enabled.
    pub fn new() -> (r: Self)
        ensures
            r.wf(),
            r@ == Map::<Seq<char>, StoredVal>::empty(),
            r.spec_active_expiry(),
    {
        Self { entries: Vec::new(), active_expiry: true }
    }

    /// Turn the periodic sweep on or off. Read-time expiry is unaffected.
    pub fn set_active_expiry(&mut self, value: bool)
        requires
            old(self).wf(),
        ensures
            final(self).wf(),
            final(self)@ == old(self)@,
            final(self).spec_active_expiry() == value,
    {
        self.active_expiry = value;
    }

    /// Whether the periodic sweep is enabled.
    pub fn is_active_expiry(&self) -> (r: bool)
        ensures
            r == self.spec_active_expiry(),
    {
        self.active_expiry
    }

    /// The number of keys held, expired entries included.
    pub fn len(&self) -> (r: usize)
        requires
            self.wf(),
        ensures
            r == self@.dom().len(),
    {
        proof {
            lemma_entries_map_card(self.entries@);
        }
        self.entries.len()
    }

    /// The position of the entry holding `key`, if any.
    fn find(&self, key: &String) -> (r: Option<usize>)
        requires
            self.wf(),
        ensures
            match r {
                Some(i) => i < self.entries@.len() && self.entries@[i as int].0@ == key@
                    && self@.dom().contains(key@) && self@[key@] == data_model(
                    self.entries@[i as int].1,
                ),
                None => !self@.dom().contains(key@),
            },
    {
        let n = self.entries.len();
        let mut i: usize = 0;
        while i < n
            invariant
                i <= n,
                n == self.entries@.len(),
                self.wf(),
                forall|j: int| 0 <= j < i ==> (#[trigger] self.entries@[j]).0@ != key@,
            decreases n - i,
        {
            if self.entries[i].0 == *key {
                proof {
                    lemma_entries_map_value(self.entries@, i as int);
                }
                return Some(i);
            }
            i = i + 1;
        }
        proof {
            lemma_entries_map_not_contains(self.entries@, key@);
        }
        None
    }

    /// The stored payload under `key`, expired or not, with no eviction.
    pub fn get_data(&self, key: &String) -> (r: Option<&StorageData>)
        requires
            self.wf(),
        ensures
            match r {
                Some(d) => self@.dom().contains(key@) && self@[key@] == data_model(*d),
                None => !self@.dom().contains(key@),
            },
    {
        match self.find(key) {
            Some(i) => Some(&self.entries[i].1),
            None => None,
        }
    }

    /// Read `key` at time `now`: an entry whose expiry instant has been
    /// reached is evicted and reported absent.
    pub fn get_at(&mut self, key: &String, now: u64) -> (r: StorageResult<Option<String>>)
        requires
            old(self).wf(),
        ensures
            final(self).wf(),
            final(self).spec_active_expiry() == old(self).spec_active_expiry(),
            final(self)@ == spec_get(old(self)@, key@, now).0,
            ({
                let out = spec_get(old(self)@, key@, now).1;
                match r {
                    Ok(Some(s)) => out == Some(s@),
                    Ok(None) => out is None,
                    Err(_) => false,
                }
            }),
    {
        let i = match self.find(key) {
            Some(i) => i,
            None => {
                return Ok(None);
            },
        };
        let expired = match self.entries[i].1.expiry {
            Some(e) => e <= now as u128,
            None => false,
        };
        if expired {
            proof {
                lemma_entries_map_remove(self.entries@, i as int);
            }
            self.entries.remove(i);
            return Ok(None);
        }
        let text = match &self.entries[i].1.value {
            StorageValue::String(s) => s.clone(),
        };
        Ok(Some(text))
    }

    /// Write `key` at time `now` under the given modifiers; see `spec_set`.
    pub fn set_at(&mut self, key: String, value: String, args: SetArgs, now: u64) -> (r:
        StorageResult<String>)
        requires
            old(self).wf(),
        ensures
            final(self).wf(),
            final(self).spec_active_expiry() == old(self).spec_active_expiry(),
            final(self)@ == spec_set(old(self)@, key@, value@, args, now).0,
            r matches Ok(s) && s@ == spec_set(old(self)@, key@, value@, args, now).1,
    {
        let expiry: Option<u128> = match args.expiry {
            None => None,
            Some(KeyExipry::EX(s)) => Some(now as u128 + (s as u128) * 1000),
            Some(KeyExipry::PX(ms)) => Some(now as u128 + ms as u128),
        };
        let found = self.find(&key);
        let proceed = match args.existence {
            None => true,
            Some(KeyExistence::NX) => found.is_none(),
            Some(KeyExistence::XX) => found.is_some(),
        };
        if !proceed {
            if found.is_some() {
                return Ok(String::from_str("Key is present true"));
            }
            return Ok(String::from_str("Key is present false"));
        }
        let data = StorageData { value: StorageValue::String(value), expiry };
        match found {
            Some(i) => {
                proof {
                    lemma_entries_map_update(self.entries@, i as int, (key, data));
                }
                self.entries.set(i, (key, data));
            },
            None => {
                proof {
                    assert forall|j: int|
                        0 <= j < self.entries@.len() implies (#[trigger] self.entries@[j]).0@
                        != key@ by {
                        if self.entries@[j].0@ == key@ {
                            lemma_entries_map_contains_at(self.entries@, j);
                        }
                    }
                    lemma_entries_map_push(self.entries@, (key, data));
                }
                self.entries.push((key, data));
            },
        }
        Ok(String::from_str("OK"))
    }

    /// Run the active-expiry sweep at time `now`: every entry whose expiry
    /// instant lies strictly before `now` is removed. Does nothing when the
    /// sweep is disabled.
    #[verifier::loop_isolation(false)]
    pub fn expire_keys_at(&mut self, now: u64)
        requires
            old(self).wf(),
        ensures
            final(self).wf(),
            final(self).spec_active_expiry() == old(self).spec_active_expiry(),
            final(self)@ == if old(self).spec_active_expiry() {
                spec_sweep(old(self)@, now)
            } else {
                old(self)@
            },
    {
        if !self.active_expiry {
            return ;
        }
        let n = self.entries.len();
        let mut kept: Vec<(String, StorageData)> = Vec::new();
        let mut i: usize = 0;
        proof {
            assert(entries_map(kept@) =~= spec_sweep(entries_map(self.entries@.take(0)), now));
        }
        while i < n
            invariant
                i <= n,
                unique_keys(kept@),
                entries_map(kept@) == spec_sweep(entries_map(self.entries@.take(i as int)), now),
            decreases n - i,
        {
            let keep = match self.entries[i].1.expiry {
                Some(e) => !(e < now as u128),
                None => true,
            };
            proof {
                let pref = self.entries@.take(i as int);
                let pref2 = self.entries@.take(i as int + 1);
                let e = self.entries@[i as int];
                assert(pref2.drop_last() =~= pref);
                assert(pref2.last() == e);
                assert forall|j: int| 0 <= j < pref.len() implies (#[trigger] pref[j]).0@
                    != e.0@ by {
                    assert(pref[j] == self.entries@[j]);
                }
                lemma_entries_map_not_contains(pref, e.0@);
                if keep {
                    assert(entries_map(kept@).insert(e.0@, data_model(e.1)) =~= spec_sweep(
                        entries_map(pref2),
                        now,
                    ));
                    assert forall|j: int| 0 <= j < kept@.len() implies (#[trigger] kept@[j]).0@
                        != e.0@ by {
                        if kept@[j].0@ == e.0@ {
                            lemma_entries_map_contains_at(kept@, j);
                        }
                    }
                    lemma_entries_map_push(kept@, e);
                } else {
                    assert(entries_map(kept@) =~= spec_sweep(entries_map(pref2), now));
                }
            }
            if keep {
                let key_copy = self.entries[i].0.clone();
                let data_copy = self.entries[i].1.duplicate();
                kept.push((key_copy, data_copy));
            }
            i = i + 1;
        }
        proof {
            assert(self.entries@.take(n as int) =~= self.entries@);
        }
        self.entries = kept;
    }

    /// Read `key` at the current wall-clock time.
    pub fn get(&mut self, key: String) -> (r: StorageResult<Option<String>>)
        requires
            old(self).wf(),
        ensures
            final(self).wf(),
            final(self).spec_active_expiry() == old(self).spec_active_expiry(),
            exists|now: u64|
                {
                    &&& final(self)@ == #[trigger] spec_get(old(self)@, key@, now).0
                    &&& match r {
                        Ok(Some(s)) => spec_get(old(self)@, key@, now).1 == Some(s@),
                        Ok(None) => spec_get(old(self)@, key@, now).1 is None,
                        Err(_) => false,
                    }
                },
    {
        let now = now_millis();
        let r = self.get_at(&key, now);
        proof {
            assert(self@ == spec_get(old(self)@, key@, now).0);
        }
        r
    }

    /// Write `key` at the current wall-clock time.
    pub fn set(&mut self, key: String, value: String, args: SetArgs) -> (r: StorageResult<String>)
        requires
            old(self).wf(),
        ensures
            final(self).wf(),
            final(self).spec_active_expiry() == old(self).spec_active_expiry(),
            exists|now: u64|
                {
                    &&& final(self)@ == #[trigger] spec_set(old(self)@, key@, value@, args, now).0
                    &&& r matches Ok(s) && s@ == spec_set(old(self)@, key@, value@, args, now).1
                },
    {
        let now = now_millis();
        let ghost k = key@;
        let ghost v = value@;
        let r = self.set_at(key, value, args, now);
        proof {
            assert(self@ == spec_set(old(self)@, k, v, args, now).0);
        }
        r
    }

    /// Run the sweep at the current wall-clock time, returned as a ghost
    /// value so that callers can name the instant the sweep used.
    pub fn expire_keys(&mut self) -> (now: Ghost<u64>)
        requires
            old(self).wf(),
        ensures
            final(self).wf(),
            final(self).spec_active_expiry() == old(self).spec_active_expiry(),
            final(self)@ == if old(self).spec_active_expiry() {
                spec_sweep(old(self)@, now@)
            } else {
                old(self)@
            },
    {
        let now = now_millis();
        self.expire_keys_at(now);
        Ghost(now)
    }
}

// ---------------------------------------------------------------------------
// Laws of the store
// ---------------------------------------------------------------------------
/// Conditional writes respect an earlier unconditional one: after a plain
/// write of `v1`, a write of `v2` under `NX` is skipped and the stored value
/// stays `v1`, while a write of `v2` under `XX` proceeds and replaces it.
pub proof fn lemma_conditional_set(
    m: Map<Seq<char>, StoredVal>,
    k: Seq<char>,
    v1: Seq<char>,
    v2: Seq<char>,
    now1: u64,
    now2: u64,
)
    ensures
        ({
            let plain = SetArgs { expiry: None, existence: None, get: false };
            let nx = SetArgs { expiry: None, existence: Some(KeyExistence::NX), get: false };
            let xx = SetArgs { expiry: None, existence: Some(KeyExistence::XX), get: false };
            let m1 = spec_set(m, k, v1, plain, now1).0;
            &&& spec_set(m1, k, v2, nx, now2).0 == m1
            &&& m1[k].value == v1
            &&& spec_set(m1, k, v2, xx, now2).0[k].value == v2
        }),
{
}

/// The two expiry paths agree. After a write with a millisecond expiry,
/// once the expiry instant lies strictly in the past, a read reports the
/// key absent and evicts it, and the active sweep removes it as well.
pub proof fn lemma_expiry_agreement(
    m: Map<Seq<char>, StoredVal>,
    k: Seq<char>,
    v: Seq<char>,
    px: u64,
    now: u64,
    later: u64,
)
    requires
        now + px < later,
    ensures
        ({
            let args = SetArgs { expiry: Some(KeyExipry::PX(px)), existence: None, get: false };
            let m1 = spec_set(m, k, v, args, now).0;
            &&& spec_get(m1, k, later).1 is None
            &&& !spec_get(m1, k, later).0.dom().contains(k)
            &&& !spec_sweep(m1, later).dom().contains(k)
        }),
{
}

} // verus!
