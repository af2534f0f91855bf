//! The key-value store: a table of entries with lazy expiry, and a handle
//! that shares one table between connections behind a lock.
use vstd::prelude::*;
use vstd::rwlock::{RwLock, RwLockPredicate};
use std::sync::Arc;
use std::time::{Duration, SystemTime};

verus! {

/// What the store holds for one key.
#[derive(Debug, Clone)]
pub enum RedisValue {
    SimpleValue(String),
    ValueWithExpiry { value: String, expiry_unix_ms: u128 },
}

/// The mathematical form of a [`RedisValue`]: its text, and the instant in
/// milliseconds since the Unix epoch after which it is gone, if any.
pub struct StoredModel {
    pub text: Seq<char>,
    pub expiry: Option<int>,
}

impl View for RedisValue {
    type V = StoredModel;

    open spec fn view(&self) -> StoredModel {
        match self {
            RedisValue::SimpleValue(s) => StoredModel { text: s@, expiry: None },
            RedisValue::ValueWithExpiry { value, expiry_unix_ms } => StoredModel {
                text: value@,
                expiry: Some(*expiry_unix_ms as int),
            },
        }
    }
}

/// A stored value is present at time `now` only while `now` is before its
/// expiry instant: from the instant itself on it is gone.
pub open spec fn is_live(v: StoredModel, now: int) -> bool {
    match v.expiry {
        None => true,
        Some(t) => now < t,
    }
}

/// What a read of `key` at time `now` gives.
pub open spec fn live_text(m: Map<Seq<char>, StoredModel>, key: Seq<char>, now: int) -> Option<
    Seq<char>,
> {
    if m.contains_key(key) && is_live(m[key], now) {
        Some(m[key].text)
    } else {
        None
    }
}

/// The text that was stored under `key`, whether or not it has expired.
pub open spec fn stored_text(m: Map<Seq<char>, StoredModel>, key: Seq<char>) -> Option<Seq<char>> {
    if m.contains_key(key) {
        Some(m[key].text)
    } else {
        None
    }
}

/// The text of an optional string.
pub open spec fn text_opt(o: Option<String>) -> Option<Seq<char>> {
    match o {
        Some(s) => Some(s@),
        None => None,
    }
}

/// The map that a list of entries describes; a later entry wins.
pub open spec fn map_of(s: Seq<(String, RedisValue)>) -> Map<Seq<char>, StoredModel>
    decreases s.len(),
{
    if s.len() == 0 {
        Map::empty()
    } else {
        map_of(s.drop_last()).insert(s.last().0@, s.last().1@)
    }
}

/// No key stands in two entries.
pub open spec fn keys_unique(s: Seq<(String, RedisValue)>) -> bool {
    forall|i: int, j: int| 0 <= i < s.len() && 0 <= j < s.len() && i != j ==> s[i].0@ != s[j].0@
}

/// A key that no entry holds is not in the map.
proof fn lemma_map_of_absent(s: Seq<(String, RedisValue)>, k: Seq<char>)
    requires
        forall|i: int| 0 <= i < s.len() ==> s[i].0@ != k,
    ensures
        !map_of(s).contains_key(k),
    decreases s.len(),
{
    if s.len() > 0 {
        lemma_map_of_absent(s.drop_last(), k);
    }
}

/// The entry of a key gives the map's value for it.
proof fn lemma_map_of_at(s: Seq<(String, RedisValue)>, i: int)
    requires
        keys_unique(s),
        0 <= i < s.len(),
    ensures
        map_of(s).contains_key(s[i].0@),
        map_of(s)[s[i].0@] == s[i].1@,
    decreases s.len(),
{
    if i < s.len() - 1 {
        lemma_map_of_at(s.drop_last(), i);
    }
}

/// Replacing the entry of a key updates the map at that key.
proof fn lemma_map_of_update(s: Seq<(String, RedisValue)>, i: int, e: (String, RedisValue))
    requires
        keys_unique(s),
        0 <= i < s.len(),
        e.0@ == s[i].0@,
    ensures
        map_of(s.update(i, e)) =~= map_of(s).insert(e.0@, e.1@),
    decreases s.len(),
{
    let t = s.update(i, e);
    if i < s.len() - 1 {
        assert(t.drop_last() =~= s.drop_last().update(i, e));
        lemma_map_of_update(s.drop_last(), i, e);
        assert(s.last().0@ != e.0@);
    } else {
        assert(t.drop_last() =~= s.drop_last());
        lemma_map_of_absent(s.drop_last(), e.0@);
    }
}

/// A table from keys to stored values, one entry per key.
pub struct Table {
    entries: Vec<(String, RedisValue)>,
}

impl View for Table {
    type V = Map<Seq<char>, StoredModel>;

    closed spec fn view(&self) -> Map<Seq<char>, StoredModel> {
        map_of(self.entries@)
    }
}

impl Table {
    /// Each key has one entry.
    pub closed spec fn wf(&self) -> bool {
        keys_unique(self.entries@)
    }

    /// An empty table.
    pub fn new() -> (t: Self)
        ensures
            t.wf(),
            t@ == Map::<Seq<char>, StoredModel>::empty(),
    {
        Table { entries: Vec::new() }
    }

    /// Where `key` stands among the entries.
    fn position(&self, key: &String) -> (r: Option<usize>)
        requires
            self.wf(),
        ensures
            match r {
                Some(i) => i < self.entries@.len() && self.entries@[i as int].0@ == key@
                    && self@.contains_key(key@) && self@[key@] == self.entries@[i as int].1@,
                None => !self@.contains_key(key@),
            },
    {
        let mut i: usize = 0;
        while i < self.entries.len()
            invariant
                i <= self.entries@.len(),
                keys_unique(self.entries@),
                forall|j: int| 0 <= j < i ==> self.entries@[j].0@ != key@,
            decreases self.entries.len() - i,
        {
            if self.entries[i].0 == *key {
                proof {
                    lemma_map_of_at(self.entries@, i as int);
                }
                return Some(i);
            }
            i = i + 1;
        }
        proof {
            lemma_map_of_absent(self.entries@, key@);
        }
        None
    }

    /// The text under `key` at time `now`, unless it is absent or expired.
    /// Reading changes nothing: an expired entry stays until overwritten.
    pub fn get(&self, key: &String, now: u128) -> (r: Option<String>)
        requires
            self.wf(),
        ensures
            text_opt(r) == live_text(self@, key@, now as int),
    {
        match self.position(key) {
            None => None,
            Some(i) => match &self.entries[i].1 {
                RedisValue::SimpleValue(s) => Some(s.clone()),
                RedisValue::ValueWithExpiry { value, expiry_unix_ms } => {
                    if *expiry_unix_ms <= now {
                        None
                    } else {
                        Some(value.clone())
                    }
                },
            },
        }
    }

    /// Stores `value` under `key`, replacing what was there, and returns the
    /// text that was there before, expired or not.
    pub fn set(&mut self, key: String, value: RedisValue) -> (r: Option<String>)
        requires
            old(self).wf(),
        ensures
            final(self).wf(),
            final(self)@ == old(self)@.insert(key@, value@),
            text_opt(r) == stored_text(old(self)@, key@),
    {
        match self.position(&key) {
            None => {
                proof {
                    let s = self.entries@;
                    assert forall|j: int| 0 <= j < s.len() implies s[j].0@ != key@ by {
                        if s[j].0@ == key@ {
                            lemma_map_of_at(s, j);
                        }
                    }
                }
                let ghost before = self.entries@;
                self.entries.push((key, value));
                proof {
                    assert(self.entries@.drop_last() =~= before);
                }
                None
            },
            Some(i) => {
                let previous = match &self.entries[i].1 {
                    RedisValue::SimpleValue(s) => s.clone(),
                    RedisValue::ValueWithExpiry { value, expiry_unix_ms: _ } => value.clone(),
                };
                proof {
                    lemma_map_of_update(self.entries@, i as int, (key, value));
                }
                self.entries.set(i, (key, value));
                Some(previous)
            },
        }
    }
}

/// Holds a table to well-formedness while it sits behind the lock.
pub struct TableInv;

impl RwLockPredicate<Table> for TableInv {
    open spec fn inv(self, t: Table) -> bool {
        t.wf()
    }
}

/// Reads and writes on a store that connections share.
pub trait RedisKV {
    fn get(&self, key: String) -> Option<String>;

    fn set(&self, key: String, value: RedisValue) -> Option<String>;
}

/// A handle on one table shared by every connection. Cloning the handle
/// shares the table; each read or write holds the lock for that one step.
#[derive(Clone)]
pub struct HashStore {
    pub(crate) data: Arc<RwLock<Table, TableInv>>,
}

impl HashStore {
    /// A handle on a new, empty table.
    pub fn new() -> Self {
        HashStore { data: Arc::new(RwLock::new(Table::new(), Ghost(TableInv))) }
    }
}

impl RedisKV for HashStore {
    /// The text under `key` now, unless it is absent or expired.
    fn get(&self, key: String) -> Option<String> {
        let now = get_epoch_ms();
        let handle = self.data.acquire_read();
        let r = handle.borrow().get(&key, now);
        handle.release_read();
        r
    }

    /// Stores `value` under `key` and returns the text that was there.
    fn set(&self, key: String, value: RedisValue) -> Option<String> {
        let (mut table, handle) = self.data.acquire_write();
        let r = table.set(key, value);
        handle.release_write(table);
        r
    }
}

#[verifier::external_type_specification]
#[verifier::external_body]
pub struct ExSystemTime(SystemTime);

/// Relies on `SystemTime::now`: a reading of the system clock, about which
/// nothing is promised.
#[verifier::external_body]
fn clock_reading() -> SystemTime {
    SystemTime::now()
}

/// Relies on `SystemTime::duration_since`: the time from the Unix epoch to
/// `t`, or nothing when `t` lies before it.
#[verifier::external_body]
fn since_unix_epoch(t: &SystemTime) -> Option<Duration> {
    t.duration_since(std::time::UNIX_EPOCH).ok()
}

/// Relies on `Duration::as_millis`: the whole milliseconds in `d`.
#[verifier::external_body]
fn whole_millis(d: &Duration) -> u128 {
    d.as_millis()
}

/// Milliseconds since the Unix epoch by the system clock; 0 when the clock
/// reads earlier than the epoch.
pub fn get_epoch_ms() -> u128 {
    match since_unix_epoch(&clock_reading()) {
        Some(d) => whole_millis(&d),
        None => 0,
    }
}

} // verus!
