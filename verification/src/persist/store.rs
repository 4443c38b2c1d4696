//! The store: a map from key to value in which an entry may carry the
//! moment at which it stops being visible.
//!
//! Time is a number of milliseconds since the Unix epoch. Every operation
//! exists in two forms: one that is told the present moment, and one that
//! reads the clock and does the same.

use crate::clock::current_millis;
use crate::command::{SetExpiration, SetOptions};
use crate::decimal::{parse_i64, parse_int};
use vstd::hash_map::StringHashMap;
use vstd::prelude::*;
use vstd::utf8::encode_utf8;

verus! {

/// One entry as it is held.
#[derive(Debug, Clone)]
pub struct Data {
    pub val: String,
    /// The first moment at which the entry is no longer visible.
    pub expires_at: Option<u64>,
}

/// One entry as contracts speak of it.
pub struct Entry {
    pub value: Seq<char>,
    pub expires_at: Option<u64>,
}

impl View for Data {
    type V = Entry;

    open spec fn view(&self) -> Entry {
        Entry { value: self.val@, expires_at: self.expires_at }
    }
}

/// The map that holds the entries, keyed by text.
pub type Store = StringHashMap<Data>;

/// The reasons for which the store refuses a write.
#[derive(Debug, PartialEq, Eq, Clone, Copy)]
pub enum StoreError {
    /// The time-to-live is not a decimal integer of 64 bits.
    InvalidTtl,
    /// The moment of expiry cannot be counted in unsigned 64 bits.
    ExpiryOutOfRange,
}

/// The store. Its view is the entries that it holds, expired ones among
/// them: whether an entry is seen is decided when it is read.
pub struct StoreService {
    store: Store,
}

/// The entries of a map of held data.
pub open spec fn entries(m: Map<Seq<char>, Data>) -> Map<Seq<char>, Entry> {
    m.map_values(|d: Data| d@)
}

/// Whether an entry is visible at the moment `now`: it has no expiry, or
/// its expiry lies strictly after `now`.
pub open spec fn is_live(e: Entry, now: u64) -> bool {
    match e.expires_at {
        None => true,
        Some(t) => now < t,
    }
}

/// What a read of `key` at the moment `now` sees.
pub open spec fn lookup(m: Map<Seq<char>, Entry>, key: Seq<char>, now: u64) -> Option<
    Seq<char>,
> {
    if m.contains_key(key) && is_live(m[key], now) {
        Some(m[key].value)
    } else {
        None
    }
}

/// The map after a write without expiry: the entry replaces whatever the
/// key had, its expiry included.
pub open spec fn after_set(m: Map<Seq<char>, Entry>, key: Seq<char>, value: Seq<char>) -> Map<
    Seq<char>,
    Entry,
> {
    m.insert(key, Entry { value, expires_at: None })
}

/// The map after a write that expires at the moment `expires_at`.
pub open spec fn after_set_exp(
    m: Map<Seq<char>, Entry>,
    key: Seq<char>,
    value: Seq<char>,
    expires_at: u64,
) -> Map<Seq<char>, Entry> {
    m.insert(key, Entry { value, expires_at: Some(expires_at) })
}

/// A time-to-live in milliseconds.
pub open spec fn ttl_millis(amount: int, unit: SetExpiration) -> int {
    match unit {
        SetExpiration::Ex => amount * 1000,
        SetExpiration::Px => amount,
    }
}

/// The moment of expiry of a write made at `now` with the time-to-live
/// `ttl`, a decimal text in the given unit: `now` plus the time-to-live in
/// milliseconds.
pub open spec fn expiry_at(ttl: Seq<char>, unit: SetExpiration, now: u64) -> Result<
    u64,
    StoreError,
> {
    match parse_int(encode_utf8(ttl)) {
        None => Err(StoreError::InvalidTtl),
        Some(amount) => {
            let moment = now + ttl_millis(amount, unit);
            if 0 <= moment <= u64::MAX {
                Ok(moment as u64)
            } else {
                Err(StoreError::ExpiryOutOfRange)
            }
        },
    }
}

/// The text of an optional string.
pub open spec fn text_of(o: Option<String>) -> Option<Seq<char>> {
    match o {
        Some(s) => Some(s@),
        None => None,
    }
}

/// Computes the moment of expiry of a write.
pub fn expiry_for(ttl: &String, unit: &SetExpiration, now: u64) -> (r: Result<u64, StoreError>)
    ensures
        r == expiry_at(ttl@, *unit, now),
{
    match parse_i64(ttl.as_str().as_bytes()) {
        None => Err(StoreError::InvalidTtl),
        Some(amount) => {
            let millis: i128 = match unit {
                SetExpiration::Ex => (amount as i128) * 1000,
                SetExpiration::Px => amount as i128,
            };
            let moment: i128 = (now as i128) + millis;
            if 0 <= moment && moment <= u64::MAX as i128 {
                Ok(moment as u64)
            } else {
                Err(StoreError::ExpiryOutOfRange)
            }
        },
    }
}

impl View for StoreService {
    type V = Map<Seq<char>, Entry>;

    closed spec fn view(&self) -> Map<Seq<char>, Entry> {
        entries(self.store@)
    }
}

impl StoreService {
    /// A store over the given map, with the entries that the map holds.
    pub fn new(store: Store) -> (r: Self)
        ensures
            r@ == entries(store@),
    {
        Self { store }
    }

    /// Reads `key` at the moment `now`. The entry stays in the map when it
    /// has expired: it is only no longer seen.
    pub fn get_at(&self, key: &str, now: u64) -> (r: Option<String>)
        ensures
            text_of(r) == lookup(self@, key@, now),
    {
        match self.store.get(key) {
            Some(data) => {
                let live: bool = match data.expires_at {
                    None => true,
                    Some(t) => now < t,
                };
                if live {
                    Some(data.val.clone())
                } else {
                    None
                }
            },
            None => None,
        }
    }

    /// Writes `val` under `key` without expiry.
    pub fn set(&mut self, key: String, val: String) -> (r: Result<(), StoreError>)
        ensures
            r is Ok,
            final(self)@ == after_set(old(self)@, key@, val@),
    {
        let ghost value = val@;
        self.store.insert(key, Data { val, expires_at: None });
        assert(self@ =~= after_set(old(self)@, key@, value));
        Ok(())
    }

    /// Writes `val` under `key` at the moment `now`, to expire once the
    /// time-to-live has passed. A write that is refused changes nothing.
    /// The options have no effect.
    pub fn set_exp_at(
        &mut self,
        key: String,
        val: String,
        ttl: String,
        exp_type: SetExpiration,
        options: Option<SetOptions>,
        now: u64,
    ) -> (r: Result<(), StoreError>)
        ensures
            match expiry_at(ttl@, exp_type, now) {
                Ok(moment) => r is Ok && final(self)@ == after_set_exp(
                    old(self)@,
                    key@,
                    val@,
                    moment,
                ),
                Err(e) => r == Err::<(), StoreError>(e) && final(self)@ == old(self)@,
            },
    {
        match expiry_for(&ttl, &exp_type, now) {
            Ok(moment) => {
                let ghost value = val@;
                self.store.insert(key, Data { val, expires_at: Some(moment) });
                assert(self@ =~= after_set_exp(old(self)@, key@, value, moment));
                Ok(())
            },
            Err(e) => Err(e),
        }
    }

    /// Reads `key` at the present moment: what `get_at` returns for some
    /// reading of the clock.
    pub fn get(&self, key: String) -> (r: Result<Option<String>, StoreError>)
        ensures
            r matches Ok(o) && exists|now: u64|
                now <= i64::MAX && text_of(o) == #[trigger] lookup(self@, key@, now),
    {
        let now: u64 = current_millis();
        let found: Option<String> = self.get_at(key.as_str(), now);
        assert(text_of(found) == lookup(self@, key@, now));
        Ok(found)
    }

    /// Writes `val` under `key` at the present moment: what `set_exp_at`
    /// does for some reading of the clock.
    pub fn set_exp(
        &mut self,
        key: String,
        val: String,
        ttl: String,
        exp_type: SetExpiration,
        options: Option<SetOptions>,
    ) -> (r: Result<(), StoreError>)
        ensures
            exists|now: u64|
                now <= i64::MAX && match #[trigger] expiry_at(ttl@, exp_type, now) {
                    Ok(moment) => r is Ok && final(self)@ == after_set_exp(
                        old(self)@,
                        key@,
                        val@,
                        moment,
                    ),
                    Err(e) => r == Err::<(), StoreError>(e) && final(self)@ == old(self)@,
                },
    {
        let now: u64 = current_millis();
        let ghost unit = exp_type;
        let ghost (k, v, t) = (key@, val@, ttl@);
        let r = self.set_exp_at(key, val, ttl, exp_type, options, now);
        assert(match expiry_at(t, unit, now) {
            Ok(moment) => r is Ok && self@ == after_set_exp(old(self)@, k, v, moment),
            Err(e) => r == Err::<(), StoreError>(e) && self@ == old(self)@,
        });
        r
    }
}

/// One write, as the store sees it once the moment of expiry is computed.
pub enum Write {
    Plain { key: Seq<char>, value: Seq<char> },
    Expiring { key: Seq<char>, value: Seq<char>, expires_at: u64 },
}

impl Write {
    /// The key that the write is made to.
    pub open spec fn key(self) -> Seq<char> {
        match self {
            Write::Plain { key, value } => key,
            Write::Expiring { key, value, expires_at } => key,
        }
    }

    /// The entries after the write.
    pub open spec fn apply(self, m: Map<Seq<char>, Entry>) -> Map<Seq<char>, Entry> {
        match self {
            Write::Plain { key, value } => after_set(m, key, value),
            Write::Expiring { key, value, expires_at } => after_set_exp(
                m,
                key,
                value,
                expires_at,
            ),
        }
    }
}

/// The entries after the writes, made one at a time in their order.
pub open spec fn apply_all(m: Map<Seq<char>, Entry>, writes: Seq<Write>) -> Map<
    Seq<char>,
    Entry,
>
    decreases writes.len(),
{
    if writes.len() == 0 {
        m
    } else {
        writes.last().apply(apply_all(m, writes.drop_last()))
    }
}

/// A read that follows a write without expiry sees the value written, at
/// every moment and whatever the key held before.
pub proof fn lemma_get_after_set(
    m: Map<Seq<char>, Entry>,
    key: Seq<char>,
    value: Seq<char>,
    now: u64,
)
    ensures
        lookup(after_set(m, key, value), key, now) == Some(value),
{
}

/// A read that follows a write with a time-to-live sees the value strictly
/// before the time-to-live has passed since the write, and nothing from
/// then on, whatever the key held before.
pub proof fn lemma_get_after_set_exp(
    m: Map<Seq<char>, Entry>,
    key: Seq<char>,
    value: Seq<char>,
    ttl: Seq<char>,
    unit: SetExpiration,
    written: u64,
    now: u64,
)
    requires
        expiry_at(ttl, unit, written) is Ok,
    ensures
        parse_int(encode_utf8(ttl)) is Some,
        ({
            let lifetime = ttl_millis(parse_int(encode_utf8(ttl))->Some_0, unit);
            let moment = expiry_at(ttl, unit, written)->Ok_0;
            &&& moment == written + lifetime
            &&& now < written + lifetime ==> lookup(after_set_exp(m, key, value, moment), key, now)
                == Some(value)
            &&& now >= written + lifetime ==> lookup(
                after_set_exp(m, key, value, moment),
                key,
                now,
            ) is None
        }),
{
}

/// What has expired stays expired: an entry that is not seen at one moment
/// is not seen at any later one, as long as nothing is written to its key.
pub proof fn lemma_expired_stays_expired(
    m: Map<Seq<char>, Entry>,
    key: Seq<char>,
    earlier: u64,
    later: u64,
)
    requires
        earlier <= later,
        lookup(m, key, earlier) is None,
    ensures
        lookup(m, key, later) is None,
{
}

/// A write without expiry clears the expiry that an earlier write gave the
/// key: the value is seen at every later moment.
pub proof fn lemma_set_clears_expiry(
    m: Map<Seq<char>, Entry>,
    key: Seq<char>,
    first: Seq<char>,
    expires_at: u64,
    second: Seq<char>,
    now: u64,
)
    ensures
        lookup(after_set(after_set_exp(m, key, first, expires_at), key, second), key, now)
            == Some(second),
{
}

/// A write to one key leaves what is read under every other key as it was.
pub proof fn lemma_write_keeps_other_keys(
    m: Map<Seq<char>, Entry>,
    write: Write,
    key: Seq<char>,
    now: u64,
)
    requires
        write.key() != key,
    ensures
        lookup(write.apply(m), key, now) == lookup(m, key, now),
{
}

/// Writes to other keys, however many and in whatever order they reach the
/// store, do not change what is read under a key: the value that was
/// written to it last is seen after them as before.
pub proof fn lemma_writes_do_not_interfere(
    m: Map<Seq<char>, Entry>,
    writes: Seq<Write>,
    key: Seq<char>,
    now: u64,
)
    requires
        forall|i: int| 0 <= i < writes.len() ==> (#[trigger] writes[i]).key() != key,
    ensures
        lookup(apply_all(m, writes), key, now) == lookup(m, key, now),
    decreases writes.len(),
{
    if writes.len() > 0 {
        let earlier = writes.drop_last();
        assert forall|i: int| 0 <= i < earlier.len() implies (#[trigger] earlier[i]).key()
            != key by {
            assert(earlier[i] == writes[i]);
        }
        lemma_writes_do_not_interfere(m, earlier, key, now);
        lemma_write_keeps_other_keys(apply_all(m, earlier), writes.last(), key, now);
    }
}

} // verus!
