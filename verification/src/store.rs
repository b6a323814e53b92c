//! The keyspace: a map from key to value with optional per-entry expiry.
//!
//! An entry's deadline is either monotonic (derived from a relative TTL at
//! insert time, immune to wall-clock jumps) or wall-clock (loaded from a
//! snapshot's absolute expiry).  Time enters only as plain millisecond
//! readings passed in by the caller, so every operation here is a pure
//! function of its arguments.  An entry past its deadline is logically
//! absent: a read treats it as missing and removes it.
use vstd::prelude::*;

verus! {

/// A deadline in milliseconds: on the monotonic clock for live inserts with
/// a TTL, on the wall clock for snapshot-loaded absolute expiries.
#[derive(Debug, Clone, Copy, PartialEq, Eq, Structural)]
pub enum ExpiryTime {
    ExpiringInstant(u64),
    ExpiringSystime(u64),
}

/// One stored value together with its optional deadline.
#[derive(Debug, Clone)]
pub struct Entry {
    value: String,
    expires_at: Option<ExpiryTime>,
}

/// The mathematical model of an [`Entry`].
pub struct EntryModel {
    pub value: Seq<char>,
    pub expires_at: Option<ExpiryTime>,
}

impl EntryModel {
    /// Whether the entry's deadline, if any, has passed at the given
    /// monotonic and wall-clock readings.
    pub open spec fn spec_is_expired(self, now: u64, now_wall: u64) -> bool {
        match self.expires_at {
            Some(ExpiryTime::ExpiringInstant(t)) => t <= now,
            Some(ExpiryTime::ExpiringSystime(t)) => t <= now_wall,
            None => false,
        }
    }
}

impl Entry {
    pub closed spec fn view(&self) -> EntryModel {
        EntryModel { value: self.value@, expires_at: self.expires_at }
    }

    /// The deadline an insert chooses: an absolute wall-clock timestamp wins
    /// over a relative TTL; a TTL becomes a monotonic deadline `now + ttl`;
    /// otherwise the entry never expires.
    pub open spec fn spec_expiry(ttl: Option<u64>, expires_at_ts: Option<u64>, now: u64) -> Option<
        ExpiryTime,
    > {
        match expires_at_ts {
            Some(ts) => Some(ExpiryTime::ExpiringSystime(ts)),
            None => match ttl {
                Some(d) => Some(ExpiryTime::ExpiringInstant((now + d) as u64)),
                None => None,
            },
        }
    }

    pub fn new(value: String, ttl: Option<u64>, expires_at_ts: Option<u64>, now: u64) -> (r: Self)
        requires
            ttl is Some && expires_at_ts is None ==> now + ttl->0 <= u64::MAX,
        ensures
            r@.value == value@,
            r@.expires_at == Self::spec_expiry(ttl, expires_at_ts, now),
    {
        let expires_at = match expires_at_ts {
            Some(ts) => Some(ExpiryTime::ExpiringSystime(ts)),
            None => match ttl {
                Some(d) => Some(ExpiryTime::ExpiringInstant(now + d)),
                None => None,
            },
        };
        Entry { value, expires_at }
    }

    pub fn get_value(&self) -> (r: String)
        ensures
            r@ == self@.value,
    {
        self.value.clone()
    }

    pub fn is_expired(&self, now: u64, now_wall: u64) -> (r: bool)
        ensures
            r == self@.spec_is_expired(now, now_wall),
    {
        match &self.expires_at {
            Some(ExpiryTime::ExpiringInstant(t)) => *t <= now,
            Some(ExpiryTime::ExpiringSystime(t)) => *t <= now_wall,
            None => false,
        }
    }
}

/// The keyspace, modelled as a map from key to entry.
pub struct Store {
    state: Vec<(String, Entry)>,
}

spec fn distinct_keys(s: Seq<(String, Entry)>) -> bool {
    forall|i: int, j: int| 0 <= i < j < s.len() ==> s[i].0@ != s[j].0@
}

spec fn map_of(s: Seq<(String, Entry)>) -> Map<Seq<char>, EntryModel>
    decreases s.len(),
{
    if s.len() == 0 {
        Map::empty()
    } else {
        map_of(s.drop_last()).insert(s.last().0@, s.last().1@)
    }
}

proof fn lemma_map_of_contains(s: Seq<(String, Entry)>, k: Seq<char>)
    ensures
        map_of(s).contains_key(k) <==> exists|i: int| 0 <= i < s.len() && s[i].0@ == k,
    decreases s.len(),
{
    if s.len() == 0 {
    } else {
        lemma_map_of_contains(s.drop_last(), k);
        if map_of(s).contains_key(k) {
            if s.last().0@ != k {
                let i = choose|i: int| 0 <= i < s.drop_last().len() && s.drop_last()[i].0@ == k;
                assert(s[i].0@ == k);
            } else {
                assert(s[s.len() - 1].0@ == k);
            }
        }
        if exists|i: int| 0 <= i < s.len() && s[i].0@ == k {
            let i = choose|i: int| 0 <= i < s.len() && s[i].0@ == k;
            if i < s.len() - 1 {
                assert(s.drop_last()[i].0@ == k);
            }
        }
    }
}

proof fn lemma_map_of_index(s: Seq<(String, Entry)>, i: int)
    requires
        distinct_keys(s),
        0 <= i < s.len(),
    ensures
        map_of(s).contains_key(s[i].0@),
        map_of(s)[s[i].0@] == s[i].1@,
    decreases s.len(),
{
    if i == s.len() - 1 {
    } else {
        assert(distinct_keys(s.drop_last()));
        lemma_map_of_index(s.drop_last(), i);
        assert(s.last().0@ != s[i].0@);
    }
}

proof fn lemma_map_of_remove(s: Seq<(String, Entry)>, i: int)
    requires
        distinct_keys(s),
        0 <= i < s.len(),
    ensures
        map_of(s.remove(i)) == map_of(s).remove(s[i].0@),
    decreases s.len(),
{
    let k = s[i].0@;
    if i == s.len() - 1 {
        assert(s.remove(i) =~= s.drop_last());
        lemma_map_of_contains(s.drop_last(), k);
        assert forall|j: int| 0 <= j < s.drop_last().len() implies s.drop_last()[j].0@ != k by {
            assert(s[j].0@ != s[s.len() - 1].0@);
        }
        assert(!map_of(s.drop_last()).contains_key(k));
        assert(map_of(s.drop_last()) =~= map_of(s.drop_last()).insert(k, s.last().1@).remove(k));
    } else {
        assert(distinct_keys(s.drop_last()));
        lemma_map_of_remove(s.drop_last(), i);
        assert(s.remove(i).drop_last() =~= s.drop_last().remove(i));
        assert(s.remove(i).last() == s.last());
        assert(s.last().0@ != k);
        assert(map_of(s.remove(i)) == map_of(s.drop_last().remove(i)).insert(
            s.last().0@,
            s.last().1@,
        ));
        assert(map_of(s.drop_last()).remove(k).insert(s.last().0@, s.last().1@) =~= map_of(
            s.drop_last(),
        ).insert(s.last().0@, s.last().1@).remove(k));
    }
}

impl Store {
    /// The keyspace as a map from key to entry model.
    pub closed spec fn view(&self) -> Map<Seq<char>, EntryModel> {
        map_of(self.state@)
    }

    /// Internal invariant: stored keys are unique.
    pub closed spec fn wf(&self) -> bool {
        distinct_keys(self.state@)
    }

    /// What a read returns: the stored value, unless the key is absent or
    /// its entry has expired.
    pub open spec fn spec_get(
        m: Map<Seq<char>, EntryModel>,
        k: Seq<char>,
        now: u64,
        now_wall: u64,
    ) -> Option<Seq<char>> {
        if m.contains_key(k) && !m[k].spec_is_expired(now, now_wall) {
            Some(m[k].value)
        } else {
            None
        }
    }

    /// What a read leaves behind: an expired entry is removed, anything else
    /// is untouched.
    pub open spec fn spec_after_get(
        m: Map<Seq<char>, EntryModel>,
        k: Seq<char>,
        now: u64,
        now_wall: u64,
    ) -> Map<Seq<char>, EntryModel> {
        if m.contains_key(k) && m[k].spec_is_expired(now, now_wall) {
            m.remove(k)
        } else {
            m
        }
    }

    pub fn new(rdb_kv_data: Option<Store>) -> (r: Store)
        requires
            rdb_kv_data matches Some(st) ==> st.wf(),
        ensures
            r.wf(),
            r@ == match rdb_kv_data {
                Some(st) => st@,
                None => Map::<Seq<char>, EntryModel>::empty(),
            },
    {
        match rdb_kv_data {
            Some(st) => st,
            None => Store { state: Vec::new() },
        }
    }

    /// Index of the entry for `key`, if one is stored.
    fn find_key(&self, key: &String) -> (r: Option<usize>)
        ensures
            match r {
                Some(i) => i < self.state@.len() && self.state@[i as int].0@ == key@,
                None => forall|i: int| 0 <= i < self.state@.len() ==> self.state@[i].0@ != key@,
            },
    {
        let n = self.state.len();
        let mut i: usize = 0;
        while i < n
            invariant
                i <= n == self.state@.len(),
                forall|j: int| 0 <= j < i ==> self.state@[j].0@ != key@,
            decreases n - i,
        {
            if self.state[i].0 == *key {
                return Some(i);
            }
            i += 1;
        }
        None
    }

    /// Removes any entry stored for `key`.
    pub fn remove(&mut self, key: &String)
        requires
            old(self).wf(),
        ensures
            final(self).wf(),
            final(self)@ == old(self)@.remove(key@),
    {
        match self.find_key(key) {
            Some(i) => {
                proof {
                    lemma_map_of_remove(self.state@, i as int);
                    assert forall|a: int, b: int|
                        0 <= a < b < self.state@.remove(i as int).len() implies self.state@.remove(
                        i as int,
                    )[a].0@ != self.state@.remove(i as int)[b].0@ by {
                        let s = self.state@;
                        if a < i && b < i {
                            assert(s[a].0@ != s[b].0@);
                        } else if a < i {
                            assert(s[a].0@ != s[b + 1].0@);
                        } else {
                            assert(s[a + 1].0@ != s[b + 1].0@);
                        }
                    }
                }
                self.state.remove(i);
            },
            None => {
                proof {
                    lemma_map_of_contains(self.state@, key@);
                    assert(!map_of(self.state@).contains_key(key@));
                    assert(map_of(self.state@) =~= map_of(self.state@).remove(key@));
                }
            },
        }
    }

    /// Stores `value` under `key`, replacing any previous entry and its
    /// expiry.  At most one of `ttl` (relative, milliseconds) and
    /// `expires_at_ts` (absolute wall-clock milliseconds) is given; with
    /// neither, the entry never expires.
    pub fn insert(
        &mut self,
        key: String,
        value: String,
        ttl: Option<u64>,
        expires_at_ts: Option<u64>,
        now: u64,
    )
        requires
            old(self).wf(),
            ttl is Some && expires_at_ts is None ==> now + ttl->0 <= u64::MAX,
        ensures
            final(self).wf(),
            final(self)@ == old(self)@.insert(
                key@,
                (EntryModel {
                    value: value@,
                    expires_at: Entry::spec_expiry(ttl, expires_at_ts, now),
                }),
            ),
    {
        let entry = Entry::new(value, ttl, expires_at_ts, now);
        self.remove(&key);
        let ghost removed = self.state@;
        proof {
            lemma_map_of_contains(removed, key@);
        }
        self.state.push((key, entry));
        proof {
            assert(self.state@.drop_last() =~= removed);
            assert(self.state@.last() == (self.state@[removed.len() as int]));
            lemma_map_of_contains(removed, self.state@.last().0@);
            assert forall|a: int, b: int| 0 <= a < b < self.state@.len() implies self.state@[a].0@
                != self.state@[b].0@ by {
                if b < removed.len() {
                    assert(removed[a].0@ != removed[b].0@);
                } else {
                    assert(!map_of(removed).contains_key(self.state@.last().0@));
                    lemma_map_of_index(removed, a);
                }
            }
            assert(map_of(self.state@) =~= old(self)@.insert(
                key@,
                (EntryModel {
                    value: value@,
                    expires_at: Entry::spec_expiry(ttl, expires_at_ts, now),
                }),
            ));
        }
    }

    /// Looks up `key` at the given clock readings; an expired entry is
    /// removed and reads as missing.
    pub fn get(&mut self, key: &str, now: u64, now_wall: u64) -> (r: Option<String>)
        requires
            old(self).wf(),
        ensures
            final(self).wf(),
            final(self)@ == Self::spec_after_get(old(self)@, key@, now, now_wall),
            match r {
                Some(v) => Self::spec_get(old(self)@, key@, now, now_wall) == Some(v@),
                None => Self::spec_get(old(self)@, key@, now, now_wall) is None,
            },
    {
        let owned = key.to_owned();
        match self.find_key(&owned) {
            Some(i) => {
                proof {
                    lemma_map_of_index(self.state@, i as int);
                }
                let entry = &self.state[i].1;
                if entry.is_expired(now, now_wall) {
                    self.remove(&owned);
                    None
                } else {
                    Some(entry.get_value())
                }
            },
            None => {
                proof {
                    lemma_map_of_contains(self.state@, key@);
                }
                None
            },
        }
    }

    /// All stored keys, in unspecified order, each exactly once.  Expired
    /// entries' keys may still appear: only reads drop them.
    pub fn get_all_keys(&self) -> (r: Vec<String>)
        requires
            self.wf(),
        ensures
            forall|i: int| 0 <= i < r@.len() ==> self@.contains_key(#[trigger] r@[i]@),
            forall|k: Seq<char>|
                self@.contains_key(k) ==> exists|i: int| 0 <= i < r@.len() && #[trigger] r@[i]@
                    == k,
            forall|i: int, j: int| 0 <= i < j < r@.len() ==> r@[i]@ != r@[j]@,
    {
        let n = self.state.len();
        let mut keys: Vec<String> = Vec::new();
        let mut i: usize = 0;
        while i < n
            invariant
                i <= n == self.state@.len(),
                keys@.len() == i,
                self.wf(),
                forall|j: int| 0 <= j < i ==> #[trigger] keys@[j]@ == self.state@[j].0@,
            decreases n - i,
        {
            keys.push(self.state[i].0.clone());
            i += 1;
        }
        proof {
            assert forall|i2: int| 0 <= i2 < keys@.len() implies self@.contains_key(
                #[trigger] keys@[i2]@,
            ) by {
                lemma_map_of_index(self.state@, i2);
            }
            assert forall|k: Seq<char>| self@.contains_key(k) implies exists|i2: int|
                0 <= i2 < keys@.len() && #[trigger] keys@[i2]@ == k by {
                lemma_map_of_contains(self.state@, k);
                let i2 = choose|i2: int| 0 <= i2 < self.state@.len() && self.state@[i2].0@ == k;
                assert(keys@[i2]@ == k);
            }
        }
        keys
    }
}

/// A key stored with no expiry reads back as its value at every time.
pub proof fn lemma_insert_no_expiry_get(
    m: Map<Seq<char>, EntryModel>,
    k: Seq<char>,
    v: Seq<char>,
    now: u64,
    now_wall: u64,
)
    ensures
        Store::spec_get(
            m.insert(k, (EntryModel { value: v, expires_at: None })),
            k,
            now,
            now_wall,
        ) == Some(v),
{
}

/// A key stored at `t0` with TTL `ttl` reads back as its value strictly
/// before `t0 + ttl`; from the deadline on it reads as missing, and the
/// read drops it from the keyspace for good.
pub proof fn lemma_insert_ttl_get(
    m: Map<Seq<char>, EntryModel>,
    k: Seq<char>,
    v: Seq<char>,
    t0: u64,
    ttl: u64,
    now: u64,
    now_wall: u64,
)
    requires
        t0 + ttl <= u64::MAX,
    ensures
        ({
            let m2 = m.insert(
                k,
                (EntryModel {
                    value: v,
                    expires_at: Some(ExpiryTime::ExpiringInstant((t0 + ttl) as u64)),
                }),
            );
            &&& now < t0 + ttl ==> Store::spec_get(m2, k, now, now_wall) == Some(v)
                && Store::spec_after_get(m2, k, now, now_wall) == m2
            &&& now >= t0 + ttl ==> Store::spec_get(m2, k, now, now_wall) is None
                && !Store::spec_after_get(m2, k, now, now_wall).contains_key(k)
        }),
{
}

/// A key stored with an absolute wall-clock deadline `d` — as a snapshot's
/// expiry records store it — reads back as its value while the wall clock is
/// before `d`; from `d` on it reads as missing, whatever the monotonic
/// clock says, and the read drops it from the keyspace.
pub proof fn lemma_wall_expiry_get(
    m: Map<Seq<char>, EntryModel>,
    k: Seq<char>,
    v: Seq<char>,
    d: u64,
    now: u64,
    now_wall: u64,
)
    ensures
        ({
            let m2 = m.insert(
                k,
                (EntryModel { value: v, expires_at: Some(ExpiryTime::ExpiringSystime(d)) }),
            );
            &&& now_wall < d ==> Store::spec_get(m2, k, now, now_wall) == Some(v)
                && Store::spec_after_get(m2, k, now, now_wall) == m2
            &&& now_wall >= d ==> Store::spec_get(m2, k, now, now_wall) is None
                && !Store::spec_after_get(m2, k, now, now_wall).contains_key(k)
        }),
{
}

/// A later insert for a key fully replaces the earlier value and expiry.
pub proof fn lemma_insert_replaces(
    m: Map<Seq<char>, EntryModel>,
    k: Seq<char>,
    e1: EntryModel,
    e2: EntryModel,
)
    ensures
        m.insert(k, e1).insert(k, e2) == m.insert(k, e2),
{
    assert(m.insert(k, e1).insert(k, e2) =~= m.insert(k, e2));
}

} // verus!
