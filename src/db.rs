use vstd::prelude::*;

verus! {

broadcast use vstd::std_specs::vec::group_vec_axioms, vstd::seq::group_seq_axioms;

/// The value held at a key: its bytes and, if it expires, when (in
/// milliseconds on the store's clock).
pub struct EntryV {
    pub data: Seq<u8>,
    pub expires_at: Option<u64>,
}

struct Slot {
    key: String,
    data: Vec<u8>,
    expires_at: Option<u64>,
}

impl Slot {
    spec fn view(&self) -> (Seq<char>, EntryV) {
        (self.key@, EntryV { data: self.data@, expires_at: self.expires_at })
    }
}

spec fn slots_view(v: Seq<Slot>) -> Seq<(Seq<char>, EntryV)> {
    v.map_values(|s: Slot| s.view())
}

/// The entry stored under `k` in a list of keyed entries.
pub open spec fn lookup(s: Seq<(Seq<char>, EntryV)>, k: Seq<char>) -> Option<EntryV>
    decreases s.len(),
{
    if s.len() == 0 {
        None
    } else if s.last().0 == k {
        Some(s.last().1)
    } else {
        lookup(s.drop_last(), k)
    }
}

pub open spec fn keys_unique(s: Seq<(Seq<char>, EntryV)>) -> bool {
    forall|i: int, j: int| 0 <= i < j < s.len() ==> s[i].0 != s[j].0
}

/// When an entry written at `now` with a time to live of `expire`
/// milliseconds expires; the clock's end if the sum goes past it.
pub open spec fn deadline(now: u64, expire: Option<u128>) -> Option<u64> {
    match expire {
        Some(ms) => if now + ms > u64::MAX {
            Some(u64::MAX)
        } else {
            Some((now + ms) as u64)
        },
        None => None,
    }
}

/// The keyspace after `set(k, v, expire)` at `now`.
pub open spec fn after_set(
    m: Map<Seq<char>, EntryV>,
    k: Seq<char>,
    v: Seq<u8>,
    expire: Option<u128>,
    now: u64,
) -> Map<Seq<char>, EntryV> {
    m.insert(k, EntryV { data: v, expires_at: deadline(now, expire) })
}

pub open spec fn expired(e: EntryV, now: u64) -> bool {
    match e.expires_at {
        Some(t) => t <= now,
        None => false,
    }
}

/// The keyspace once every entry due at or before `now` is gone.
pub open spec fn after_purge(m: Map<Seq<char>, EntryV>, now: u64) -> Map<Seq<char>, EntryV> {
    Map::new(|k: Seq<char>| m.contains_key(k) && !expired(m[k], now), |k: Seq<char>| m[k])
}

/// `t` is the earliest deadline among the entries of `m`.
pub open spec fn is_earliest(m: Map<Seq<char>, EntryV>, t: u64) -> bool {
    (exists|k: Seq<char>| m.contains_key(k) && m[k].expires_at == Some(t)) && forall|k: Seq<char>|
        #![trigger m[k]]
        m.contains_key(k) && m[k].expires_at is Some ==> t <= m[k].expires_at->0
}

/// No entry of `m` expires.
pub open spec fn no_deadline(m: Map<Seq<char>, EntryV>) -> bool {
    forall|k: Seq<char>| #![trigger m[k]] m.contains_key(k) ==> m[k].expires_at is None
}

/// The earliest deadline of `m`, as `next` reports it.
pub open spec fn earliest_is(m: Map<Seq<char>, EntryV>, r: Option<u64>) -> bool {
    match r {
        Some(t) => is_earliest(m, t),
        None => no_deadline(m),
    }
}

struct Expiration {
    when: u64,
    key: String,
}

/// The keyspace, the index of its deadlines, and the shutdown flag.
pub struct State {
    slots: Vec<Slot>,
    expirations: Vec<Expiration>,
    shutdown: bool,
}

spec fn exps_view(v: Seq<Expiration>) -> Seq<(u64, Seq<char>)> {
    v.map_values(|x: Expiration| (x.when, x.key@))
}

/// `x` indexes the deadlines of the entries `s`: ordered by deadline, one
/// record per key, a record for exactly the entries that expire, and each
/// record with its entry's deadline.
pub open spec fn indexes(x: Seq<(u64, Seq<char>)>, s: Seq<(Seq<char>, EntryV)>) -> bool {
    &&& forall|i: int, j: int| 0 <= i < j < x.len() ==> x[i].0 <= x[j].0
    &&& forall|i: int, j: int| 0 <= i < j < x.len() ==> x[i].1 != x[j].1
    &&& forall|i: int|
        0 <= i < x.len() ==> lookup(s, (#[trigger] x[i]).1) is Some && lookup(s, x[i].1)->0.expires_at
            == Some(x[i].0)
    &&& forall|k: Seq<char>|
        #[trigger] lookup(s, k) is Some && lookup(s, k)->0.expires_at is Some ==> exists|i: int|
            0 <= i < x.len() && x[i].1 == k
}

proof fn lemma_lookup_index(s: Seq<(Seq<char>, EntryV)>, i: int)
    requires
        keys_unique(s),
        0 <= i < s.len(),
    ensures
        lookup(s, s[i].0) == Some(s[i].1),
    decreases s.len(),
{
    if i < s.len() - 1 {
        lemma_lookup_index(s.drop_last(), i);
    }
}

proof fn lemma_lookup_none(s: Seq<(Seq<char>, EntryV)>, k: Seq<char>)
    requires
        forall|i: int| 0 <= i < s.len() ==> s[i].0 != k,
    ensures
        lookup(s, k) is None,
    decreases s.len(),
{
    if s.len() > 0 {
        lemma_lookup_none(s.drop_last(), k);
    }
}

proof fn lemma_lookup_some(s: Seq<(Seq<char>, EntryV)>, k: Seq<char>) -> (i: int)
    requires
        lookup(s, k) is Some,
    ensures
        0 <= i < s.len(),
        s[i].0 == k,
        s[i].1 == lookup(s, k)->0,
    decreases s.len(),
{
    if s.last().0 == k {
        s.len() - 1
    } else {
        lemma_lookup_some(s.drop_last(), k)
    }
}

proof fn lemma_lookup_remove(s: Seq<(Seq<char>, EntryV)>, i: int)
    requires
        keys_unique(s),
        0 <= i < s.len(),
    ensures
        keys_unique(s.remove(i)),
        forall|k: Seq<char>| #[trigger] lookup(s.remove(i), k) == if k == s[i].0 {
            None
        } else {
            lookup(s, k)
        },
{
    let r = s.remove(i);
    s.remove_ensures(i);
    assert forall|a: int, b: int| 0 <= a < b < r.len() implies r[a].0 != r[b].0 by {
        let a0 = if a < i { a } else { a + 1 };
        let b0 = if b < i { b } else { b + 1 };
        assert(r[a] == s[a0] && r[b] == s[b0]);
    }
    assert forall|k: Seq<char>| #[trigger] lookup(r, k) == if k == s[i].0 {
        None
    } else {
        lookup(s, k)
    } by {
        if k == s[i].0 {
            assert forall|j: int| 0 <= j < r.len() implies r[j].0 != k by {
                let j0 = if j < i { j } else { j + 1 };
                assert(r[j] == s[j0]);
            }
            lemma_lookup_none(r, k);
        } else if lookup(s, k) is Some {
            let j = lemma_lookup_some(s, k);
            let j1 = if j < i { j } else { j - 1 };
            assert(r[j1] == s[j]);
            lemma_lookup_index(r, j1);
        } else {
            assert forall|j: int| 0 <= j < r.len() implies r[j].0 != k by {
                let j0 = if j < i { j } else { j + 1 };
                assert(r[j] == s[j0]);
                if s[j0].0 == k {
                    lemma_lookup_index(s, j0);
                }
            }
            lemma_lookup_none(r, k);
        }
    }
}

/// Removing the record at `j` and with it the entry of its key keeps the
/// index exact.
proof fn lemma_index_remove(x: Seq<(u64, Seq<char>)>, s: Seq<(Seq<char>, EntryV)>, j: int, i: int)
    requires
        keys_unique(s),
        indexes(x, s),
        0 <= j < x.len(),
        0 <= i < s.len(),
        s[i].0 == x[j].1,
    ensures
        keys_unique(s.remove(i)),
        indexes(x.remove(j), s.remove(i)),
{
    lemma_lookup_remove(s, i);
    x.remove_ensures(j);
    let x1 = x.remove(j);
    let s1 = s.remove(i);
    let key = x[j].1;
    assert forall|a: int, b: int| 0 <= a < b < x1.len() implies x1[a].0 <= x1[b].0 && x1[a].1 != x1[b].1 by {
        let a0 = if a < j { a } else { a + 1 };
        let b0 = if b < j { b } else { b + 1 };
        assert(x1[a] == x[a0] && x1[b] == x[b0]);
    }
    assert forall|a: int| 0 <= a < x1.len() implies lookup(s1, (#[trigger] x1[a]).1) is Some && lookup(
        s1,
        x1[a].1,
    )->0.expires_at == Some(x1[a].0) by {
        let a0 = if a < j { a } else { a + 1 };
        assert(x1[a] == x[a0]);
        assert(x[a0] == x[a0]);
        assert(x[a0].1 != key);
    }
    assert forall|k: Seq<char>|
        #[trigger] lookup(s1, k) is Some && lookup(s1, k)->0.expires_at is Some implies exists|a: int|
        0 <= a < x1.len() && x1[a].1 == k by {
        assert(k != key);
        assert(lookup(s1, k) == lookup(s, k));
        let a0 = choose|a: int| 0 <= a < x.len() && x[a].1 == k;
        assert(a0 != j);
        let a = if a0 < j { a0 } else { a0 - 1 };
        assert(x1[a] == x[a0]);
    }
}

/// `x` indexes the deadlines of every entry of `s` but the one at `kv`,
/// and holds no record of `kv`.
spec fn index_without(x: Seq<(u64, Seq<char>)>, s: Seq<(Seq<char>, EntryV)>, kv: Seq<char>) -> bool {
    &&& forall|i: int, j: int| 0 <= i < j < x.len() ==> x[i].0 <= x[j].0
    &&& forall|i: int, j: int| 0 <= i < j < x.len() ==> x[i].1 != x[j].1
    &&& forall|i: int|
        0 <= i < x.len() ==> (#[trigger] x[i]).1 != kv && lookup(s, x[i].1) is Some && lookup(
            s,
            x[i].1,
        )->0.expires_at == Some(x[i].0)
    &&& forall|k: Seq<char>|
        k != kv && #[trigger] lookup(s, k) is Some && lookup(s, k)->0.expires_at is Some ==> exists|i: int|
            0 <= i < x.len() && x[i].1 == k
}

proof fn lemma_drop_key(
    x0: Seq<(u64, Seq<char>)>,
    s0: Seq<(Seq<char>, EntryV)>,
    x1: Seq<(u64, Seq<char>)>,
    kv: Seq<char>,
    j: int,
)
    requires
        indexes(x0, s0),
        (j == -1 && x1 == x0 && forall|a: int| 0 <= a < x0.len() ==> x0[a].1 != kv) || (0 <= j
            < x0.len() && x0[j].1 == kv && x1 == x0.remove(j)),
    ensures
        index_without(x1, s0, kv),
{
    let back = |a: int| if j == -1 || a < j { a } else { a + 1 };
    if j != -1 {
        x0.remove_ensures(j);
    }
    assert forall|a: int| 0 <= a < x1.len() implies #[trigger] x1[a] == x0[back(a)] by {}
    assert forall|a: int, b: int| 0 <= a < b < x1.len() implies x1[a].0 <= x1[b].0 && x1[a].1 != x1[b].1 by {
        assert(x1[a] == x0[back(a)] && x1[b] == x0[back(b)]);
    }
    assert forall|a: int| 0 <= a < x1.len() implies (#[trigger] x1[a]).1 != kv && lookup(s0, x1[a].1) is Some
        && lookup(s0, x1[a].1)->0.expires_at == Some(x1[a].0) by {
        let a0 = back(a);
        assert(x0[a0] == x0[a0]);
        if j != -1 {
            assert(a0 != j);
        }
    }
    assert forall|k: Seq<char>|
        k != kv && #[trigger] lookup(s0, k) is Some && lookup(s0, k)->0.expires_at is Some implies exists|a: int|
        0 <= a < x1.len() && x1[a].1 == k by {
        let b = choose|b: int| 0 <= b < x0.len() && x0[b].1 == k;
        if j == -1 {
            assert(x1[b].1 == k);
        } else {
            let a = if b < j { b } else { b - 1 };
            assert(x1[a] == x0[b]);
        }
    }
}

proof fn lemma_update_entry(s0: Seq<(Seq<char>, EntryV)>, i: int, e: EntryV)
    requires
        keys_unique(s0),
        0 <= i < s0.len(),
    ensures
        keys_unique(s0.update(i, (s0[i].0, e))),
        forall|k: Seq<char>| #[trigger] lookup(s0.update(i, (s0[i].0, e)), k) == if k == s0[i].0 {
            Some(e)
        } else {
            lookup(s0, k)
        },
{
    let kv = s0[i].0;
    let s1 = s0.update(i, (kv, e));
    assert forall|k2: Seq<char>| #[trigger] lookup(s1, k2) == if k2 == kv {
        Some(e)
    } else {
        lookup(s0, k2)
    } by {
        if k2 == kv {
            lemma_lookup_index(s1, i);
        } else if lookup(s0, k2) is Some {
            let j = lemma_lookup_some(s0, k2);
            lemma_lookup_index(s1, j);
        } else {
            assert forall|j: int| 0 <= j < s1.len() implies s1[j].0 != k2 by {
                if j != i && s0[j].0 == k2 {
                    lemma_lookup_index(s0, j);
                }
            }
            lemma_lookup_none(s1, k2);
        }
    }
}

proof fn lemma_push_entry(s0: Seq<(Seq<char>, EntryV)>, kv: Seq<char>, e: EntryV)
    requires
        keys_unique(s0),
        lookup(s0, kv) is None,
    ensures
        keys_unique(s0.push((kv, e))),
        forall|k: Seq<char>| #[trigger] lookup(s0.push((kv, e)), k) == if k == kv {
            Some(e)
        } else {
            lookup(s0, k)
        },
{
    let s1 = s0.push((kv, e));
    assert(s1.drop_last() =~= s0);
    assert forall|j: int| 0 <= j < s0.len() implies s0[j].0 != kv by {
        lemma_lookup_index(s0, j);
    }
}

proof fn lemma_index_transfer(
    x: Seq<(u64, Seq<char>)>,
    s0: Seq<(Seq<char>, EntryV)>,
    s1: Seq<(Seq<char>, EntryV)>,
    kv: Seq<char>,
)
    requires
        index_without(x, s0, kv),
        forall|k: Seq<char>| k != kv ==> #[trigger] lookup(s1, k) == lookup(s0, k),
    ensures
        index_without(x, s1, kv),
{
    assert forall|a: int| 0 <= a < x.len() implies (#[trigger] x[a]).1 != kv && lookup(s1, x[a].1) is Some
        && lookup(s1, x[a].1)->0.expires_at == Some(x[a].0) by {
        assert(lookup(s1, x[a].1) == lookup(s0, x[a].1));
    }
    assert forall|k: Seq<char>|
        k != kv && #[trigger] lookup(s1, k) is Some && lookup(s1, k)->0.expires_at is Some implies exists|a: int|
        0 <= a < x.len() && x[a].1 == k by {
        assert(lookup(s1, k) == lookup(s0, k));
    }
}

proof fn lemma_index_close(x: Seq<(u64, Seq<char>)>, s: Seq<(Seq<char>, EntryV)>, kv: Seq<char>, e: EntryV)
    requires
        index_without(x, s, kv),
        lookup(s, kv) == Some(e),
        e.expires_at is None,
    ensures
        indexes(x, s),
{
    assert forall|a: int| 0 <= a < x.len() implies lookup(s, (#[trigger] x[a]).1) is Some && lookup(
        s,
        x[a].1,
    )->0.expires_at == Some(x[a].0) by {}
}

proof fn lemma_index_insert(x: Seq<(u64, Seq<char>)>, s: Seq<(Seq<char>, EntryV)>, kv: Seq<char>, e: EntryV, p: int)
    requires
        index_without(x, s, kv),
        lookup(s, kv) == Some(e),
        e.expires_at is Some,
        0 <= p <= x.len(),
        forall|m: int| 0 <= m < p ==> x[m].0 <= e.expires_at->0,
        forall|m: int| p <= m < x.len() ==> x[m].0 > e.expires_at->0,
    ensures
        indexes(x.insert(p, (e.expires_at->0, kv)), s),
{
    let w = e.expires_at->0;
    let x2 = x.insert(p, (w, kv));
    x.insert_ensures(p, (w, kv));
    assert forall|a: int| 0 <= a < x2.len() && a != p implies #[trigger] x2[a] == x[if a < p { a } else { a - 1 }] by {
        if a > p {
            assert(x2[(a - 1) + 1] == x[a - 1]);
        }
    }
    assert forall|a: int, b: int| 0 <= a < b < x2.len() implies x2[a].0 <= x2[b].0 && x2[a].1 != x2[b].1 by {
        if a != p {
            assert(x2[a] == x[if a < p { a } else { a - 1 }]);
        }
        if b != p {
            assert(x2[b] == x[if b < p { b } else { b - 1 }]);
        }
    }
    assert forall|a: int| 0 <= a < x2.len() implies lookup(s, (#[trigger] x2[a]).1) is Some && lookup(
        s,
        x2[a].1,
    )->0.expires_at == Some(x2[a].0) by {
        if a != p {
            let a1 = if a < p { a } else { a - 1 };
            assert(x2[a] == x[a1]);
            assert(x[a1] == x[a1]);
        }
    }
    assert forall|k: Seq<char>|
        #[trigger] lookup(s, k) is Some && lookup(s, k)->0.expires_at is Some implies exists|a: int|
        0 <= a < x2.len() && x2[a].1 == k by {
        if k == kv {
            assert(x2[p].1 == kv);
        } else {
            let b = choose|b: int| 0 <= b < x.len() && x[b].1 == k;
            let a = if b < p { b } else { b + 1 };
            assert(x2[a] == x[b]);
        }
    }
}

impl State {
    spec fn entries(&self) -> Seq<(Seq<char>, EntryV)> {
        slots_view(self.slots@)
    }

    /// The keyspace: each key with its entry.
    pub closed spec fn map(&self) -> Map<Seq<char>, EntryV> {
        Map::new(|k: Seq<char>| lookup(self.entries(), k) is Some, |k: Seq<char>| lookup(self.entries(), k)->0)
    }

    /// The deadline index: `(deadline, key)` records in order of deadline.
    pub closed spec fn expirations(&self) -> Seq<(u64, Seq<char>)> {
        exps_view(self.expirations@)
    }

    /// Whether shutdown has been asked for.
    pub closed spec fn is_shut(&self) -> bool {
        self.shutdown
    }

    pub closed spec fn wf(&self) -> bool {
        keys_unique(self.entries()) && indexes(self.expirations(), self.entries())
    }

    /// The deadline index is ordered by deadline and holds `(t, k)` exactly
    /// when the entry at `k` expires at `t`.
    pub proof fn lemma_expirations(&self)
        requires
            self.wf(),
        ensures
            forall|i: int, j: int|
                0 <= i < j < self.expirations().len() ==> self.expirations()[i].0
                    <= self.expirations()[j].0,
            forall|t: u64, k: Seq<char>|
                #[trigger] self.expirations().contains((t, k)) <==> self.map().contains_key(k)
                    && self.map()[k].expires_at == Some(t),
    {
        let x = self.expirations();
        let s = self.entries();
        assert forall|t: u64, k: Seq<char>|
            #[trigger] x.contains((t, k)) <==> self.map().contains_key(k) && self.map()[k].expires_at
                == Some(t) by {
            if x.contains((t, k)) {
                let i = choose|i: int| 0 <= i < x.len() && x[i] == (t, k);
                assert(x[i] == x[i]);
            }
            if self.map().contains_key(k) && self.map()[k].expires_at == Some(t) {
                assert(lookup(s, k) is Some && lookup(s, k)->0.expires_at is Some);
                let i = choose|i: int| 0 <= i < x.len() && x[i].1 == k;
                assert(x[i] == x[i]);
                assert(x[i] == (t, k));
            }
        }
    }

    pub fn new() -> (r: State)
        ensures
            r.wf(),
            r.map() == Map::<Seq<char>, EntryV>::empty(),
            !r.is_shut(),
    {
        let r = State { slots: Vec::new(), expirations: Vec::new(), shutdown: false };
        assert(r.expirations() =~= Seq::<(u64, Seq<char>)>::empty());
        assert(r.entries() =~= Seq::<(Seq<char>, EntryV)>::empty());
        assert(r.map() =~= Map::<Seq<char>, EntryV>::empty());
        r
    }

    fn find(&self, key: &str) -> (r: Option<usize>)
        requires
            keys_unique(self.entries()),
        ensures
            match r {
                Some(i) => i < self.slots.len() && self.slots@[i as int].key@ == key@
                    && lookup(self.entries(), key@) == Some(self.entries()[i as int].1),
                None => lookup(self.entries(), key@) is None,
            },
    {
        let mut i: usize = 0;
        while i < self.slots.len()
            invariant
                keys_unique(self.entries()),
                i <= self.slots.len(),
                forall|j: int| 0 <= j < i ==> self.entries()[j].0 != key@,
            decreases self.slots.len() - i,
        {
            if crate::parse::text_eq(self.slots[i].key.as_str(), key) {
                proof {
                    lemma_lookup_index(self.entries(), i as int);
                }
                return Some(i);
            }
            i += 1;
        }
        proof {
            lemma_lookup_none(self.entries(), key@);
        }
        None
    }

    fn find_expiration(&self, key: &str) -> (r: Option<usize>)
        ensures
            match r {
                Some(j) => j < self.expirations().len() && self.expirations()[j as int].1 == key@,
                None => forall|j: int| 0 <= j < self.expirations().len() ==> self.expirations()[j].1 != key@,
            },
    {
        let mut j: usize = 0;
        while j < self.expirations.len()
            invariant
                j <= self.expirations.len(),
                forall|m: int| 0 <= m < j ==> self.expirations()[m].1 != key@,
            decreases self.expirations.len() - j,
        {
            if crate::parse::text_eq(self.expirations[j].key.as_str(), key) {
                return Some(j);
            }
            j += 1;
        }
        None
    }

    /// The bytes stored at `key`, if any.
    pub fn get(&self, key: &str) -> (r: Option<Vec<u8>>)
        requires
            self.wf(),
        ensures
            match r {
                Some(v) => self.map().contains_key(key@) && self.map()[key@].data == v@,
                None => !self.map().contains_key(key@),
            },
    {
        match self.find(key) {
            Some(i) => Some(crate::frame::copy_bytes(self.slots[i].data.as_slice())),
            None => None,
        }
    }

    /// The earliest deadline among the entries: the first of the index.
    pub fn next_expiration(&self) -> (r: Option<u64>)
        requires
            self.wf(),
        ensures
            earliest_is(self.map(), r),
    {
        let ghost x = self.expirations();
        let ghost s = self.entries();
        let ghost m = self.map();
        if self.expirations.len() == 0 {
            proof {
                assert forall|k: Seq<char>| #![trigger m[k]] m.contains_key(k) implies m[k].expires_at is None by {
                    if lookup(s, k)->0.expires_at is Some {
                        assert(lookup(s, k) is Some && lookup(s, k)->0.expires_at is Some);
                    }
                }
            }
            None
        } else {
            let t = self.expirations[0].when;
            proof {
                assert(x[0] == x[0]);
                assert(m.contains_key(x[0].1) && m[x[0].1].expires_at == Some(t));
                assert forall|k: Seq<char>|
                    #![trigger m[k]]
                    m.contains_key(k) && m[k].expires_at is Some implies t <= m[k].expires_at->0 by {
                    assert(lookup(s, k) is Some && lookup(s, k)->0.expires_at is Some);
                    let i = choose|i: int| 0 <= i < x.len() && x[i].1 == k;
                    assert(x[i] == x[i]);
                    if i > 0 {
                        assert(x[0].0 <= x[i].0);
                    }
                }
            }
            Some(t)
        }
    }
}

fn compute_deadline(now: u64, expire: Option<u128>) -> (r: Option<u64>)
    ensures
        r == deadline(now, expire),
{
    match expire {
        Some(ms) => if ms > (u64::MAX - now) as u128 {
            Some(u64::MAX)
        } else {
            Some(now + ms as u64)
        },
        None => None,
    }
}

impl State {
    /// Stores `value` at `key`, replacing what was there, with a deadline
    /// `expire` milliseconds after `now` if given. Returns whether the
    /// expirer must wake: the new deadline comes before every earlier one.
    pub fn set(&mut self, key: String, value: Vec<u8>, expire: Option<u128>, now: u64) -> (notify: bool)
        requires
            old(self).wf(),
        ensures
            final(self).wf(),
            final(self).is_shut() == old(self).is_shut(),
            final(self).map() == after_set(old(self).map(), key@, value@, expire, now),
            notify == match deadline(now, expire) {
                Some(w) => forall|k: Seq<char>|
                    #![trigger old(self).map()[k]]
                    old(self).map().contains_key(k) && old(self).map()[k].expires_at is Some ==> w
                        < old(self).map()[k].expires_at->0,
                None => false,
            },
    {
        let when = compute_deadline(now, expire);
        let next = self.next_expiration();
        let notify = match when {
            Some(w) => match next {
                Some(t) => w < t,
                None => true,
            },
            None => false,
        };
        let ghost m0 = self.map();
        let ghost s0 = self.entries();
        let ghost x0 = self.expirations();
        let ghost kv = key@;
        let ghost e = EntryV { data: value@, expires_at: when };
        proof {
            if let Some(w) = when {
                if let Some(t) = next {
                    if !notify {
                        let k0 = choose|k: Seq<char>| m0.contains_key(k) && m0[k].expires_at == Some(t);
                        assert(m0.contains_key(k0) && m0[k0].expires_at is Some && !(w < m0[k0].expires_at->0));
                    }
                }
            }
        }
        let ghost mut dropped: int = -1;
        match self.find_expiration(key.as_str()) {
            Some(j) => {
                self.expirations.remove(j);
                proof {
                    dropped = j as int;
                    assert(self.expirations() =~= x0.remove(j as int));
                }
            },
            None => {},
        }
        let ghost x1 = self.expirations();
        proof {
            lemma_drop_key(x0, s0, x1, kv, dropped);
        }
        let key2 = key.clone();
        match self.find(key.as_str()) {
            Some(i) => {
                self.slots.set(i, Slot { key, data: value, expires_at: when });
                proof {
                    assert(self.entries() =~= s0.update(i as int, (kv, e)));
                    lemma_update_entry(s0, i as int, e);
                }
            },
            None => {
                self.slots.push(Slot { key, data: value, expires_at: when });
                proof {
                    assert(self.entries() =~= s0.push((kv, e)));
                    lemma_push_entry(s0, kv, e);
                }
            },
        }
        let ghost s1 = self.entries();
        proof {
            assert(self.map() =~= after_set(m0, kv, value@, expire, now));
            lemma_index_transfer(x1, s0, s1, kv);
        }
        match when {
            Some(w) => {
                let p = self.insert_position_in(w);
                self.expirations.insert(p, Expiration { when: w, key: key2 });
                proof {
                    assert(self.expirations() =~= x1.insert(p as int, (w, kv)));
                    lemma_index_insert(x1, s1, kv, e, p as int);
                }
            },
            None => {
                proof {
                    lemma_index_close(x1, s1, kv, e);
                }
            },
        }
        notify
    }

    /// Where a record with deadline `w` goes in the index, which need not
    /// cover every entry here.
    fn insert_position_in(&self, w: u64) -> (p: usize)
        requires
            forall|i: int, j: int| 0 <= i < j < self.expirations().len() ==> self.expirations()[i].0 <= self.expirations()[j].0,
        ensures
            p <= self.expirations().len(),
            forall|m: int| 0 <= m < p ==> self.expirations()[m].0 <= w,
            forall|m: int| p <= m < self.expirations().len() ==> self.expirations()[m].0 > w,
    {
        let mut p: usize = 0;
        while p < self.expirations.len() && self.expirations[p].when <= w
            invariant
                forall|i: int, j: int| 0 <= i < j < self.expirations().len() ==> self.expirations()[i].0 <= self.expirations()[j].0,
                p <= self.expirations.len(),
                forall|m: int| 0 <= m < p ==> self.expirations()[m].0 <= w,
            decreases self.expirations.len() - p,
        {
            p += 1;
        }
        proof {
            if p < self.expirations.len() {
                assert forall|m: int| p <= m < self.expirations().len() implies self.expirations()[m].0 > w by {
                    if m > p {
                        assert(self.expirations()[p as int].0 <= self.expirations()[m].0);
                    }
                }
            }
        }
        p
    }

    /// Walks the deadline index from its start and removes every entry due
    /// at or before `now`; returns the earliest deadline left. Once
    /// shutdown has been asked for it does nothing and returns `None`.
    pub fn purge_expired_keys(&mut self, now: u64) -> (r: Option<u64>)
        requires
            old(self).wf(),
        ensures
            final(self).wf(),
            final(self).is_shut() == old(self).is_shut(),
            old(self).is_shut() ==> r is None && final(self).map() == old(self).map(),
            !old(self).is_shut() ==> final(self).map() == after_purge(old(self).map(), now)
                && earliest_is(final(self).map(), r),
    {
        if self.shutdown {
            return None;
        }
        let ghost m0 = self.map();
        while self.expirations.len() > 0 && self.expirations[0].when <= now
            invariant
                self.wf(),
                self.shutdown == old(self).shutdown,
                forall|k: Seq<char>| #[trigger] self.map().contains_key(k) ==> m0.contains_key(k) && self.map()[k] == m0[k],
                forall|k: Seq<char>| #[trigger] m0.contains_key(k) && !expired(m0[k], now) ==> self.map().contains_key(k),
            decreases self.expirations.len(),
        {
            let ghost x = self.expirations();
            let ghost s = self.entries();
            let ghost m = self.map();
            let ghost k = x[0].1;
            proof {
                assert(x[0] == x[0]);
            }
            let i = match self.find(self.expirations[0].key.as_str()) {
                Some(i) => i,
                None => {
                    return None;
                },
            };
            proof {
                lemma_index_remove(x, s, 0, i as int);
                s.remove_ensures(i as int);
            }
            self.slots.remove(i);
            self.expirations.remove(0);
            proof {
                assert(self.entries() =~= s.remove(i as int));
                assert(self.expirations() =~= x.remove(0));
                lemma_lookup_remove(s, i as int);
                assert forall|k2: Seq<char>| #[trigger] self.map().contains_key(k2) implies m0.contains_key(k2) && self.map()[k2] == m0[k2] by {
                    assert(m.contains_key(k2));
                }
                assert forall|k2: Seq<char>| #[trigger] m0.contains_key(k2) && !expired(m0[k2], now) implies self.map().contains_key(k2) by {
                    assert(m.contains_key(k2));
                    if k2 == k {
                        assert(m[k].expires_at == Some(x[0].0));
                    }
                }
            }
        }
        proof {
            let s = self.entries();
            let x = self.expirations();
            let m = self.map();
            assert forall|k: Seq<char>| #[trigger] m.contains_key(k) implies !expired(m[k], now) by {
                if m[k].expires_at is Some {
                    assert(lookup(s, k) is Some && lookup(s, k)->0.expires_at is Some);
                    let i = choose|i: int| 0 <= i < x.len() && x[i].1 == k;
                    assert(x[i] == x[i]);
                    if i > 0 {
                        assert(x[0].0 <= x[i].0);
                    }
                }
            }
            assert(m =~= after_purge(m0, now));
        }
        self.next_expiration()
    }

    /// Asks the expirer to stop.
    pub fn shutdown_purge_task(&mut self)
        requires
            old(self).wf(),
        ensures
            final(self).wf(),
            final(self).is_shut(),
            final(self).map() == old(self).map(),
    {
        self.shutdown = true;
    }

    pub fn is_shutdown(&self) -> (r: bool)
        ensures
            r == self.is_shut(),
    {
        self.shutdown
    }
}

/// The keyspace after a purge at each of `times`, in order.
pub open spec fn purge_many(m: Map<Seq<char>, EntryV>, times: Seq<u64>) -> Map<Seq<char>, EntryV>
    decreases times.len(),
{
    if times.len() == 0 {
        m
    } else {
        after_purge(purge_many(m, times.drop_last()), times.last())
    }
}

/// A value stored without a time to live stays readable, unchanged, through
/// any purges that follow, until the key is set again.
pub proof fn lemma_set_persists(
    m: Map<Seq<char>, EntryV>,
    k: Seq<char>,
    v: Seq<u8>,
    now: u64,
    times: Seq<u64>,
)
    ensures
        purge_many(after_set(m, k, v, None, now), times).contains_key(k),
        purge_many(after_set(m, k, v, None, now), times)[k] == (EntryV { data: v, expires_at: None }),
    decreases times.len(),
{
    if times.len() > 0 {
        lemma_set_persists(m, k, v, now, times.drop_last());
    }
}

/// A value stored with a time to live of `ms` stays readable through every
/// purge before its deadline, and the first purge at or after the deadline
/// removes it.
pub proof fn lemma_ttl(
    m: Map<Seq<char>, EntryV>,
    k: Seq<char>,
    v: Seq<u8>,
    ms: u128,
    now: u64,
    times: Seq<u64>,
    t: u64,
)
    requires
        now + ms <= u64::MAX,
        forall|i: int| 0 <= i < times.len() ==> times[i] < now + ms,
    ensures
        purge_many(after_set(m, k, v, Some(ms), now), times).contains_key(k),
        purge_many(after_set(m, k, v, Some(ms), now), times)[k].data == v,
        t >= now + ms ==> !after_purge(purge_many(after_set(m, k, v, Some(ms), now), times), t).contains_key(k),
{
    lemma_ttl_entry(m, k, v, ms, now, times);
}

proof fn lemma_ttl_entry(
    m: Map<Seq<char>, EntryV>,
    k: Seq<char>,
    v: Seq<u8>,
    ms: u128,
    now: u64,
    times: Seq<u64>,
)
    requires
        now + ms <= u64::MAX,
        forall|i: int| 0 <= i < times.len() ==> times[i] < now + ms,
    ensures
        purge_many(after_set(m, k, v, Some(ms), now), times).contains_key(k),
        purge_many(after_set(m, k, v, Some(ms), now), times)[k] == (EntryV {
            data: v,
            expires_at: Some((now + ms) as u64),
        }),
    decreases times.len(),
{
    if times.len() > 0 {
        lemma_ttl_entry(m, k, v, ms, now, times.drop_last());
    }
}

/// tokio's `broadcast::Sender`, carried as an opaque endpoint.
#[verifier::external_type_specification]
#[verifier::external_body]
#[verifier::reject_recursive_types(T)]
pub struct ExSender<T>(tokio::sync::broadcast::Sender<T>);

/// tokio's `broadcast::Receiver`, handed to the caller unopened.
#[verifier::external_type_specification]
#[verifier::external_body]
#[verifier::reject_recursive_types(T)]
pub struct ExReceiver<T>(tokio::sync::broadcast::Receiver<T>);

/// How many messages a channel holds for a subscriber that lags behind.
pub const CHANNEL_CAPACITY: usize = 1024;

/// Relies on tokio's `broadcast::channel`: a new channel and its first
/// receiver. It panics on a capacity of zero or above `usize::MAX / 2`.
#[verifier::external_body]
fn broadcast_channel(capacity: usize) -> (tokio::sync::broadcast::Sender<Vec<u8>>, tokio::sync::broadcast::Receiver<Vec<u8>>)
    requires
        0 < capacity <= usize::MAX / 2,
{
    tokio::sync::broadcast::channel(capacity)
}

/// Relies on tokio's `broadcast::Sender::subscribe`: a new receiver of the
/// messages sent from now on.
#[verifier::external_body]
fn broadcast_subscribe(tx: &tokio::sync::broadcast::Sender<Vec<u8>>) -> tokio::sync::broadcast::Receiver<Vec<u8>> {
    tx.subscribe()
}

/// Relies on tokio's `broadcast::Sender::send`: the message goes to every
/// live receiver, and the result is how many there were; none is an error,
/// counted here as zero.
#[verifier::external_body]
fn broadcast_send(tx: &tokio::sync::broadcast::Sender<Vec<u8>>, message: Vec<u8>) -> usize {
    tx.send(message).unwrap_or(0)
}

/// The channels that have had a subscriber, each with its broadcast
/// endpoint. Endpoints are made on first subscription and kept.
pub struct PubSub {
    channels: Vec<(String, tokio::sync::broadcast::Sender<Vec<u8>>)>,
    sent: Ghost<Seq<(Seq<char>, Seq<u8>)>>,
}

impl View for PubSub {
    type V = Seq<Seq<char>>;

    closed spec fn view(&self) -> Seq<Seq<char>> {
        self.channels@.map_values(|e: (String, tokio::sync::broadcast::Sender<Vec<u8>>)| e.0@)
    }
}

impl PubSub {
    /// The endpoint of each channel, in the order of `self@`.
    pub closed spec fn endpoints(&self) -> Seq<tokio::sync::broadcast::Sender<Vec<u8>>> {
        self.channels@.map_values(|e: (String, tokio::sync::broadcast::Sender<Vec<u8>>)| e.1)
    }

    /// Every message handed to a channel's endpoint so far, with its channel,
    /// in order.
    pub closed spec fn sent(&self) -> Seq<(Seq<char>, Seq<u8>)> {
        self.sent@
    }

    pub fn new() -> (r: PubSub)
        ensures
            r@ == Seq::<Seq<char>>::empty(),
            r.endpoints() == Seq::<tokio::sync::broadcast::Sender<Vec<u8>>>::empty(),
            r.sent() == Seq::<(Seq<char>, Seq<u8>)>::empty(),
    {
        let r = PubSub { channels: Vec::new(), sent: Ghost(Seq::empty()) };
        assert(r@ =~= Seq::<Seq<char>>::empty());
        assert(r.endpoints() =~= Seq::<tokio::sync::broadcast::Sender<Vec<u8>>>::empty());
        r
    }

    fn find(&self, channel: &str) -> (r: Option<usize>)
        ensures
            match r {
                Some(i) => i < self@.len() && self@[i as int] == channel@,
                None => !self@.contains(channel@),
            },
    {
        let mut i: usize = 0;
        while i < self.channels.len()
            invariant
                i <= self.channels.len(),
                forall|j: int| 0 <= j < i ==> self@[j] != channel@,
            decreases self.channels.len() - i,
        {
            if crate::parse::text_eq(self.channels[i].0.as_str(), channel) {
                return Some(i);
            }
            i += 1;
        }
        None
    }

    /// A receiver of the messages published to `channel` from now on. A
    /// channel that has an endpoint keeps it; one that has none gets a new
    /// one, made with room for `CHANNEL_CAPACITY` messages.
    pub fn subscribe(&mut self, channel: String) -> (r: tokio::sync::broadcast::Receiver<Vec<u8>>)
        ensures
            old(self)@.contains(channel@) ==> final(self)@ == old(self)@ && final(self).endpoints()
                == old(self).endpoints(),
            !old(self)@.contains(channel@) ==> final(self)@ == old(self)@.push(channel@)
                && final(self).endpoints().len() == old(self).endpoints().len() + 1
                && final(self).endpoints().subrange(0, old(self).endpoints().len() as int)
                == old(self).endpoints(),
            final(self).sent() == old(self).sent(),
    {
        match self.find(channel.as_str()) {
            Some(i) => broadcast_subscribe(&self.channels[i].1),
            None => {
                let ghost before = self@;
                let ghost ends = self.endpoints();
                let ghost name = channel@;
                let (tx, rx) = broadcast_channel(CHANNEL_CAPACITY);
                self.channels.push((channel, tx));
                assert(self@ =~= before.push(name));
                assert(self.endpoints().subrange(0, ends.len() as int) =~= ends);
                rx
            },
        }
    }

    /// Sends `message` to the subscribers of `channel` and returns how many
    /// received it: none when the channel has never had a subscriber. The
    /// message goes to that channel's endpoint, and to no other.
    pub fn publish(&mut self, channel: &str, message: Vec<u8>) -> (r: usize)
        ensures
            final(self)@ == old(self)@,
            final(self).endpoints() == old(self).endpoints(),
            old(self)@.contains(channel@) ==> final(self).sent() == old(self).sent().push(
                (channel@, message@),
            ),
            !old(self)@.contains(channel@) ==> r == 0 && final(self).sent() == old(self).sent(),
    {
        match self.find(channel) {
            Some(i) => {
                proof {
                    self.sent@ = self.sent@.push((channel@, message@));
                }
                broadcast_send(&self.channels[i].1, message)
            },
            None => 0,
        }
    }
}

} // verus!
