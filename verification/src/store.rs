//! The metric store: per-key counters with last-activity timestamps and
//! staleness-based eviction.
//!
//! A key is a (domain, status-code) pair; each key holds a monotonically
//! increasing count and the time it was last recorded. A periodic sweep
//! removes every key whose last activity is older than the eviction TTL.
//! The store is modelled as a partial map from key views to
//! (count, last-seen) pairs, and every operation's contract pins the new
//! map pointwise.

use vstd::prelude::*;

verus! {

/// Seconds between two runs of the periodic sweep.
pub const SWEEP_INTERVAL_SECS: u64 = 10;

/// Seconds an idle key is kept before the sweep evicts it.
pub const EVICTION_TTL_SECS: u64 = 60;

/// One counter series: a (domain, status-code) pair.
pub struct MetricKey {
    pub domain: String,
    pub status: u16,
}

impl MetricKey {
    /// The mathematical identity of the key.
    pub open spec fn key(self) -> (Seq<char>, u16) {
        (self.domain@, self.status)
    }
}

/// One stored series: its key, its count, and when it was last recorded.
struct StoreEntry {
    key: MetricKey,
    count: u64,
    last_seen: u64,
}

/// One row of a snapshot, ready for export.
#[derive(Debug, PartialEq, Eq)]
pub struct SnapshotRow {
    pub domain: String,
    pub status: u16,
    pub count: u64,
}

/// The metric store.
pub struct MetricStore {
    entries: Vec<StoreEntry>,
}

impl StoreEntry {
    spec fn val(self) -> (u64, u64) {
        (self.count, self.last_seen)
    }
}

/// First entry with the given key, scanning from index `i`.
spec fn lookup_from(s: Seq<StoreEntry>, k: (Seq<char>, u16), i: int) -> Option<(u64, u64)>
    decreases s.len() - i,
{
    if i >= s.len() {
        None
    } else if s[i].key.key() == k {
        Some(s[i].val())
    } else {
        lookup_from(s, k, i + 1)
    }
}

/// The count the record operation leaves for a key: a fresh key starts at 1,
/// an existing key is incremented (saturating at the integer's top), and the
/// last-seen time becomes `now` either way.
pub open spec fn bumped(v: Option<(u64, u64)>, now: u64) -> (u64, u64) {
    match v {
        None => (1u64, now),
        Some(p) => ((if p.0 < u64::MAX {
            p.0 + 1
        } else {
            p.0 as int
        }) as u64, now),
    }
}

/// Whether an entry last seen at `last_seen` is still live at `now` under
/// the given TTL: it is evicted exactly when `now - last_seen > ttl`.
pub open spec fn live_at(last_seen: u64, now: u64, ttl: u64) -> bool {
    last_seen + ttl >= now
}

/// What the sweep operation leaves of a key's value.
pub open spec fn swept(v: Option<(u64, u64)>, now: u64, ttl: u64) -> Option<(u64, u64)> {
    match v {
        None => None,
        Some(p) => if live_at(p.1, now, ttl) {
            Some(p)
        } else {
            None
        },
    }
}

impl MetricStore {
    /// The abstract state: value of each key, `None` when absent.
    pub closed spec fn spec_lookup(self, k: (Seq<char>, u16)) -> Option<(u64, u64)> {
        lookup_from(self.entries@, k, 0)
    }

    /// At most one entry per key.
    pub closed spec fn wf(self) -> bool {
        forall|i: int, j: int|
            0 <= i < j < self.entries@.len() ==> #[trigger] self.entries@[i].key.key()
                != #[trigger] self.entries@[j].key.key()
    }

    /// The rows a snapshot reports, in store order.
    pub closed spec fn spec_rows(self) -> Seq<SnapshotRow> {
        Seq::new(
            self.entries@.len(),
            |i: int|
                SnapshotRow {
                    domain: self.entries@[i].key.domain,
                    status: self.entries@[i].key.status,
                    count: self.entries@[i].count,
                },
        )
    }

    /// An empty store.
    pub fn new() -> (r: MetricStore)
        ensures
            r.wf(),
            forall|k: (Seq<char>, u16)| r.spec_lookup(k) is None,
    {
        MetricStore { entries: Vec::new() }
    }

    /// Count one observation of `(domain, status)` at time `now`: the key's
    /// counter is incremented, the entry created at count 1 if absent, and
    /// its last-activity time refreshed; no other key changes.
    #[verifier::loop_isolation(false)]
    pub fn record(&mut self, domain: String, status: u16, now: u64)
        requires
            old(self).wf(),
        ensures
            final(self).wf(),
            final(self).spec_lookup((domain@, status)) == Some(
                bumped(old(self).spec_lookup((domain@, status)), now),
            ),
            forall|k2: (Seq<char>, u16)|
                k2 != (domain@, status) ==> final(self).spec_lookup(k2) == old(self).spec_lookup(
                    k2,
                ),
    {
        let k = MetricKey { domain, status };
        let ghost kk = (k.domain@, k.status);
        let n = self.entries.len();
        let ghost s0 = self.entries@;
        let mut i: usize = 0;
        while i < n
            invariant
                0 <= i <= n == self.entries@.len(),
                self.entries@ == s0,
                s0 == old(self).entries@,
                old(self).wf(),
                kk == (k.domain@, k.status),
                forall|j: int| 0 <= j < i ==> s0[j].key.key() != kk,
            decreases n - i,
        {
            if string_eq(&self.entries[i].key.domain, &k.domain) && self.entries[i].key.status
                == k.status {
                let c = self.entries[i].count;
                let c2: u64 = if c < u64::MAX {
                    c + 1
                } else {
                    c
                };
                let e2 = StoreEntry { key: k, count: c2, last_seen: now };
                proof {
                    assert(s0[i as int].key.key() == kk && e2.key.key() == kk);
                    lemma_lookup_prefix_miss(s0, kk, i as int);
                    assert(lookup_from(s0, kk, i as int) == Some(s0[i as int].val()));
                    assert(old(self).spec_lookup(kk) == Some((c, s0[i as int].last_seen)));
                }
                let ghost s1 = s0.update(i as int, e2);
                proof {
                    assert(forall|j: int|
                        0 <= j < s1.len() ==> #[trigger] s1[j].key.key() == s0[j].key.key());
                    lemma_lookup_update(s0, i as int, e2, kk);
                    assert(lookup_from(s1, kk, 0) == Some((c2, now)));
                    assert forall|k2: (Seq<char>, u16)| k2 != kk implies lookup_from(s1, k2, 0)
                        == lookup_from(s0, k2, 0) by {
                        lemma_lookup_update(s0, i as int, e2, k2);
                    }
                }
                self.entries.set(i, e2);
                proof {
                    assert(self.entries@ == s1);
                    assert(self.spec_lookup(kk) == Some(bumped(old(self).spec_lookup(kk), now)));
                    assert(forall|k2: (Seq<char>, u16)|
                        k2 != kk ==> self.spec_lookup(k2) == old(self).spec_lookup(k2));
                }
                return ;
            }
            i = i + 1;
        }
        proof {
            lemma_lookup_prefix_miss(s0, kk, n as int);
        }
        let e = StoreEntry { key: k, count: 1, last_seen: now };
        let ghost s1 = s0.push(e);
        proof {
            assert forall|p: int, q: int| 0 <= p < q < s1.len() implies #[trigger] s1[p].key.key()
                != #[trigger] s1[q].key.key() by {
                if q == s0.len() {
                    assert(s1[p] == s0[p] && s1[q] == e);
                } else {
                    assert(s1[p] == s0[p] && s1[q] == s0[q]);
                }
            }
            lemma_lookup_push(s0, e, kk, 0);
            assert(lookup_from(s0, kk, 0) is None);
            assert(lookup_from(s1, kk, 0) == Some((1u64, now)));
            assert forall|k2: (Seq<char>, u16)| k2 != kk implies lookup_from(s1, k2, 0)
                == lookup_from(s0, k2, 0) by {
                lemma_lookup_push(s0, e, k2, 0);
            }
        }
        self.entries.push(e);
        proof {
            assert(self.entries@ == s1);
            assert(self.spec_lookup(kk) == Some(bumped(old(self).spec_lookup(kk), now)));
            assert(forall|k2: (Seq<char>, u16)|
                k2 != kk ==> self.spec_lookup(k2) == old(self).spec_lookup(k2));
        }
    }

    /// Remove every key whose last activity at time `now` is older than
    /// `ttl`; live keys keep their count and last-activity time.
    #[verifier::loop_isolation(false)]
    pub fn sweep(&mut self, now: u64, ttl: u64)
        requires
            old(self).wf(),
        ensures
            final(self).wf(),
            forall|k: (Seq<char>, u16)| #[trigger]
                final(self).spec_lookup(k) == swept(old(self).spec_lookup(k), now, ttl),
    {
        let ghost s0 = self.entries@;
        let n = self.entries.len();
        let mut kept: Vec<StoreEntry> = Vec::new();
        let mut i: usize = 0;
        while i < n
            invariant
                0 <= i <= n == self.entries@.len(),
                self.entries@ == s0,
                old(self).wf(),
                self.entries@ == old(self).entries@,
                forall|p: int, q: int|
                    0 <= p < q < kept@.len() ==> #[trigger] kept@[p].key.key()
                        != #[trigger] kept@[q].key.key(),
                forall|p: int|
                    0 <= p < kept@.len() ==> exists|j: int|
                        0 <= j < i && #[trigger] kept@[p] == s0[j],
                forall|k: (Seq<char>, u16)| #[trigger]
                    lookup_from(kept@, k, 0) == (if exists|j: int|
                        0 <= j < i && #[trigger] s0[j].key.key() == k && live_at(
                            s0[j].last_seen,
                            now,
                            ttl,
                        ) {
                        lookup_from(s0, k, 0)
                    } else {
                        None
                    }),
            decreases n - i,
        {
            let e = &self.entries[i];
            let live = now <= ttl || e.last_seen >= now - ttl;
            assert(live == live_at(e.last_seen, now, ttl));
            if live {
                let ghost k0 = kept@;
                let e2 = StoreEntry {
                    key: MetricKey { domain: clone_string(&e.key.domain), status: e.key.status },
                    count: e.count,
                    last_seen: e.last_seen,
                };
                assert(e2.key.key() == s0[i as int].key.key() && e2.val() == s0[i as int].val());
                proof {
                    // the entry's key is not yet in `kept`: any source index
                    // j < i with the same key would break `old(self).wf()`
                    assert forall|p: int| 0 <= p < k0.len() implies k0[p].key.key()
                        != e2.key.key() by {
                        let j = choose|j: int| 0 <= j < i && k0[p] == s0[j];
                        assert(s0[j].key.key() != s0[i as int].key.key());
                    }
                    lemma_lookup_none_of_all_miss(k0, e2.key.key());
                    assert forall|k: (Seq<char>, u16)| true implies #[trigger] lookup_from(
                        k0.push(e2),
                        k,
                        0,
                    ) == (if exists|j: int|
                        0 <= j < i + 1 && #[trigger] s0[j].key.key() == k && live_at(
                            s0[j].last_seen,
                            now,
                            ttl,
                        ) {
                        lookup_from(s0, k, 0)
                    } else {
                        None
                    }) by {
                        lemma_lookup_push(k0, e2, k, 0);
                        if k == e2.key.key() {
                            lemma_lookup_index(s0, i as int, k);
                        } else {
                            assert((exists|j: int|
                                0 <= j < i + 1 && #[trigger] s0[j].key.key() == k && live_at(
                                    s0[j].last_seen,
                                    now,
                                    ttl,
                                )) == (exists|j: int|
                                0 <= j < i && #[trigger] s0[j].key.key() == k && live_at(
                                    s0[j].last_seen,
                                    now,
                                    ttl,
                                )));
                        }
                    }
                }
                kept.push(e2);
            } else {
                proof {
                    assert forall|k: (Seq<char>, u16)| true implies #[trigger] lookup_from(
                        kept@,
                        k,
                        0,
                    ) == (if exists|j: int|
                        0 <= j < i + 1 && #[trigger] s0[j].key.key() == k && live_at(
                            s0[j].last_seen,
                            now,
                            ttl,
                        ) {
                        lookup_from(s0, k, 0)
                    } else {
                        None
                    }) by {
                        if k == s0[i as int].key.key() {
                            assert forall|j: int|
                                0 <= j < i + 1 && #[trigger] s0[j].key.key() == k implies !live_at(
                                s0[j].last_seen,
                                now,
                                ttl,
                            ) by {
                                if j < i {
                                    assert(s0[j].key.key() != s0[i as int].key.key());
                                }
                            }
                        }
                    }
                }
            }
            i = i + 1;
        }
        proof {
            assert forall|k: (Seq<char>, u16)| true implies #[trigger] lookup_from(kept@, k, 0)
                == swept(lookup_from(s0, k, 0), now, ttl) by {
                match lookup_from(s0, k, 0) {
                    None => {
                        lemma_lookup_some_index(s0, k, 0);
                    },
                    Some(p) => {
                        lemma_lookup_some_index(s0, k, 0);
                        let j = choose|j: int|
                            0 <= j < s0.len() && s0[j].key.key() == k && s0[j].val() == p;
                        if live_at(p.1, now, ttl) {
                            assert(s0[j].key.key() == k && live_at(s0[j].last_seen, now, ttl));
                        } else {
                            assert forall|j2: int|
                                0 <= j2 < n && #[trigger] s0[j2].key.key() == k implies !live_at(
                                s0[j2].last_seen,
                                now,
                                ttl,
                            ) by {
                                if j2 != j {
                                    assert(s0[j].key.key() != s0[j2].key.key());
                                }
                            }
                        }
                    },
                }
            }
        }
        self.entries = kept;
    }

    /// A point-in-time rendering of every (key, count) pair. The result is
    /// a function of the store's state alone, so two snapshots with no
    /// intervening change are identical; a key appears exactly when the
    /// store holds it.
    #[verifier::loop_isolation(false)]
    pub fn snapshot(&self) -> (r: Vec<SnapshotRow>)
        requires
            self.wf(),
        ensures
            r@ == self.spec_rows(),
            forall|p: int|
                0 <= p < r@.len() ==> #[trigger] self.spec_lookup((r@[p].domain@, r@[p].status))
                    is Some && (self.spec_lookup((r@[p].domain@, r@[p].status))->0).0 == r@[p].count,
            forall|k: (Seq<char>, u16)| #[trigger]
                self.spec_lookup(k) is Some ==> exists|p: int|
                    0 <= p < r@.len() && (#[trigger] r@[p].domain@, r@[p].status) == k
                        && r@[p].count == (self.spec_lookup(k)->0).0,
            forall|p: int, q: int|
                0 <= p < q < r@.len() ==> ((#[trigger] r@[p]).domain@, r@[p].status) != ((
                #[trigger] r@[q]).domain@, r@[q].status),
    {
        let n = self.entries.len();
        let mut rows: Vec<SnapshotRow> = Vec::new();
        let mut i: usize = 0;
        while i < n
            invariant
                0 <= i <= n == self.entries@.len(),
                self.wf(),
                rows@ == self.spec_rows().subrange(0, i as int),
            decreases n - i,
        {
            let e = &self.entries[i];
            let row = SnapshotRow {
                domain: clone_string(&e.key.domain),
                status: e.key.status,
                count: e.count,
            };
            rows.push(row);
            assert(rows@ =~= self.spec_rows().subrange(0, i + 1 as int));
            i = i + 1;
        }
        assert(rows@ =~= self.spec_rows());
        proof {
            assert forall|p: int| 0 <= p < rows@.len() implies #[trigger] self.spec_lookup(
                (rows@[p].domain@, rows@[p].status),
            ) is Some && (self.spec_lookup((rows@[p].domain@, rows@[p].status))->0).0
                == rows@[p].count by {
                lemma_lookup_index(self.entries@, p, self.entries@[p].key.key());
            }
            assert forall|k: (Seq<char>, u16)| #[trigger]
                self.spec_lookup(k) is Some implies exists|p: int|
                0 <= p < rows@.len() && (#[trigger] rows@[p].domain@, rows@[p].status) == k
                    && rows@[p].count == (self.spec_lookup(k)->0).0 by {
                lemma_lookup_some_index(self.entries@, k, 0);
                let j = choose|j: int|
                    0 <= j < self.entries@.len() && self.entries@[j].key.key() == k
                        && self.entries@[j].val() == self.spec_lookup(k)->0;
                assert((rows@[j].domain@, rows@[j].status) == k);
            }
            assert forall|p: int, q: int|
                0 <= p < q < rows@.len() implies ((#[trigger] rows@[p]).domain@, rows@[p].status)
                != ((#[trigger] rows@[q]).domain@, rows@[q].status) by {
                assert(self.entries@[p].key.key() != self.entries@[q].key.key());
                assert((rows@[p].domain@, rows@[p].status) == self.entries@[p].key.key());
                assert((rows@[q].domain@, rows@[q].status) == self.entries@[q].key.key());
            }
        }
        rows
    }
}

/// Law (eviction is visible): a key the store does not hold appears in no
/// snapshot row.
pub proof fn lemma_absent_key_has_no_row(s: MetricStore, k: (Seq<char>, u16))
    requires
        s.wf(),
        s.spec_lookup(k) is None,
    ensures
        forall|p: int|
            0 <= p < s.spec_rows().len() ==> ((#[trigger] s.spec_rows()[p]).domain@,
            s.spec_rows()[p].status) != k,
{
    assert forall|p: int| 0 <= p < s.spec_rows().len() implies ((#[trigger] s.spec_rows()[p]).domain@,
    s.spec_rows()[p].status) != k by {
        if (s.spec_rows()[p].domain@, s.spec_rows()[p].status) == k {
            lemma_lookup_index(s.entries@, p, k);
        }
    }
}

/// Compare two strings for equality of contents.
fn string_eq(a: &String, b: &String) -> (r: bool)
    ensures
        r == (a@ == b@),
{
    a.eq(b)
}

/// Copy a string.
fn clone_string(s: &String) -> (r: String)
    ensures
        r == *s,
{
    s.clone()
}

proof fn lemma_lookup_prefix_miss(s: Seq<StoreEntry>, k: (Seq<char>, u16), i: int)
    requires
        0 <= i <= s.len(),
        forall|j: int| 0 <= j < i ==> s[j].key.key() != k,
    ensures
        lookup_from(s, k, 0) == lookup_from(s, k, i),
    decreases i,
{
    if i > 0 {
        lemma_lookup_suffix_shift(s, k, 0, i);
    }
}

proof fn lemma_lookup_suffix_shift(s: Seq<StoreEntry>, k: (Seq<char>, u16), lo: int, i: int)
    requires
        0 <= lo <= i <= s.len(),
        forall|j: int| lo <= j < i ==> s[j].key.key() != k,
    ensures
        lookup_from(s, k, lo) == lookup_from(s, k, i),
    decreases i - lo,
{
    if lo < i {
        lemma_lookup_suffix_shift(s, k, lo + 1, i);
    }
}

proof fn lemma_lookup_push(s: Seq<StoreEntry>, e: StoreEntry, k: (Seq<char>, u16), i: int)
    requires
        0 <= i <= s.len(),
    ensures
        lookup_from(s.push(e), k, i) == (if lookup_from(s, k, i) is Some {
            lookup_from(s, k, i)
        } else if e.key.key() == k {
            Some(e.val())
        } else {
            None
        }),
    decreases s.len() - i,
{
    if i < s.len() {
        assert(s.push(e)[i] == s[i]);
        lemma_lookup_push(s, e, k, i + 1);
    } else {
        assert(s.push(e).len() == s.len() + 1);
        assert(s.push(e)[i] == e);
        assert(lookup_from(s, k, i) is None);
        if e.key.key() == k {
            assert(lookup_from(s.push(e), k, i) == Some(e.val()));
        } else {
            assert(lookup_from(s.push(e), k, i + 1) is None);
            assert(lookup_from(s.push(e), k, i) is None);
        }
    }
}

proof fn lemma_lookup_update(s: Seq<StoreEntry>, idx: int, e2: StoreEntry, k: (Seq<char>, u16))
    requires
        0 <= idx < s.len(),
        e2.key.key() == s[idx].key.key(),
        forall|j: int| 0 <= j < idx ==> s[j].key.key() != s[idx].key.key(),
    ensures
        lookup_from(s.update(idx, e2), k, 0) == (if k == s[idx].key.key() {
            Some(e2.val())
        } else {
            lookup_from(s, k, 0)
        }),
{
    let s2 = s.update(idx, e2);
    if k == s[idx].key.key() {
        assert(forall|j: int| 0 <= j < idx ==> s2[j].key.key() != k);
        lemma_lookup_prefix_miss(s2, k, idx);
        assert(s2[idx].key.key() == k);
    } else {
        lemma_lookup_agree_outside(s, s2, k, 0);
    }
}

proof fn lemma_lookup_agree_outside(s: Seq<StoreEntry>, s2: Seq<StoreEntry>, k: (Seq<char>, u16), i: int)
    requires
        s.len() == s2.len(),
        0 <= i <= s.len(),
        forall|j: int| #![trigger s[j]] #![trigger s2[j]]
            0 <= j < s.len() ==> ((s2[j].key.key() == k || s[j].key.key() == k) ==> s2[j] == s[j]),
    ensures
        lookup_from(s, k, i) == lookup_from(s2, k, i),
    decreases s.len() - i,
{
    if i < s.len() {
        lemma_lookup_agree_outside(s, s2, k, i + 1);
    }
}

proof fn lemma_lookup_none_of_all_miss(s: Seq<StoreEntry>, k: (Seq<char>, u16))
    requires
        forall|j: int| 0 <= j < s.len() ==> s[j].key.key() != k,
    ensures
        lookup_from(s, k, 0) is None,
{
    lemma_lookup_suffix_shift(s, k, 0, s.len() as int);
}

/// In a well-formed sequence, looking an index's own key up yields that
/// index's value.
proof fn lemma_lookup_index(s: Seq<StoreEntry>, idx: int, k: (Seq<char>, u16))
    requires
        0 <= idx < s.len(),
        s[idx].key.key() == k,
        forall|i: int, j: int|
            0 <= i < j < s.len() ==> #[trigger] s[i].key.key() != #[trigger] s[j].key.key(),
    ensures
        lookup_from(s, k, 0) == Some(s[idx].val()),
{
    assert(forall|j: int| 0 <= j < idx ==> s[j].key.key() != k);
    lemma_lookup_prefix_miss(s, k, idx);
}

/// A successful lookup names some index's key and value.
proof fn lemma_lookup_some_index(s: Seq<StoreEntry>, k: (Seq<char>, u16), i: int)
    requires
        0 <= i <= s.len(),
    ensures
        lookup_from(s, k, i) is Some ==> exists|j: int|
            i <= j < s.len() && #[trigger] s[j].key.key() == k && s[j].val() == lookup_from(
                s,
                k,
                i,
            )->0,
        lookup_from(s, k, i) is None ==> forall|j: int|
            i <= j < s.len() ==> #[trigger] s[j].key.key() != k,
    decreases s.len() - i,
{
    if i < s.len() {
        lemma_lookup_some_index(s, k, i + 1);
    }
}


/// What the periodic sweeper observed at its last suspension point.
#[derive(Debug, Clone, Copy, PartialEq, Eq, Structural)]
pub enum SweeperEvent {
    /// The sweep interval elapsed.
    Tick,
    /// Cancellation was requested.
    Cancelled,
}

/// One turn of the periodic sweeper: a tick sweeps the store at time `now`
/// with the default TTL and the loop goes on; cancellation leaves the
/// store untouched and ends the loop.
pub fn sweeper_step(store: &mut MetricStore, e: SweeperEvent, now: u64) -> (go_on: bool)
    requires
        old(store).wf(),
    ensures
        final(store).wf(),
        go_on == (e is Tick),
        e is Tick ==> forall|k: (Seq<char>, u16)| #[trigger]
            final(store).spec_lookup(k) == swept(
                old(store).spec_lookup(k),
                now,
                EVICTION_TTL_SECS,
            ),
        e is Cancelled ==> *final(store) == *old(store),
{
    match e {
        SweeperEvent::Tick => {
            store.sweep(now, EVICTION_TTL_SECS);
            true
        },
        SweeperEvent::Cancelled => false,
    }
}

/// One record operation on a single key's value, as the record contract
/// states it.
pub open spec fn key_value_after(
    ops: Seq<((Seq<char>, u16), u64)>,
    k: (Seq<char>, u16),
    start: Option<(u64, u64)>,
) -> Option<(u64, u64)>
    decreases ops.len(),
{
    if ops.len() == 0 {
        start
    } else {
        let prev = key_value_after(ops.drop_last(), k, start);
        if ops.last().0 == k {
            Some(bumped(prev, ops.last().1))
        } else {
            prev
        }
    }
}

/// How many of a sequence of record operations touch the given key.
pub open spec fn records_for(ops: Seq<((Seq<char>, u16), u64)>, k: (Seq<char>, u16)) -> nat
    decreases ops.len(),
{
    if ops.len() == 0 {
        0
    } else {
        records_for(ops.drop_last(), k) + (if ops.last().0 == k {
            1nat
        } else {
            0nat
        })
    }
}

/// Law (no lost updates): starting from an absent key, after any sequence
/// of record operations — on this key or on others — the key's count equals
/// exactly the number of operations on it, and the key exists exactly when
/// at least one such operation happened.
pub proof fn lemma_no_lost_updates(ops: Seq<((Seq<char>, u16), u64)>, k: (Seq<char>, u16))
    requires
        records_for(ops, k) <= u64::MAX,
    ensures
        records_for(ops, k) == 0 ==> key_value_after(ops, k, None) is None,
        records_for(ops, k) > 0 ==> key_value_after(ops, k, None) is Some && (key_value_after(
            ops,
            k,
            None,
        )->0).0 == records_for(ops, k),
    decreases ops.len(),
{
    if ops.len() > 0 {
        lemma_no_lost_updates(ops.drop_last(), k);
    }
}

/// Law (eviction and recreation): a key whose last activity is stale at the
/// sweep vanishes from the store, and a later record recreates it with a
/// count of exactly 1.
pub proof fn lemma_evicted_then_recreated(v: Option<(u64, u64)>, now: u64, ttl: u64, t2: u64)
    requires
        v is Some,
        !live_at((v->0).1, now, ttl),
    ensures
        swept(v, now, ttl) is None,
        bumped(swept(v, now, ttl), t2) == (1u64, t2),
{
}

} // verus!
