use vstd::prelude::*;

use crate::gc::{live_in, GcRef, Heap};
use crate::obj::{LoxString, LoxStringView};
use crate::parser::same_text;

verus! {

/// A slot of a table.
pub enum Entry<V> {
    /// Never used: a probe stops here.
    Empty,
    /// Held a key that was removed: a probe goes on past it.
    Tombstone,
    /// Holds a key, the key's hash and its value.
    Occupied { key: GcRef<LoxString>, hash: u32, value: V },
}

/// A hash table keyed by heap strings, with open addressing and linear probing.
/// The table doesn't own any of the strings used as keys: their lifetime is the
/// collector's business.
pub struct Table<V> {
    /// Number of populated entries plus tombstones
    count: usize,
    entries: Vec<Entry<V>>,
}

/// The most entries plus tombstones a table of `capacity` slots may hold: three
/// quarters of them, rounded down.
pub open spec fn max_load(capacity: nat) -> nat {
    capacity * 3 / 4
}

/// Where the probe for `hash` starts in a table of `capacity` slots.
pub open spec fn home(hash: u32, capacity: nat) -> int {
    (hash as int) % (capacity as int)
}

/// Slot `k` lies on the probe path that starts at `s` and stops just before `i`,
/// wrapping round the end of the table.
pub open spec fn on_path(s: int, i: int, k: int) -> bool {
    if s <= i {
        s <= k < i
    } else {
        s <= k || k < i
    }
}

/// The slot reached after `n` steps of a probe that starts at `s`.
pub open spec fn step_from(s: int, n: int, capacity: int) -> int {
    if s + n < capacity {
        s + n
    } else {
        s + n - capacity
    }
}

/// Entry `e` holds the key in heap slot `k`.
pub open spec fn holds<V>(e: Entry<V>, k: usize) -> bool {
    e matches Entry::Occupied { key, .. } && key.slot() == k
}

/// Some entry holds the key in heap slot `k`.
pub open spec fn has_key<V>(es: Seq<Entry<V>>, k: usize) -> bool {
    exists|i: int| 0 <= i < es.len() && #[trigger] holds(es[i], k)
}

/// The entry that holds the key in heap slot `k`.
pub open spec fn slot_of<V>(es: Seq<Entry<V>>, k: usize) -> int {
    choose|i: int| 0 <= i < es.len() && #[trigger] holds(es[i], k)
}

/// The map the entries stand for: each key to its value.
pub open spec fn entries_view<V>(es: Seq<Entry<V>>) -> Map<usize, V> {
    Map::new(|k: usize| has_key(es, k), |k: usize| es[slot_of(es, k)]->value)
}

/// Number of entries that are not empty: occupied ones and tombstones.
pub open spec fn nonempty_count<V>(es: Seq<Entry<V>>) -> nat
    decreases es.len(),
{
    if es.len() == 0 {
        0
    } else {
        nonempty_count(es.drop_last()) + if es.last() is Empty {
            0nat
        } else {
            1nat
        }
    }
}

/// No key is held by two entries.
pub open spec fn unique_keys<V>(es: Seq<Entry<V>>) -> bool {
    forall|i: int, j: int|
        0 <= i < es.len() && 0 <= j < es.len() && #[trigger] es[i] is Occupied && #[trigger] es[j] is Occupied
            && es[i]->key.slot() == es[j]->key.slot() ==> i == j
}

/// The key in entry `i` can be found: no empty entry lies on the probe path from
/// its hash's home slot to `i`.
pub open spec fn probe_ok_at<V>(es: Seq<Entry<V>>, i: int) -> bool {
    es[i] is Occupied ==> forall|k: int|
        0 <= k < es.len() && on_path(home(es[i]->hash, es.len()), i, k) ==> !(#[trigger] es[k] is Empty)
}

/// Every key can be found.
pub open spec fn probe_ok<V>(es: Seq<Entry<V>>) -> bool {
    forall|i: int| 0 <= i < es.len() ==> #[trigger] probe_ok_at(es, i)
}

/// Every key is a live object of `heap` whose hash is the one stored with it.
pub open spec fn keys_live<V>(es: Seq<Entry<V>>, heap: Seq<Option<LoxStringView>>) -> bool {
    forall|i: int|
        0 <= i < es.len() && #[trigger] es[i] is Occupied ==> live_in(heap, es[i]->key) && heap[es[i]->key.slot() as int]->Some_0.hash
            == es[i]->hash
}

/// The heap slots whose objects carry the mark.
pub open spec fn marked_slots(heap: Seq<Option<LoxStringView>>) -> Set<usize> {
    Set::new(|k: usize| k < heap.len() && heap[k as int] is Some && heap[k as int]->Some_0.marked)
}

// ---------------------------------------------------------------------------
// Probe paths

proof fn lemma_path_total(s: int, e: int, p: int)
    requires
        p != e,
        !on_path(s, e, p),
    ensures
        on_path(s, p, e),
{
}

proof fn lemma_path_trans(s: int, i: int, t: int, k: int)
    requires
        on_path(s, i, t),
        on_path(s, t, k),
    ensures
        on_path(s, i, k),
{
}

proof fn lemma_path_step(s: int, n: int, cap: int, index: int, next: int)
    requires
        0 <= s < cap,
        0 <= n,
        n + 1 < cap,
        index == step_from(s, n, cap),
        next == if index + 1 == cap {
            0
        } else {
            index + 1
        },
    ensures
        next == step_from(s, n + 1, cap),
        forall|k: int| 0 <= k < cap ==> (on_path(s, next, k) <==> (on_path(s, index, k) || k == index)),
{
}

proof fn lemma_path_full(s: int, cap: int, index: int)
    requires
        0 <= s < cap,
        index == step_from(s, cap - 1, cap),
    ensures
        forall|k: int| 0 <= k < cap && k != index ==> on_path(s, index, k),
{
}

// ---------------------------------------------------------------------------
// Counting

proof fn lemma_count_update<V>(es: Seq<Entry<V>>, i: int, x: Entry<V>)
    requires
        0 <= i < es.len(),
    ensures
        nonempty_count(es.update(i, x)) + (if es[i] is Empty {
            0nat
        } else {
            1nat
        }) == nonempty_count(es) + (if x is Empty {
            0nat
        } else {
            1nat
        }),
    decreases es.len(),
{
    let u = es.update(i, x);
    if i == es.len() - 1 {
        assert(u.drop_last() =~= es.drop_last());
    } else {
        assert(u.drop_last() =~= es.drop_last().update(i, x));
        lemma_count_update(es.drop_last(), i, x);
    }
}

proof fn lemma_count_bounds<V>(es: Seq<Entry<V>>)
    ensures
        nonempty_count(es) <= es.len(),
        nonempty_count(es) < es.len() ==> exists|e: int| 0 <= e < es.len() && #[trigger] es[e] is Empty,
        nonempty_count(es) == 0 ==> forall|e: int| 0 <= e < es.len() ==> #[trigger] es[e] is Empty,
    decreases es.len(),
{
    if es.len() > 0 {
        let d = es.drop_last();
        lemma_count_bounds(d);
        if nonempty_count(d) < d.len() {
            let e = choose|e: int| 0 <= e < d.len() && #[trigger] d[e] is Empty;
            assert(es[e] is Empty);
        }
        if es.last() is Empty {
            assert(es[es.len() - 1] is Empty);
        }
        if nonempty_count(es) == 0 {
            assert forall|e: int| 0 <= e < es.len() implies #[trigger] es[e] is Empty by {
                if e < es.len() - 1 {
                    assert(d[e] == es[e]);
                }
            }
        }
    }
}

proof fn lemma_count_push<V>(es: Seq<Entry<V>>, x: Entry<V>)
    ensures
        nonempty_count(es.push(x)) == nonempty_count(es) + if x is Empty {
            0nat
        } else {
            1nat
        },
{
    assert(es.push(x).drop_last() =~= es);
}

proof fn lemma_count_same_shape<V>(a: Seq<Entry<V>>, b: Seq<Entry<V>>)
    requires
        a.len() == b.len(),
        forall|i: int| 0 <= i < a.len() ==> (#[trigger] a[i] is Empty <==> b[i] is Empty),
    ensures
        nonempty_count(a) == nonempty_count(b),
    decreases a.len(),
{
    if a.len() > 0 {
        let (da, db) = (a.drop_last(), b.drop_last());
        assert forall|i: int| 0 <= i < da.len() implies (#[trigger] da[i] is Empty <==> db[i] is Empty) by {
            assert(a[i] is Empty <==> b[i] is Empty);
        }
        lemma_count_same_shape(da, db);
        assert(a[a.len() - 1] is Empty <==> b[b.len() - 1] is Empty);
    }
}

proof fn lemma_count_empties<V>(es: Seq<Entry<V>>)
    requires
        forall|i: int| 0 <= i < es.len() ==> #[trigger] es[i] is Empty,
    ensures
        nonempty_count(es) == 0,
    decreases es.len(),
{
    if es.len() > 0 {
        let d = es.drop_last();
        assert forall|i: int| 0 <= i < d.len() implies #[trigger] d[i] is Empty by {
            assert(es[i] is Empty);
        }
        lemma_count_empties(d);
        assert(es[es.len() - 1] is Empty);
    }
}

// ---------------------------------------------------------------------------
// The map the entries stand for

proof fn lemma_view_at<V>(es: Seq<Entry<V>>, i: int)
    requires
        unique_keys(es),
        0 <= i < es.len(),
        es[i] is Occupied,
    ensures
        entries_view(es).contains_key(es[i]->key.slot()),
        entries_view(es)[es[i]->key.slot()] == es[i]->value,
        slot_of(es, es[i]->key.slot()) == i,
{
    let k = es[i]->key.slot();
    assert(holds(es[i], k));
    let j = slot_of(es, k);
    assert(holds(es[j], k));
    assert(es[j] is Occupied);
}

proof fn lemma_view_put<V>(es: Seq<Entry<V>>, i: int, key: GcRef<LoxString>, hash: u32, value: V)
    requires
        unique_keys(es),
        0 <= i < es.len(),
        holds(es[i], key.slot()) || (!(es[i] is Occupied) && !has_key(es, key.slot())),
    ensures
        unique_keys(es.update(i, Entry::Occupied { key, hash, value })),
        entries_view(es.update(i, Entry::Occupied { key, hash, value })) =~= entries_view(es).insert(
            key.slot(),
            value,
        ),
{
    let u = es.update(i, Entry::Occupied { key, hash, value });
    let k = key.slot();
    assert forall|a: int, b: int|
        0 <= a < u.len() && 0 <= b < u.len() && #[trigger] u[a] is Occupied && #[trigger] u[b] is Occupied
            && u[a]->key.slot() == u[b]->key.slot() implies a == b by {
        if a != i && b != i {
            assert(es[a] is Occupied && es[b] is Occupied);
        } else if a == i && b != i {
            assert(es[b] is Occupied);
            assert(holds(es[b], k));
            if holds(es[i], k) {
                assert(es[i] is Occupied);
            }
        } else if a != i && b == i {
            assert(es[a] is Occupied);
            assert(holds(es[a], k));
            if holds(es[i], k) {
                assert(es[i] is Occupied);
            }
        }
    }
    assert(holds(u[i], k));
    assert forall|m: usize| #![auto] entries_view(u).contains_key(m) == entries_view(es).insert(k, value).contains_key(m) by {
        if m != k {
            if has_key(u, m) {
                let j = choose|j: int| 0 <= j < u.len() && #[trigger] holds(u[j], m);
                assert(holds(es[j], m));
            }
            if has_key(es, m) {
                let j = choose|j: int| 0 <= j < es.len() && #[trigger] holds(es[j], m);
                if j == i {
                    assert(holds(es[i], m));
                    assert(!holds(es[i], k));
                    assert(es[i] is Occupied);
                    assert(false);
                }
                assert(holds(u[j], m));
            }
        }
    }
    assert forall|m: usize| #[trigger] entries_view(u).contains_key(m) implies entries_view(u)[m]
        == entries_view(es).insert(k, value)[m] by {
        lemma_unique_slot(u, m);
        if m != k {
            let j = slot_of(u, m);
            assert(holds(u[j], m));
            assert(j != i);
            assert(holds(es[j], m));
            lemma_unique_slot(es, m);
        } else {
            assert(slot_of(u, k) == i);
        }
    }
}

proof fn lemma_unique_slot<V>(es: Seq<Entry<V>>, m: usize)
    requires
        unique_keys(es),
        has_key(es, m),
    ensures
        0 <= slot_of(es, m) < es.len(),
        holds(es[slot_of(es, m)], m),
        forall|j: int| 0 <= j < es.len() && #[trigger] holds(es[j], m) ==> j == slot_of(es, m),
{
    let s = slot_of(es, m);
    assert forall|j: int| 0 <= j < es.len() && #[trigger] holds(es[j], m) implies j == s by {
        assert(es[j] is Occupied && es[s] is Occupied);
    }
}

proof fn lemma_view_drop<V>(es: Seq<Entry<V>>, i: int)
    requires
        unique_keys(es),
        0 <= i < es.len(),
        es[i] is Occupied,
    ensures
        unique_keys(es.update(i, Entry::Tombstone)),
        entries_view(es.update(i, Entry::Tombstone)) =~= entries_view(es).remove(es[i]->key.slot()),
{
    let u = es.update(i, Entry::Tombstone);
    let k = es[i]->key.slot();
    assert(holds(es[i], k));
    assert forall|a: int, b: int|
        0 <= a < u.len() && 0 <= b < u.len() && #[trigger] u[a] is Occupied && #[trigger] u[b] is Occupied
            && u[a]->key.slot() == u[b]->key.slot() implies a == b by {
        assert(es[a] is Occupied && es[b] is Occupied);
    }
    assert forall|m: usize| #![auto] entries_view(u).contains_key(m) == entries_view(es).remove(k).contains_key(m) by {
        if has_key(u, m) {
            let j = choose|j: int| 0 <= j < u.len() && #[trigger] holds(u[j], m);
            assert(holds(es[j], m));
            if m == k {
                assert(es[j] is Occupied);
            }
        }
        if m != k && has_key(es, m) {
            let j = choose|j: int| 0 <= j < es.len() && #[trigger] holds(es[j], m);
            assert(holds(u[j], m));
        }
    }
    assert forall|m: usize| #[trigger] entries_view(u).contains_key(m) implies entries_view(u)[m]
        == entries_view(es).remove(k)[m] by {
        lemma_unique_slot(u, m);
        let j = slot_of(u, m);
        assert(holds(es[j], m));
        lemma_unique_slot(es, m);
    }
}

proof fn lemma_view_push<V>(es: Seq<Entry<V>>, x: Entry<V>)
    requires
        unique_keys(es.push(x)),
    ensures
        unique_keys(es),
        entries_view(es.push(x)) =~= (match x {
            Entry::Occupied { key, value, .. } => entries_view(es).insert(key.slot(), value),
            _ => entries_view(es),
        }),
        x is Occupied ==> !has_key(es, x->key.slot()),
{
    let p = es.push(x);
    let n = es.len() as int;
    assert forall|a: int, b: int|
        0 <= a < es.len() && 0 <= b < es.len() && #[trigger] es[a] is Occupied && #[trigger] es[b] is Occupied
            && es[a]->key.slot() == es[b]->key.slot() implies a == b by {
        assert(p[a] is Occupied && p[b] is Occupied);
    }
    if x is Occupied {
        if has_key(es, x->key.slot()) {
            let j = choose|j: int| 0 <= j < es.len() && #[trigger] holds(es[j], x->key.slot());
            assert(p[j] is Occupied && p[n] is Occupied);
        }
    }
    assert forall|m: usize| #![auto] has_key(p, m) == (has_key(es, m) || holds(x, m)) by {
        if has_key(p, m) {
            let j = choose|j: int| 0 <= j < p.len() && #[trigger] holds(p[j], m);
            if j < n {
                assert(holds(es[j], m));
            }
        }
        if has_key(es, m) {
            let j = choose|j: int| 0 <= j < es.len() && #[trigger] holds(es[j], m);
            assert(holds(p[j], m));
        }
        if holds(x, m) {
            assert(holds(p[n], m));
        }
    }
    assert forall|m: usize| #[trigger] entries_view(p).contains_key(m) implies entries_view(p)[m] == (match x {
        Entry::Occupied { key, value, .. } => entries_view(es).insert(key.slot(), value),
        _ => entries_view(es),
    })[m] by {
        lemma_unique_slot(p, m);
        let j = slot_of(p, m);
        if j < n {
            assert(holds(es[j], m));
            lemma_unique_slot(es, m);
        } else {
            assert(holds(x, m));
        }
    }
}

proof fn lemma_no_keys<V>(es: Seq<Entry<V>>)
    requires
        forall|i: int| 0 <= i < es.len() ==> !(#[trigger] es[i] is Occupied),
    ensures
        entries_view(es) =~= Map::<usize, V>::empty(),
        unique_keys(es),
{
    assert forall|m: usize| !(#[trigger] entries_view(es).contains_key(m)) by {
        if has_key(es, m) {
            let j = choose|j: int| 0 <= j < es.len() && #[trigger] holds(es[j], m);
            assert(es[j] is Occupied);
        }
    }
}

// ---------------------------------------------------------------------------

/// The slot for `key` in `entries`: the entry holding it, or else where it would
/// go, the first tombstone on its probe path or the empty entry that ends it:
/// every entry that the probe passes before it holds a key.
fn find_entry<V>(entries: &Vec<Entry<V>>, key: GcRef<LoxString>, hash: u32) -> (i: usize)
    requires
        entries@.len() > 0,
        nonempty_count(entries@) < entries@.len(),
        probe_ok(entries@),
        forall|j: int| 0 <= j < entries@.len() && #[trigger] holds(entries@[j], key.slot()) ==> entries@[j]->hash == hash,
    ensures
        i < entries@.len(),
        has_key(entries@, key.slot()) ==> holds(entries@[i as int], key.slot()),
        !has_key(entries@, key.slot()) ==> {
            &&& !(entries@[i as int] is Occupied)
            &&& forall|k: int|
                0 <= k < entries@.len() && on_path(home(hash, entries@.len()), i as int, k) ==> !(
                #[trigger] entries@[k] is Empty)
            &&& forall|k: int|
                0 <= k < entries@.len() && on_path(home(hash, entries@.len()), i as int, k) ==> (
                #[trigger] entries@[k] is Occupied)
        },
{
    let ghost es = entries@;
    let len = entries.len();
    let start = (hash as usize) % len;
    let ghost s = start as int;
    let mut index = start;
    // The first seen tombstone
    let mut tombstone: Option<usize> = None;
    let ghost mut n: int = 0;
    proof {
        lemma_count_bounds(es);
    }
    loop
        invariant
            es == entries@,
            len == es.len(),
            0 < len,
            s == home(hash, len as nat),
            0 <= s < len,
            0 <= n < len,
            index == step_from(s, n, len as int),
            forall|k: int|
                0 <= k < len && on_path(s, index as int, k) ==> !(#[trigger] es[k] is Empty) && !holds(
                    es[k],
                    key.slot(),
                ),
            tombstone matches Some(t) ==> t < len && on_path(s, index as int, t as int) && es[t as int] is Tombstone,
            tombstone matches Some(t) ==> forall|k: int|
                0 <= k < len && on_path(s, t as int, k) ==> (#[trigger] es[k] is Occupied),
            tombstone is None ==> forall|k: int|
                0 <= k < len && on_path(s, index as int, k) ==> (#[trigger] es[k] is Occupied),
            exists|e: int| 0 <= e < len && #[trigger] es[e] is Empty,
            probe_ok(es),
            forall|j: int| 0 <= j < len && #[trigger] holds(es[j], key.slot()) ==> es[j]->hash == hash,
        decreases len - n,
    {
        match &entries[index] {
            Entry::Occupied { key: k, .. } => {
                if k.same(&key) {
                    proof {
                        assert(holds(es[index as int], key.slot()));
                    }
                    // We found the key
                    return index;
                }
            },
            Entry::Empty => {
                proof {
                    if has_key(es, key.slot()) {
                        let p = choose|p: int| 0 <= p < len && #[trigger] holds(es[p], key.slot());
                        assert(probe_ok_at(es, p));
                        assert(!on_path(s, index as int, p));
                        lemma_path_total(s, index as int, p);
                        assert(false);
                    }
                    match tombstone {
                        Some(t) => {
                            assert forall|k: int|
                                0 <= k < len && on_path(s, t as int, k) implies !(#[trigger] es[k] is Empty) by {
                                lemma_path_trans(s, index as int, t as int, k);
                            }
                        },
                        None => {},
                    }
                }
                // Empty entry
                return match tombstone {
                    Some(t) => t,
                    None => index,
                };
            },
            Entry::Tombstone => {
                // We found a tombstone
                if tombstone.is_none() {
                    tombstone = Some(index);
                }
            },
        }
        proof {
            if n + 1 == len {
                lemma_path_full(s, len as int, index as int);
                let e = choose|e: int| 0 <= e < len && #[trigger] es[e] is Empty;
                assert(false);
            }
        }
        // Collision: linear probe
        let next = if index + 1 == len {
            0
        } else {
            index + 1
        };
        proof {
            lemma_path_step(s, n, len as int, index as int, next as int);
            if let Some(t) = tombstone {
                assert(on_path(s, next as int, t as int));
            }
            n = n + 1;
        }
        index = next;
    }
}

impl<V> View for Table<V> {
    type V = Map<usize, V>;

    closed spec fn view(&self) -> Map<usize, V> {
        entries_view(self.entries@)
    }
}

impl<V: Copy> Table<V> {
    /// The number of slots.
    pub closed spec fn capacity(&self) -> nat {
        self.entries@.len()
    }

    /// Entries plus tombstones.
    pub closed spec fn load(&self) -> nat {
        self.count as nat
    }

    /// A bound on the slots the table may come to need: the capacity is never more,
    /// and one insertion raises the bound by at most three.
    pub open spec fn growth_bound(&self) -> nat {
        let a = if self.capacity() > 8 {
            self.capacity()
        } else {
            8
        };
        if a > 3 * (self.load() + 1) {
            a
        } else {
            3 * (self.load() + 1)
        }
    }

    /// The table's invariant: counts and load are right, no key is held twice, and
    /// every key can be found from its hash.
    pub closed spec fn wf(&self) -> bool {
        let es = self.entries@;
        &&& es.len() == 0 || es.len() >= 8
        &&& self.count == nonempty_count(es)
        &&& self.count <= max_load(es.len())
        &&& unique_keys(es)
        &&& probe_ok(es)
    }

    /// Every key is a live object of `heap` whose hash the table has recorded.
    pub closed spec fn keys_in(&self, heap: Seq<Option<LoxStringView>>) -> bool {
        keys_live(self.entries@, heap)
    }

    /// The keys of a well-formed table that are in `heap` are live there.
    pub proof fn lemma_keys_live(&self, heap: Seq<Option<LoxStringView>>)
        requires
            self.wf(),
            self.keys_in(heap),
        ensures
            forall|k: usize| #[trigger] self@.contains_key(k) ==> k < heap.len() && heap[k as int] is Some,
    {
        assert forall|k: usize| #[trigger] self@.contains_key(k) implies k < heap.len() && heap[k as int] is Some by {
            let j = slot_of(self.entries@, k);
            assert(holds(self.entries@[j], k));
            assert(self.entries@[j] is Occupied);
        }
    }

    /// The keys stay valid in another heap that keeps each key's object and hash.
    pub proof fn lemma_keys_in_stable(&self, h1: Seq<Option<LoxStringView>>, h2: Seq<Option<LoxStringView>>)
        requires
            self.wf(),
            self.keys_in(h1),
            forall|k: usize|
                #[trigger] self@.contains_key(k) ==> k < h2.len() && h2[k as int] is Some
                    && h2[k as int]->Some_0.hash == h1[k as int]->Some_0.hash,
        ensures
            self.keys_in(h2),
    {
        let es = self.entries@;
        assert forall|i: int| 0 <= i < es.len() && #[trigger] es[i] is Occupied implies live_in(h2, es[i]->key)
            && h2[es[i]->key.slot() as int]->Some_0.hash == es[i]->hash by {
            lemma_view_at(es, i);
            assert(self@.contains_key(es[i]->key.slot()));
            assert(live_in(h1, es[i]->key));
        }
    }

    /// An empty table.
    pub fn new() -> (t: Self)
        ensures
            t.wf(),
            t@ == Map::<usize, V>::empty(),
            t.capacity() == 0,
            t.load() == 0,
            forall|heap: Seq<Option<LoxStringView>>| t.keys_in(heap),
    {
        let t = Self { count: 0, entries: Vec::new() };
        proof {
            lemma_no_keys(t.entries@);
        }
        t
    }

    /// The keys and values of the table, in the order of its slots.
    pub fn pairs(&self) -> (ps: Vec<(GcRef<LoxString>, V)>)
        requires
            self.wf(),
        ensures
            forall|j: int|
                0 <= j < ps@.len() ==> self@.contains_key((#[trigger] ps@[j]).0.slot()) && self@[ps@[j].0.slot()]
                    == ps@[j].1,
            forall|k: usize| #[trigger] self@.contains_key(k) ==> exists|j: int| 0 <= j < ps@.len() && (#[trigger] ps@[j]).0.slot() == k,
    {
        let ghost es = self.entries@;
        let mut ps: Vec<(GcRef<LoxString>, V)> = Vec::new();
        let mut i: usize = 0;
        while i < self.entries.len()
            invariant
                es == self.entries@,
                self.wf(),
                i <= es.len(),
                forall|j: int|
                    0 <= j < ps@.len() ==> self@.contains_key((#[trigger] ps@[j]).0.slot()) && self@[ps@[j].0.slot()]
                        == ps@[j].1,
                forall|m: int|
                    0 <= m < i && #[trigger] es[m] is Occupied ==> exists|j: int|
                        0 <= j < ps@.len() && (#[trigger] ps@[j]).0.slot() == es[m]->key.slot(),
            decreases es.len() - i,
        {
            match &self.entries[i] {
                Entry::Occupied { key, value, .. } => {
                    proof {
                        lemma_view_at(es, i as int);
                    }
                    let ghost old_ps = ps@;
                    ps.push((*key, *value));
                    proof {
                        assert(ps@[ps@.len() - 1].0.slot() == es[i as int]->key.slot());
                        assert forall|m: int| 0 <= m < i + 1 && #[trigger] es[m] is Occupied implies exists|j: int|
                            0 <= j < ps@.len() && (#[trigger] ps@[j]).0.slot() == es[m]->key.slot() by {
                            if m < i {
                                let j = choose|j: int| 0 <= j < old_ps.len() && (#[trigger] old_ps[j]).0.slot() == es[m]->key.slot();
                                assert(ps@[j] == old_ps[j]);
                            } else {
                                assert(ps@[ps@.len() - 1].0.slot() == es[m]->key.slot());
                            }
                        }
                    }
                },
                _ => {},
            }
            i += 1;
        }
        proof {
            assert forall|k: usize| #[trigger] self@.contains_key(k) implies exists|j: int| 0 <= j < ps@.len() && (#[trigger] ps@[j]).0.slot() == k by {
                let m = slot_of(es, k);
                assert(holds(es[m], k));
                assert(es[m] is Occupied);
            }
        }
        ps
    }

    /// Whether the table can still double its capacity.
    pub fn capacity_fits(&self) -> (b: bool)
        ensures
            b == (self.capacity() * 2 <= usize::MAX),
    {
        self.entries.len() <= usize::MAX / 2
    }

    /// Entries and tombstones fill at most three quarters of the slots, so a
    /// probe always meets an empty slot.
    pub proof fn load_stays_below_capacity(&self)
        requires
            self.wf(),
        ensures
            self.load() <= max_load(self.capacity()),
            self.capacity() > 0 ==> self.load() < self.capacity(),
    {
    }

    /// Whether `k` more insertions leave the bound on the slots the table may come
    /// to need within half the address space.
    pub fn room_to_grow_by(&self, k: usize) -> (b: bool)
        ensures
            b == (self.growth_bound() + 3 * k <= usize::MAX / 2),
    {
        let cap = self.entries.len() as u128;
        let a: u128 = if cap > 8 {
            cap
        } else {
            8
        };
        let c: u128 = 3 * (self.count as u128 + 1);
        let bound: u128 = if a > c {
            a
        } else {
            c
        };
        bound + 3 * (k as u128) <= (usize::MAX / 2) as u128
    }

    /// Whether one more insertion leaves the bound on the slots the table may
    /// come to need within half the address space.
    pub fn room_to_grow(&self) -> (b: bool)
        ensures
            b == (self.growth_bound() + 3 <= usize::MAX / 2),
    {
        let cap = self.entries.len();
        let a = if cap > 8 {
            cap
        } else {
            8
        };
        let m = usize::MAX / 2;
        a <= m - 3 && self.count <= (m - 6) / 3
    }

    /// Floor of three quarters of the capacity, without overflow.
    fn load_limit(&self) -> (n: usize)
        ensures
            n == max_load(self.entries@.len()),
    {
        let cap = self.entries.len();
        cap / 4 * 3 + cap % 4 * 3 / 4
    }

    /// Sets `value` for `key`; true when the key was not in the table before.
    pub fn insert(&mut self, key: GcRef<LoxString>, value: V, heap: &Heap) -> (is_new_key: bool)
        requires
            old(self).wf(),
            old(self).keys_in(heap@),
            live_in(heap@, key),
            old(self).capacity() * 2 <= usize::MAX,
        ensures
            final(self).wf(),
            final(self).keys_in(heap@),
            final(self)@ == old(self)@.insert(key.slot(), value),
            is_new_key == !old(self)@.contains_key(key.slot()),
            final(self).growth_bound() <= old(self).growth_bound() + 3,
    {
        let ghost old_cap = self.entries@.len();
        let ghost old_count = self.count;
        if self.count + 1 > self.load_limit() {
            self.grow(Ghost(heap@));
        }
        let hash = heap.get(key).hash();
        let ghost es = self.entries@;
        proof {
            lemma_count_bounds(es);
            assert forall|j: int| 0 <= j < es.len() && #[trigger] holds(es[j], key.slot()) implies es[j]->hash
                == hash by {
                assert(es[j] is Occupied);
            }
        }
        let i = find_entry(&self.entries, key, hash);
        let is_new_key = match &self.entries[i] {
            Entry::Occupied { .. } => false,
            _ => true,
        };
        let was_empty = match &self.entries[i] {
            Entry::Empty => true,
            _ => false,
        };
        if is_new_key && was_empty {
            self.count += 1;
        }
        self.entries.set(i, Entry::Occupied { key, hash, value });
        proof {
            assert(self.count <= old_count + 1);
            if self.entries@.len() != old_cap {
                assert(old_count + 1 > max_load(old_cap));
                let c = old_count as int;
                let cap = old_cap as int;
                assert(cap * 3 / 4 < c + 1);
                assert(cap * 3 < 4 * c + 4);
                assert(self.entries@.len() <= 8 || self.entries@.len() <= 3 * (c + 2));
            }
            let u = self.entries@;
            let x = Entry::Occupied { key, hash, value };
            assert(u == es.update(i as int, x));
            lemma_count_update(es, i as int, x);
            lemma_view_put(es, i as int, key, hash, value);
            if has_key(es, key.slot()) {
                lemma_view_at(es, i as int);
            }
            assert(probe_ok(u)) by {
                assert forall|a: int| 0 <= a < u.len() implies #[trigger] probe_ok_at(u, a) by {
                    if a == i {
                        if has_key(es, key.slot()) {
                            assert(probe_ok_at(es, a));
                        }
                        assert forall|k: int|
                            0 <= k < u.len() && on_path(home(u[a]->hash, u.len()), a, k) implies !(
                            #[trigger] u[k] is Empty) by {
                            if has_key(es, key.slot()) {
                                assert(es[a]->hash == hash);
                            }
                            assert(!(es[k] is Empty));
                        }
                    } else {
                        assert(probe_ok_at(es, a));
                        assert forall|k: int|
                            0 <= k < u.len() && u[a] is Occupied && on_path(home(u[a]->hash, u.len()), a, k) implies !(
                            #[trigger] u[k] is Empty) by {
                            assert(!(es[k] is Empty));
                        }
                    }
                }
            }
            assert(keys_live(u, heap@)) by {
                assert forall|a: int| 0 <= a < u.len() && #[trigger] u[a] is Occupied implies live_in(heap@, u[a]->key)
                    && heap@[u[a]->key.slot() as int]->Some_0.hash == u[a]->hash by {
                    if a != i {
                        assert(es[a] is Occupied);
                    }
                }
            }
        }
        is_new_key
    }

    /// Doubles the capacity (to at least eight slots) and rehashes every key,
    /// dropping the tombstones.
    fn grow(&mut self, Ghost(heap): Ghost<Seq<Option<LoxStringView>>>)
        requires
            old(self).wf(),
            old(self).keys_in(heap),
            old(self).capacity() * 2 <= usize::MAX,
        ensures
            final(self).wf(),
            final(self).keys_in(heap),
            final(self)@ == old(self)@,
            final(self).entries@.len() == if old(self).entries@.len() * 2 > 8 {
                old(self).entries@.len() * 2
            } else {
                8
            },
            final(self).count <= old(self).entries@.len(),
            final(self).count <= old(self).count,
    {
        // Double the capacity
        let old_len = self.entries.len();
        let new_capacity = if old_len * 2 > 8 {
            old_len * 2
        } else {
            8
        };
        let mut new: Vec<Entry<V>> = Vec::new();
        while new.len() < new_capacity
            invariant
                new.len() <= new_capacity,
                forall|i: int| 0 <= i < new.len() ==> #[trigger] new@[i] is Empty,
            decreases new_capacity - new.len(),
        {
            new.push(Entry::Empty);
        }
        let ghost olds = self.entries@;
        proof {
            lemma_count_empties(new@);
            lemma_no_keys(new@);
            assert(olds.take(0) =~= Seq::<Entry<V>>::empty());
            lemma_no_keys(olds.take(0));
            assert forall|i: int| 0 <= i < new@.len() implies #[trigger] probe_ok_at(new@, i) by {}
        }
        let mut count: usize = 0;
        let mut j: usize = 0;
        while j < self.entries.len()
            invariant
                olds == self.entries@,
                old_len == olds.len(),
                unique_keys(olds),
                keys_live(olds, heap),
                new@.len() == new_capacity,
                new_capacity >= 8,
                new_capacity >= 2 * old_len,
                j <= old_len,
                count <= j,
                count <= nonempty_count(olds.take(j as int)),
                count == nonempty_count(new@),
                forall|i: int| 0 <= i < new@.len() ==> !(#[trigger] new@[i] is Tombstone),
                unique_keys(new@),
                probe_ok(new@),
                keys_live(new@, heap),
                entries_view(new@) == entries_view(olds.take(j as int)),
            decreases old_len - j,
        {
            match &self.entries[j] {
                Entry::Occupied { key, hash, value } => {
                    let ghost ns = new@;
                    proof {
                        assert(olds.take(j + 1) == olds.take(j as int).push(olds[j as int]));
                        assert(unique_keys(olds.take(j + 1))) by {
                            let t = olds.take(j + 1);
                            assert forall|a: int, b: int|
                                0 <= a < t.len() && 0 <= b < t.len() && #[trigger] t[a] is Occupied
                                    && #[trigger] t[b] is Occupied && t[a]->key.slot() == t[b]->key.slot() implies a
                                    == b by {
                                assert(olds[a] is Occupied && olds[b] is Occupied);
                            }
                        }
                        lemma_view_push(olds.take(j as int), olds[j as int]);
                        lemma_count_push(olds.take(j as int), olds[j as int]);
                        assert(!has_key(ns, key.slot())) by {
                            if has_key(ns, key.slot()) {
                                let p = choose|p: int| 0 <= p < ns.len() && #[trigger] holds(ns[p], key.slot());
                                lemma_view_at(ns, p);
                                assert(entries_view(olds.take(j as int)).contains_key(key.slot()));
                            }
                        }
                        lemma_count_bounds(ns);
                    }
                    let d = find_entry(&new, *key, *hash);
                    let x = Entry::Occupied { key: *key, hash: *hash, value: *value };
                    new.set(d, x);
                    count += 1;
                    proof {
                        let u = new@;
                        assert(u == ns.update(d as int, x));
                        assert(!(ns[d as int] is Tombstone));
                        assert forall|i: int| 0 <= i < u.len() implies !(#[trigger] u[i] is Tombstone) by {
                            if i != d {
                                assert(!(ns[i] is Tombstone));
                            }
                        }
                        lemma_count_update(ns, d as int, x);
                        lemma_view_put(ns, d as int, *key, *hash, *value);
                        assert(probe_ok(u)) by {
                            assert forall|a: int| 0 <= a < u.len() implies #[trigger] probe_ok_at(u, a) by {
                                if a == d {
                                    assert forall|k: int|
                                        0 <= k < u.len() && on_path(home(u[a]->hash, u.len()), a, k) implies !(
                                        #[trigger] u[k] is Empty) by {
                                        assert(!(ns[k] is Empty));
                                    }
                                } else {
                                    assert(probe_ok_at(ns, a));
                                    assert forall|k: int|
                                        0 <= k < u.len() && u[a] is Occupied && on_path(home(u[a]->hash, u.len()), a, k)
                                            implies !(#[trigger] u[k] is Empty) by {
                                        assert(!(ns[k] is Empty));
                                    }
                                }
                            }
                        }
                        assert(keys_live(u, heap)) by {
                            assert forall|a: int| 0 <= a < u.len() && #[trigger] u[a] is Occupied implies live_in(
                                heap,
                                u[a]->key,
                            ) && heap[u[a]->key.slot() as int]->Some_0.hash == u[a]->hash by {
                                if a != d {
                                    assert(ns[a] is Occupied);
                                } else {
                                    assert(olds[j as int] is Occupied);
                                }
                            }
                        }
                    }
                },
                _ => {
                    proof {
                        assert(olds.take(j + 1) == olds.take(j as int).push(olds[j as int]));
                        assert(unique_keys(olds.take(j + 1))) by {
                            let t = olds.take(j + 1);
                            assert forall|a: int, b: int|
                                0 <= a < t.len() && 0 <= b < t.len() && #[trigger] t[a] is Occupied
                                    && #[trigger] t[b] is Occupied && t[a]->key.slot() == t[b]->key.slot() implies a
                                    == b by {
                                assert(olds[a] is Occupied && olds[b] is Occupied);
                            }
                        }
                        lemma_view_push(olds.take(j as int), olds[j as int]);
                        lemma_count_push(olds.take(j as int), olds[j as int]);
                    }
                },
            }
            j += 1;
        }
        proof {
            assert(olds.take(old_len as int) =~= olds);
        }
        self.count = count;
        self.entries = new;
    }

    /// The value for `key`, if the table holds it.
    pub fn get(&self, key: GcRef<LoxString>, heap: &Heap) -> (r: Option<V>)
        requires
            self.wf(),
            self.keys_in(heap@),
            live_in(heap@, key),
        ensures
            r == (if self@.contains_key(key.slot()) {
                Some(self@[key.slot()])
            } else {
                None
            }),
    {
        let ghost es = self.entries@;
        if self.count == 0 {
            proof {
                lemma_count_bounds(es);
                if has_key(es, key.slot()) {
                    let p = choose|p: int| 0 <= p < es.len() && #[trigger] holds(es[p], key.slot());
                    assert(es[p] is Empty);
                }
            }
            return None;
        }
        let hash = heap.get(key).hash();
        proof {
            lemma_count_bounds(es);
            assert forall|j: int| 0 <= j < es.len() && #[trigger] holds(es[j], key.slot()) implies es[j]->hash
                == hash by {
                assert(es[j] is Occupied);
            }
        }
        let i = find_entry(&self.entries, key, hash);
        match &self.entries[i] {
            Entry::Occupied { value, .. } => {
                proof {
                    lemma_view_at(es, i as int);
                }
                Some(*value)
            },
            _ => None,
        }
    }

    /// Removes `key`, leaving a tombstone in its place; true when the key was there.
    pub fn remove(&mut self, key: GcRef<LoxString>, heap: &Heap) -> (removed: bool)
        requires
            old(self).wf(),
            old(self).keys_in(heap@),
            live_in(heap@, key),
        ensures
            final(self).wf(),
            final(self).keys_in(heap@),
            final(self)@ == old(self)@.remove(key.slot()),
            removed == old(self)@.contains_key(key.slot()),
            final(self).capacity() == old(self).capacity(),
            final(self).load() == old(self).load(),
    {
        let ghost es = self.entries@;
        if self.count == 0 {
            proof {
                lemma_count_bounds(es);
                if has_key(es, key.slot()) {
                    let p = choose|p: int| 0 <= p < es.len() && #[trigger] holds(es[p], key.slot());
                    assert(es[p] is Empty);
                }
                assert(entries_view(es).remove(key.slot()) =~= entries_view(es));
            }
            return false;
        }
        let hash = heap.get(key).hash();
        proof {
            lemma_count_bounds(es);
            assert forall|j: int| 0 <= j < es.len() && #[trigger] holds(es[j], key.slot()) implies es[j]->hash
                == hash by {
                assert(es[j] is Occupied);
            }
        }
        let i = find_entry(&self.entries, key, hash);
        let present = match &self.entries[i] {
            Entry::Occupied { .. } => true,
            _ => false,
        };
        if !present {
            proof {
                assert(entries_view(es).remove(key.slot()) =~= entries_view(es));
            }
            return false;
        }
        // Place a tombstone in the entry
        self.entries.set(i, Entry::Tombstone);
        proof {
            let u = self.entries@;
            lemma_count_update(es, i as int, Entry::Tombstone);
            lemma_view_drop(es, i as int);
            lemma_view_at(es, i as int);
            assert(probe_ok(u)) by {
                assert forall|a: int| 0 <= a < u.len() implies #[trigger] probe_ok_at(u, a) by {
                    assert(probe_ok_at(es, a));
                    assert forall|k: int|
                        0 <= k < u.len() && u[a] is Occupied && on_path(home(u[a]->hash, u.len()), a, k) implies !(
                        #[trigger] u[k] is Empty) by {
                        assert(!(es[k] is Empty));
                    }
                }
            }
            assert(keys_live(u, heap@)) by {
                assert forall|a: int| 0 <= a < u.len() && #[trigger] u[a] is Occupied implies live_in(heap@, u[a]->key)
                    && heap@[u[a]->key.slot() as int]->Some_0.hash == u[a]->hash by {
                    assert(es[a] is Occupied);
                }
            }
        }
        true
    }

    /// A key of the table whose text is `string` and whose hash is `hash`, if any.
    pub fn find_string(&self, string: &str, hash: u32, heap: &Heap) -> (r: Option<GcRef<LoxString>>)
        requires
            self.wf(),
            self.keys_in(heap@),
        ensures
            match r {
                Some(k) => {
                    &&& self@.contains_key(k.slot())
                    &&& live_in(heap@, k)
                    &&& heap@[k.slot() as int]->Some_0.chars == string@
                    &&& heap@[k.slot() as int]->Some_0.hash == hash
                },
                None => forall|k: usize|
                    #[trigger] self@.contains_key(k) ==> !(heap@[k as int]->Some_0.chars == string@
                        && heap@[k as int]->Some_0.hash == hash),
            },
    {
        let ghost es = self.entries@;
        let ghost h = heap@;
        if self.count == 0 {
            proof {
                lemma_count_bounds(es);
                assert forall|k: usize| #[trigger] self@.contains_key(k) implies false by {
                    let p = choose|p: int| 0 <= p < es.len() && #[trigger] holds(es[p], k);
                    assert(es[p] is Empty);
                }
            }
            return None;
        }
        let len = self.entries.len();
        let start = (hash as usize) % len;
        let ghost s = start as int;
        let mut index = start;
        let ghost mut n: int = 0;
        proof {
            lemma_count_bounds(es);
        }
        loop
            invariant
                es == self.entries@,
                h == heap@,
                keys_live(es, h),
                unique_keys(es),
                len == es.len(),
                0 < len,
                s == home(hash, len as nat),
                0 <= s < len,
                0 <= n < len,
                index == step_from(s, n, len as int),
                forall|k: int|
                    0 <= k < len && on_path(s, index as int, k) ==> !(#[trigger] es[k] is Empty) && !(es[k] is Occupied
                        && h[es[k]->key.slot() as int]->Some_0.chars == string@ && es[k]->hash == hash),
                exists|e: int| 0 <= e < len && #[trigger] es[e] is Empty,
                probe_ok(es),
            decreases len - n,
        {
            match &self.entries[index] {
                Entry::Occupied { key, .. } => {
                    let obj = heap.get(*key);
                    if obj.hash() == hash && same_text(obj.as_str(), string) {
                        proof {
                            vstd::utf8::encode_utf8_decode_utf8(obj@.chars);
                            vstd::utf8::encode_utf8_decode_utf8(string@);
                            lemma_view_at(es, index as int);
                        }
                        // We found it
                        return Some(*key);
                    }
                    proof {
                        if h[key.slot() as int]->Some_0.chars == string@ {
                            assert(obj@.chars == string@);
                        }
                    }
                },
                Entry::Empty => {
                    proof {
                        assert forall|k: usize| #[trigger] self@.contains_key(k) implies !(h[k as int]->Some_0.chars
                            == string@ && h[k as int]->Some_0.hash == hash) by {
                            if h[k as int]->Some_0.chars == string@ && h[k as int]->Some_0.hash == hash {
                                let p = slot_of(es, k);
                                assert(holds(es[p], k));
                                assert(es[p] is Occupied);
                                assert(probe_ok_at(es, p));
                                assert(!on_path(s, index as int, p));
                                lemma_path_total(s, index as int, p);
                                assert(false);
                            }
                        }
                    }
                    // Stop if we find an empty non-tombstone entry
                    return None;
                },
                Entry::Tombstone => {},
            }
            proof {
                if n + 1 == len {
                    lemma_path_full(s, len as int, index as int);
                    let e = choose|e: int| 0 <= e < len && #[trigger] es[e] is Empty;
                    assert(false);
                }
            }
            let next = if index + 1 == len {
                0
            } else {
                index + 1
            };
            proof {
                lemma_path_step(s, n, len as int, index as int, next as int);
                n = n + 1;
            }
            index = next;
        }
    }

    /// Removes every key whose object is not marked in `heap`.
    pub fn remove_white(&mut self, heap: &Heap)
        requires
            old(self).wf(),
            old(self).keys_in(heap@),
        ensures
            final(self).wf(),
            final(self).keys_in(heap@),
            final(self)@ == old(self)@.restrict(marked_slots(heap@)),
            final(self).capacity() == old(self).capacity(),
            final(self).load() == old(self).load(),
    {
        let ghost es = self.entries@;
        let ghost h = heap@;
        let mut i: usize = 0;
        while i < self.entries.len()
            invariant
                h == heap@,
                keys_live(es, h),
                self.count == nonempty_count(es),
                self.count <= max_load(es.len()),
                es.len() == 0 || es.len() >= 8,
                unique_keys(es),
                probe_ok(es),
                self.entries@.len() == es.len(),
                i <= es.len(),
                forall|k: int|
                    0 <= k < i ==> #[trigger] self.entries@[k] == if es[k] is Occupied && !h[es[k]->key.slot() as int]->Some_0.marked {
                        Entry::Tombstone
                    } else {
                        es[k]
                    },
                forall|k: int| i <= k < es.len() ==> #[trigger] self.entries@[k] == es[k],
            decreases es.len() - i,
        {
            let white = match &self.entries[i] {
                Entry::Occupied { key, .. } => {
                    proof {
                        assert(es[i as int] is Occupied);
                    }
                    !heap.get(*key).is_marked()
                },
                _ => false,
            };
            if white {
                self.entries.set(i, Entry::Tombstone);
            }
            i += 1;
        }
        proof {
            let u = self.entries@;
            let m = marked_slots(h);
            assert forall|k: int| 0 <= k < u.len() implies (#[trigger] u[k] is Empty <==> es[k] is Empty) by {}
            lemma_count_same_shape(u, es);
            assert(unique_keys(u)) by {
                assert forall|a: int, b: int|
                    0 <= a < u.len() && 0 <= b < u.len() && #[trigger] u[a] is Occupied && #[trigger] u[b] is Occupied
                        && u[a]->key.slot() == u[b]->key.slot() implies a == b by {
                    assert(es[a] is Occupied && es[b] is Occupied);
                }
            }
            assert(probe_ok(u)) by {
                assert forall|a: int| 0 <= a < u.len() implies #[trigger] probe_ok_at(u, a) by {
                    assert(probe_ok_at(es, a));
                    if u[a] is Occupied {
                        assert(es[a] is Occupied);
                        assert forall|k: int|
                            0 <= k < u.len() && on_path(home(u[a]->hash, u.len()), a, k) implies !(
                            #[trigger] u[k] is Empty) by {
                            assert(!(es[k] is Empty));
                        }
                    }
                }
            }
            assert(keys_live(u, h)) by {
                assert forall|a: int| 0 <= a < u.len() && #[trigger] u[a] is Occupied implies live_in(h, u[a]->key)
                    && h[u[a]->key.slot() as int]->Some_0.hash == u[a]->hash by {
                    assert(es[a] is Occupied);
                }
            }
            // holding in `u` is holding in `es` a marked key
            assert forall|a: int, k: usize| 0 <= a < u.len() implies (#[trigger] holds(u[a], k) <==> (holds(es[a], k)
                && m.contains(k))) by {
                if es[a] is Occupied {
                    assert(live_in(h, es[a]->key));
                }
            }
            assert forall|k: usize| #![auto] entries_view(u).contains_key(k) == entries_view(es).restrict(m).contains_key(k) by {
                if has_key(u, k) {
                    let j = choose|j: int| 0 <= j < u.len() && #[trigger] holds(u[j], k);
                    assert(holds(es[j], k));
                }
                if has_key(es, k) && m.contains(k) {
                    let j = choose|j: int| 0 <= j < es.len() && #[trigger] holds(es[j], k);
                    assert(holds(u[j], k));
                }
            }
            assert forall|k: usize| #[trigger] entries_view(u).contains_key(k) implies entries_view(u)[k]
                == entries_view(es).restrict(m)[k] by {
                lemma_unique_slot(u, k);
                let j = slot_of(u, k);
                assert(holds(es[j], k));
                lemma_unique_slot(es, k);
            }
            assert(entries_view(u) =~= entries_view(es).restrict(m));
        }
    }
}

/// A read after a write: once `key` is set to `value`, the table holds `value`
/// for it, and every other key keeps what it had.
pub proof fn get_after_insert<V>(table: Map<usize, V>, key: usize, value: V, other: usize)
    requires
        other != key,
    ensures
        table.insert(key, value).contains_key(key),
        table.insert(key, value)[key] == value,
        table.insert(key, value).contains_key(other) == table.contains_key(other),
        table.contains_key(other) ==> table.insert(key, value)[other] == table[other],
{
}

/// A removed key is gone, and every other key keeps what it had.
pub proof fn get_after_remove<V>(table: Map<usize, V>, key: usize, other: usize)
    requires
        other != key,
    ensures
        !table.remove(key).contains_key(key),
        table.remove(key).contains_key(other) == table.contains_key(other),
        table.contains_key(other) ==> table.remove(key)[other] == table[other],
{
}

/// Inserting a key that a remove took out brings back the map with the new value:
/// the tombstone left behind does not hide the key.
pub proof fn insert_after_remove<V>(table: Map<usize, V>, key: usize, value: V)
    ensures
        table.remove(key).insert(key, value) == table.insert(key, value),
{
    assert(table.remove(key).insert(key, value) =~= table.insert(key, value));
}

} // verus!
