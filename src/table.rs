use vstd::prelude::*;

verus! {

/// One cell of the table's array.
pub enum Slot<V> {
    /// Never held an entry since the array was allocated: a probe stops here.
    Empty,
    /// Held an entry that was removed: a probe goes on past it.
    Deleted,
    /// Holds the entry of a key.
    Taken(usize, V),
}

impl<V> Slot<V> {
    pub open spec fn is_taken(&self) -> bool {
        self is Taken
    }

    pub open spec fn holds_key(&self, k: usize) -> bool {
        match self {
            Slot::Taken(key, _) => *key == k,
            _ => false,
        }
    }

    pub open spec fn spec_key(&self) -> usize
        recommends
            self is Taken,
    {
        match self {
            Slot::Taken(key, _) => *key,
            _ => 0,
        }
    }

    pub open spec fn spec_value(&self) -> V
        recommends
            self is Taken,
    {
        match self {
            Slot::Taken(_, v) => *v,
            _ => arbitrary(),
        }
    }
}

/// `n` is a power of two.
pub open spec fn is_pow2(n: nat) -> bool
    decreases n,
{
    if n == 1 {
        true
    } else if n < 2 || n % 2 != 0 {
        false
    } else {
        is_pow2(n / 2)
    }
}

/// `r` is the smallest power of two that is at least `n`.
pub open spec fn is_next_pow2(r: nat, n: nat) -> bool {
    &&& is_pow2(r)
    &&& n <= r
    &&& (r == 1 || r / 2 < n)
}

/// Index reached after `s` steps of a linear probe that starts at `h`.
pub open spec fn wrap(h: int, s: int, cap: int) -> int {
    if h + s < cap {
        h + s
    } else {
        h + s - cap
    }
}

/// Number of steps from `h` forward, with wraparound, to `i`.
pub open spec fn dist(h: int, i: int, cap: int) -> int {
    if i >= h {
        i - h
    } else {
        i + cap - h
    }
}

/// Number of occupied slots.
pub open spec fn count_taken<V>(s: Seq<Slot<V>>) -> nat
    decreases s.len(),
{
    if s.len() == 0 {
        0
    } else {
        count_taken(s.drop_last()) + if s.last().is_taken() {
            1nat
        } else {
            0nat
        }
    }
}

/// Number of tombstones.
pub open spec fn count_deleted<V>(s: Seq<Slot<V>>) -> nat
    decreases s.len(),
{
    if s.len() == 0 {
        0
    } else {
        count_deleted(s.drop_last()) + if s.last() is Deleted {
            1nat
        } else {
            0nat
        }
    }
}

/// No key occupies two slots.
pub open spec fn unique_keys<V>(s: Seq<Slot<V>>) -> bool {
    forall|i: int, j: int|
        0 <= i < s.len() && 0 <= j < s.len() && (#[trigger] s[i]).is_taken() && (#[trigger] s[j]).is_taken()
            && s[i].spec_key() == s[j].spec_key() ==> i == j
}

/// Every occupied slot is reached from its key's ideal index without
/// crossing an empty slot.
pub open spec fn chains_intact<V>(s: Seq<Slot<V>>) -> bool {
    forall|i: int, t: int|
        0 <= i < s.len() && (#[trigger] s[i]).is_taken() && 0 <= t < dist(
            (s[i].spec_key() as int) % (s.len() as int),
            i,
            s.len() as int,
        ) ==> !(#[trigger] s[wrap((s[i].spec_key() as int) % (s.len() as int), t, s.len() as int)] is Empty)
}

/// The entries that the slots hold.
pub open spec fn slots_view<V>(s: Seq<Slot<V>>) -> Map<usize, V> {
    Map::new(
        |k: usize| exists|i: int| 0 <= i < s.len() && (#[trigger] s[i]).holds_key(k),
        |k: usize| s[choose|i: int| 0 <= i < s.len() && (#[trigger] s[i]).holds_key(k)].spec_value(),
    )
}

/// Of every index: a probe from `h` reaches `i` after `dist(h, i)` steps.
proof fn lemma_wrap_dist(h: int, i: int, cap: int)
    requires
        0 <= h < cap,
        0 <= i < cap,
    ensures
        0 <= dist(h, i, cap) < cap,
        wrap(h, dist(h, i, cap), cap) == i,
{
}

proof fn lemma_count_bounds<V>(s: Seq<Slot<V>>)
    ensures
        count_taken(s) <= s.len(),
        count_taken(s) + count_deleted(s) <= s.len(),
        (forall|i: int| 0 <= i < s.len() ==> (#[trigger] s[i]).is_taken()) ==> count_taken(s) == s.len(),
    decreases s.len(),
{
    if s.len() > 0 {
        lemma_count_bounds(s.drop_last());
        if forall|i: int| 0 <= i < s.len() ==> (#[trigger] s[i]).is_taken() {
            assert forall|i: int| 0 <= i < s.drop_last().len() implies (#[trigger] s.drop_last()[i]).is_taken() by {
                assert(s[i].is_taken());
            }
            assert(s[s.len() - 1].is_taken());
        }
    }
}

proof fn lemma_count_update<V>(s: Seq<Slot<V>>, j: int, x: Slot<V>)
    requires
        0 <= j < s.len(),
    ensures
        count_taken(s.update(j, x)) + (if s[j].is_taken() { 1nat } else { 0nat })
            == count_taken(s) + (if x.is_taken() { 1nat } else { 0nat }),
        count_deleted(s.update(j, x)) + (if s[j] is Deleted { 1nat } else { 0nat })
            == count_deleted(s) + (if x is Deleted { 1nat } else { 0nat }),
    decreases s.len(),
{
    let u = s.update(j, x);
    if j == s.len() - 1 {
        assert(u.drop_last() =~= s.drop_last());
    } else {
        lemma_count_update(s.drop_last(), j, x);
        assert(u.drop_last() =~= s.drop_last().update(j, x));
    }
}

proof fn lemma_view_entry<V>(s: Seq<Slot<V>>, i: int)
    requires
        unique_keys(s),
        0 <= i < s.len(),
        s[i].is_taken(),
    ensures
        slots_view(s).contains_key(s[i].spec_key()),
        slots_view(s)[s[i].spec_key()] == s[i].spec_value(),
{
    let k = s[i].spec_key();
    assert(s[i].holds_key(k));
    let c = choose|c: int| 0 <= c < s.len() && (#[trigger] s[c]).holds_key(k);
    assert(c == i);
}

proof fn lemma_view_len<V>(s: Seq<Slot<V>>)
    requires
        unique_keys(s),
    ensures
        slots_view(s).dom().finite(),
        slots_view(s).dom().len() == count_taken(s),
    decreases s.len(),
{
    if s.len() == 0 {
        assert(slots_view(s).dom() =~= Set::empty());
    } else {
        let d = s.drop_last();
        assert(unique_keys(d)) by {
            assert forall|i: int, j: int|
                0 <= i < d.len() && 0 <= j < d.len() && (#[trigger] d[i]).is_taken() && (#[trigger] d[j]).is_taken()
                    && d[i].spec_key() == d[j].spec_key() implies i == j by {
                assert(s[i] == d[i] && s[j] == d[j]);
            }
        }
        lemma_view_len(d);
        let last = s.len() - 1;
        if s.last().is_taken() {
            let k = s.last().spec_key();
            assert(slots_view(s).dom() =~= slots_view(d).dom().insert(k)) by {
                assert(s[last].holds_key(k));
                assert forall|q: usize| #[trigger] slots_view(s).dom().contains(q) implies slots_view(d).dom().insert(q).contains(q) || q == k by {}
                assert forall|q: usize| slots_view(s).dom().contains(q) && q != k implies #[trigger] slots_view(d).dom().contains(q) by {
                    let i = choose|i: int| 0 <= i < s.len() && (#[trigger] s[i]).holds_key(q);
                    assert(d[i] == s[i]);
                }
                assert forall|q: usize| #[trigger] slots_view(d).dom().contains(q) implies slots_view(s).dom().contains(q) by {
                    let i = choose|i: int| 0 <= i < d.len() && (#[trigger] d[i]).holds_key(q);
                    assert(s[i] == d[i]);
                }
            }
            assert(!slots_view(d).dom().contains(k)) by {
                if slots_view(d).dom().contains(k) {
                    let i = choose|i: int| 0 <= i < d.len() && (#[trigger] d[i]).holds_key(k);
                    assert(s[i] == d[i]);
                    assert(s[i].is_taken() && s[last].is_taken());
                }
            }
        } else {
            assert(slots_view(s).dom() =~= slots_view(d).dom()) by {
                assert forall|q: usize| #[trigger] slots_view(s).dom().contains(q) implies slots_view(d).dom().contains(q) by {
                    let i = choose|i: int| 0 <= i < s.len() && (#[trigger] s[i]).holds_key(q);
                    assert(i != last);
                    assert(d[i] == s[i]);
                }
                assert forall|q: usize| #[trigger] slots_view(d).dom().contains(q) implies slots_view(s).dom().contains(q) by {
                    let i = choose|i: int| 0 <= i < d.len() && (#[trigger] d[i]).holds_key(q);
                    assert(s[i] == d[i]);
                }
            }
        }
    }
}

/// What the entries become when slot `j` is overwritten with `x`.
pub open spec fn view_after_set<V>(m: Map<usize, V>, old_slot: Slot<V>, x: Slot<V>) -> Map<usize, V> {
    let m1 = match old_slot {
        Slot::Taken(k, _) => m.remove(k),
        _ => m,
    };
    match x {
        Slot::Taken(k, v) => m1.insert(k, v),
        _ => m1,
    }
}

proof fn lemma_view_update<V>(s: Seq<Slot<V>>, j: int, x: Slot<V>)
    requires
        0 <= j < s.len(),
        unique_keys(s),
        unique_keys(s.update(j, x)),
    ensures
        slots_view(s.update(j, x)) == view_after_set(slots_view(s), s[j], x),
{
    let u = s.update(j, x);
    let m = slots_view(s);
    let r = view_after_set(m, s[j], x);
    assert forall|q: usize| #[trigger] slots_view(u).contains_key(q) <==> r.contains_key(q) by {
        if slots_view(u).contains_key(q) {
            let i = choose|i: int| 0 <= i < u.len() && (#[trigger] u[i]).holds_key(q);
            if i != j {
                assert(s[i] == u[i]);
                assert(s[i].holds_key(q));
                if s[j].holds_key(q) {
                    assert(s[i].is_taken() && s[j].is_taken());
                }
            }
        }
        if r.contains_key(q) && !x.holds_key(q) {
            assert(m.contains_key(q));
            let i = choose|i: int| 0 <= i < s.len() && (#[trigger] s[i]).holds_key(q);
            assert(i != j);
            assert(u[i] == s[i]);
        }
        if x.holds_key(q) {
            assert(u[j].holds_key(q));
        }
    }
    assert forall|q: usize| #[trigger] slots_view(u).contains_key(q) implies slots_view(u)[q] == r[q] by {
        let i = choose|i: int| 0 <= i < u.len() && (#[trigger] u[i]).holds_key(q);
        lemma_view_entry(u, i);
        if i != j {
            assert(s[i] == u[i]);
            lemma_view_entry(s, i);
            assert(!x.holds_key(q)) by {
                if x.holds_key(q) {
                    assert(u[j].is_taken() && u[i].is_taken());
                }
            }
            assert(!s[j].holds_key(q)) by {
                if s[j].holds_key(q) {
                    assert(s[j].is_taken() && s[i].is_taken());
                }
            }
        }
    }
    assert(slots_view(u) =~= r);
}

/// The probe chain that leads to an occupied slot, spelled out.
proof fn lemma_chain_of<V>(s: Seq<Slot<V>>, i: int)
    requires
        chains_intact(s),
        0 <= i < s.len(),
        s[i].is_taken(),
    ensures
        forall|t: int|
            0 <= t < dist((s[i].spec_key() as int) % (s.len() as int), i, s.len() as int) ==> !(#[trigger] s[wrap(
                (s[i].spec_key() as int) % (s.len() as int),
                t,
                s.len() as int,
            )] is Empty),
{
    assert forall|t: int|
        0 <= t < dist((s[i].spec_key() as int) % (s.len() as int), i, s.len() as int) implies !(#[trigger] s[wrap(
            (s[i].spec_key() as int) % (s.len() as int),
            t,
            s.len() as int,
        )] is Empty) by {
        assert(s[i].is_taken());
    }
}

/// Overwriting a slot with a non-empty one keeps every probe chain intact,
/// provided the new entry's own chain leads to it.
proof fn lemma_chains_after_set<V>(s: Seq<Slot<V>>, j: int, x: Slot<V>)
    requires
        chains_intact(s),
        0 <= j < s.len(),
        !(x is Empty),
        x.is_taken() ==> forall|t: int|
            0 <= t < dist((x.spec_key() as int) % (s.len() as int), j, s.len() as int) ==> !(#[trigger] s[wrap(
                (x.spec_key() as int) % (s.len() as int),
                t,
                s.len() as int,
            )] is Empty),
    ensures
        chains_intact(s.update(j, x)),
{
    let u = s.update(j, x);
    let cap = s.len() as int;
    assert forall|i: int, t: int|
        0 <= i < u.len() && (#[trigger] u[i]).is_taken() && 0 <= t < dist(
            (u[i].spec_key() as int) % cap,
            i,
            cap,
        ) implies !(#[trigger] u[wrap((u[i].spec_key() as int) % cap, t, cap)] is Empty) by {
        let h = (u[i].spec_key() as int) % cap;
        let w = wrap(h, t, cap);
        if w != j {
            if i != j {
                assert(s[i] == u[i]);
                assert(!(s[w] is Empty));
            } else {
                assert(!(s[w] is Empty));
            }
        }
    }
}

/// Overwriting a slot keeps keys unique when the new entry's key is held by
/// no other slot.
proof fn lemma_unique_after_set<V>(s: Seq<Slot<V>>, j: int, x: Slot<V>)
    requires
        unique_keys(s),
        0 <= j < s.len(),
        x.is_taken() ==> forall|i: int| 0 <= i < s.len() && i != j ==> !(#[trigger] s[i]).holds_key(x.spec_key()),
    ensures
        unique_keys(s.update(j, x)),
{
    let u = s.update(j, x);
    assert forall|a: int, b: int|
        0 <= a < u.len() && 0 <= b < u.len() && (#[trigger] u[a]).is_taken() && (#[trigger] u[b]).is_taken()
            && u[a].spec_key() == u[b].spec_key() implies a == b by {
        if a != j && b != j {
            assert(s[a] == u[a] && s[b] == u[b]);
        } else if a == j && b != j {
            assert(s[b].holds_key(x.spec_key()));
        } else if b == j && a != j {
            assert(s[a].holds_key(x.spec_key()));
        }
    }
}

/// A probe for `key` that stopped after `n` steps, on an empty slot or after
/// the whole array, without meeting the key, proves the key absent.
proof fn lemma_not_found<V>(s: Seq<Slot<V>>, key: usize, n: int)
    requires
        chains_intact(s),
        s.len() > 0,
        0 <= n <= s.len(),
        forall|t: int| 0 <= t < n ==> !(#[trigger] s[wrap((key as int) % (s.len() as int), t, s.len() as int)]).holds_key(key),
        n == s.len() || s[wrap((key as int) % (s.len() as int), n, s.len() as int)] is Empty,
    ensures
        !slots_view(s).contains_key(key),
{
    let cap = s.len() as int;
    let h = (key as int) % cap;
    if slots_view(s).contains_key(key) {
        let i = choose|i: int| 0 <= i < s.len() && (#[trigger] s[i]).holds_key(key);
        lemma_wrap_dist(h, i, cap);
        let d = dist(h, i, cap);
        if d < n {
            assert(!s[wrap(h, d, cap)].holds_key(key));
        } else if d > n {
            assert(s[i].is_taken() && s[i].spec_key() == key);
            assert(!(s[wrap((s[i].spec_key() as int) % cap, n, cap)] is Empty));
        }
    }
}

/// The smallest power of two that is at least `n` (one for zero).
pub fn next_power_of_two(n: usize) -> (r: usize)
    requires
        n <= usize::MAX / 2 + 1,
    ensures
        is_next_pow2(r as nat, n as nat),
{
    let mut p: usize = 1;
    while p < n
        invariant
            is_pow2(p as nat),
            p >= 1,
            p == 1 || p / 2 < n,
            n <= usize::MAX / 2 + 1,
        decreases usize::MAX - p,
    {
        let ghost prev = p;
        p = p * 2;
        assert(p > prev);
        assert(is_pow2(p as nat)) by {
            assert((p as nat) / 2 == prev);
        }
    }
    p
}

/// A table of values keyed by `usize`, with open addressing and linear
/// probing from the ideal index `key % capacity`.
pub struct HashMap<V> {
    slots: Vec<Slot<V>>,
    items: usize,
    deleted: usize,
}

impl<V> View for HashMap<V> {
    type V = Map<usize, V>;

    closed spec fn view(&self) -> Map<usize, V> {
        slots_view(self.slots@)
    }
}

impl<V> HashMap<V> {
    /// The number of slots.
    pub closed spec fn spec_capacity(&self) -> nat {
        self.slots@.len()
    }

    /// The number of tombstones.
    pub closed spec fn spec_tombstones(&self) -> nat {
        count_deleted(self.slots@)
    }

    /// The layout facts: the capacity is zero or a power of two, each key
    /// has one slot, probe chains are unbroken, and the two counters are
    /// the numbers of occupied slots and of tombstones.
    closed spec fn inv(&self) -> bool {
        &&& (self.slots@.len() == 0 || is_pow2(self.slots@.len()))
        &&& self.items == count_taken(self.slots@)
        &&& self.deleted == count_deleted(self.slots@)
        &&& unique_keys(self.slots@)
        &&& chains_intact(self.slots@)
    }

    /// The table's invariant: the layout facts, and an empty slot wherever
    /// there is a tombstone, so that a probe for an absent key ends early.
    pub closed spec fn wf(&self) -> bool {
        &&& self.inv()
        &&& (self.deleted == 0 || self.items + self.deleted < self.slots@.len())
    }

    /// The capacity facts that the invariant holds.
    pub proof fn lemma_wf_capacity(&self)
        requires
            self.wf(),
        ensures
            self.spec_capacity() == 0 || is_pow2(self.spec_capacity()),
            self@.len() <= self.spec_capacity(),
    {
        lemma_view_len(self.slots@);
        lemma_count_bounds(self.slots@);
    }

    /// A table with no slots.
    pub fn new() -> (r: HashMap<V>)
        ensures
            r.wf(),
            r@ == Map::<usize, V>::empty(),
            r.spec_capacity() == 0,
    {
        let r = HashMap { slots: Vec::new(), items: 0, deleted: 0 };
        assert(r@ =~= Map::<usize, V>::empty());
        r
    }

    /// The number of slots.
    pub fn capacity(&self) -> (r: usize)
        ensures
            r == self.spec_capacity(),
    {
        self.slots.len()
    }

    /// The number of entries.
    pub fn len(&self) -> (r: usize)
        requires
            self.wf(),
        ensures
            r == self@.len(),
    {
        proof {
            lemma_view_len(self.slots@);
        }
        self.items
    }

    /// Index of the slot visited at step `idx` of the probe that starts at
    /// `hash`.
    fn prob_seq(&self, hash: usize, idx: usize) -> (r: usize)
        requires
            hash < self.slots@.len(),
            idx < self.slots@.len(),
        ensures
            r == wrap(hash as int, idx as int, self.slots@.len() as int),
    {
        let capacity = self.slots.len();
        if hash < capacity - idx {
            hash + idx
        } else {
            hash - (capacity - idx)
        }
    }

    /// The slot that holds `key`, if any.
    fn find(&self, key: usize) -> (r: Option<usize>)
        requires
            self.inv(),
        ensures
            match r {
                Some(i) => i < self.slots@.len() && self.slots@[i as int].holds_key(key),
                None => !self@.contains_key(key),
            },
    {
        let capacity = self.slots.len();
        if capacity == 0 {
            return None;
        }
        let hash = key % capacity;
        let mut step: usize = 0;
        while step < capacity
            invariant
                self.inv(),
                capacity == self.slots@.len(),
                capacity > 0,
                hash == key % capacity,
                step <= capacity,
                forall|t: int|
                    0 <= t < step ==> !(#[trigger] self.slots@[wrap(hash as int, t, capacity as int)]).holds_key(key),
            decreases capacity - step,
        {
            let idx = self.prob_seq(hash, step);
            match &self.slots[idx] {
                Slot::Empty => {
                    proof {
                        lemma_not_found(self.slots@, key, step as int);
                    }
                    return None;
                },
                Slot::Taken(k, _) => {
                    if *k == key {
                        return Some(idx);
                    }
                },
                Slot::Deleted => {},
            }
            step = step + 1;
        }
        proof {
            lemma_not_found(self.slots@, key, step as int);
        }
        None
    }

    /// The value stored under `key`.
    pub fn get(&self, key: usize) -> (r: Option<&V>)
        requires
            self.wf(),
        ensures
            match r {
                Some(v) => self@.contains_key(key) && *v == self@[key],
                None => !self@.contains_key(key),
            },
    {
        match self.find(key) {
            Some(i) => {
                proof {
                    lemma_view_entry(self.slots@, i as int);
                }
                match &self.slots[i] {
                    Slot::Taken(_, v) => Some(v),
                    _ => None,
                }
            },
            None => None,
        }
    }

    /// A table of `capacity` empty slots.
    fn empty_table(capacity: usize) -> (r: HashMap<V>)
        requires
            is_pow2(capacity as nat),
        ensures
            r.wf(),
            r@ == Map::<usize, V>::empty(),
            r.slots@.len() == capacity,
            forall|i: int| 0 <= i < r.slots@.len() ==> #[trigger] r.slots@[i] is Empty,
            r.items == 0,
            r.deleted == 0,
    {
        let mut slots: Vec<Slot<V>> = Vec::with_capacity(capacity);
        while slots.len() < capacity
            invariant
                slots@.len() <= capacity,
                forall|i: int| 0 <= i < slots@.len() ==> #[trigger] slots@[i] is Empty,
                count_taken(slots@) == 0,
                count_deleted(slots@) == 0,
            decreases capacity - slots@.len(),
        {
            proof {
                assert(slots@.push(Slot::Empty).drop_last() =~= slots@);
            }
            slots.push(Slot::Empty);
        }
        let r = HashMap { slots, items: 0, deleted: 0 };
        assert(r@ =~= Map::<usize, V>::empty());
        r
    }

    /// A table of `next_power_of_two(capacity)` empty slots.
    fn new_inner(capacity: usize) -> (r: HashMap<V>)
        requires
            capacity <= usize::MAX / 2 + 1,
        ensures
            r.wf(),
            r@ == Map::<usize, V>::empty(),
            is_next_pow2(r.spec_capacity(), capacity as nat),
            forall|i: int| 0 <= i < r.slots@.len() ==> #[trigger] r.slots@[i] is Empty,
            r.spec_tombstones() == 0,
    {
        Self::empty_table(next_power_of_two(capacity))
    }

    /// A table whose capacity is the smallest power of two that is at least
    /// `capacity`.
    pub fn with_capacity(capacity: usize) -> (r: HashMap<V>)
        requires
            capacity <= usize::MAX / 2 + 1,
        ensures
            r.wf(),
            r@ == Map::<usize, V>::empty(),
            is_next_pow2(r.spec_capacity(), capacity as nat),
            r.spec_tombstones() == 0,
    {
        Self::new_inner(capacity)
    }

    /// Rehashes every entry into a fresh array of `capacity` slots, which
    /// holds no tombstones.
    fn rehash(&mut self, capacity: usize)
        requires
            old(self).inv(),
            is_pow2(capacity as nat),
            old(self)@.len() <= capacity,
        ensures
            final(self).wf(),
            final(self)@ == old(self)@,
            final(self).spec_capacity() == capacity,
            final(self).spec_tombstones() == 0,
    {
        proof {
            lemma_view_len(self.slots@);
        }
        let mut map = Self::empty_table(capacity);
        let mut rest: Vec<Slot<V>> = Vec::new();
        std::mem::swap(&mut rest, &mut self.slots);
        let ghost old_slots = rest@;
        while rest.len() > 0
            invariant
                map.inv(),
                map.deleted == 0,
                map.slots@.len() == capacity,
                rest.len() <= old_slots.len(),
                rest@ == old_slots.subrange(0, rest@.len() as int),
                map.items + count_taken(rest@) == count_taken(old_slots),
                count_taken(old_slots) <= capacity,
                unique_keys(old_slots),
                forall|k: usize|
                    #[trigger] map@.contains_key(k) <==> exists|i: int|
                        rest@.len() <= i < old_slots.len() && (#[trigger] old_slots[i]).holds_key(k),
                forall|k: usize| #[trigger] map@.contains_key(k) ==> map@[k] == slots_view(old_slots)[k],
            decreases rest.len(),
        {
            let ghost n = rest@.len() - 1;
            let ghost before = rest@;
            assert(before[n] == old_slots[n]);
            assert(before.drop_last() =~= old_slots.subrange(0, n));
            assert(count_taken(before) == count_taken(before.drop_last()) + (if before[n].is_taken() {
                1nat
            } else {
                0nat
            }));
            match rest.pop() {
                Some(Slot::Taken(key, value)) => {
                    proof {
                        assert(old_slots[n].holds_key(key));
                        if map@.contains_key(key) {
                            let i = choose|i: int|
                                rest@.len() + 1 <= i < old_slots.len() && (#[trigger] old_slots[i]).holds_key(key);
                            assert(old_slots[i].is_taken() && old_slots[n].is_taken());
                        }
                        lemma_view_entry(old_slots, n);
                    }
                    map.insert_inner(key, value);
                    proof {
                        assert forall|k: usize|
                            #[trigger] map@.contains_key(k) <==> exists|i: int|
                                rest@.len() <= i < old_slots.len() && (#[trigger] old_slots[i]).holds_key(k) by {
                            if k == key {
                                assert(old_slots[n].holds_key(k));
                            }
                        }
                    }
                },
                _ => {
                    proof {
                        assert forall|k: usize|
                            #[trigger] map@.contains_key(k) <==> exists|i: int|
                                rest@.len() <= i < old_slots.len() && (#[trigger] old_slots[i]).holds_key(k) by {
                            if exists|i: int| rest@.len() <= i < old_slots.len() && (#[trigger] old_slots[i]).holds_key(k) {
                                let i = choose|i: int|
                                    rest@.len() <= i < old_slots.len() && (#[trigger] old_slots[i]).holds_key(k);
                                assert(i != n);
                            }
                        }
                    }
                },
            }
        }
        proof {
            assert(map@ =~= slots_view(old_slots));
        }
        self.slots = map.slots;
        self.items = map.items;
        self.deleted = map.deleted;
    }

    /// Rehashes every entry into a fresh array whose capacity is the
    /// smallest power of two that is at least `capacity`; this clears the
    /// tombstones.
    pub fn resize(&mut self, new_size: usize)
        requires
            old(self).wf(),
            old(self)@.len() <= new_size,
            new_size <= usize::MAX / 2 + 1,
        ensures
            final(self).wf(),
            final(self)@ == old(self)@,
            is_next_pow2(final(self).spec_capacity(), new_size as nat),
            final(self).spec_tombstones() == 0,
    {
        let capacity = next_power_of_two(new_size);
        self.rehash(capacity);
    }

    /// Rehashes at the same capacity when tombstones have taken the last
    /// empty slot.
    fn compact(&mut self)
        requires
            old(self).inv(),
        ensures
            final(self).wf(),
            final(self)@ == old(self)@,
            final(self).spec_capacity() == old(self).spec_capacity(),
    {
        proof {
            lemma_count_bounds(self.slots@);
            lemma_view_len(self.slots@);
            assert(self.slots.len() == self.slots@.len());
        }
        if self.deleted > 0 && self.items + self.deleted == self.slots.len() {
            let capacity = self.slots.len();
            self.rehash(capacity);
        }
    }

    /// Grows the table, when needed, so that `additional` more entries fit.
    pub fn reserve(&mut self, additional: usize)
        requires
            old(self).wf(),
            old(self)@.len() + additional <= usize::MAX / 2 + 1,
        ensures
            final(self).wf(),
            final(self)@ == old(self)@,
            if old(self)@.len() + additional > old(self).spec_capacity() {
                is_next_pow2(final(self).spec_capacity(), (old(self)@.len() + additional) as nat)
            } else {
                final(self).spec_capacity() == old(self).spec_capacity()
            },
    {
        proof {
            lemma_view_len(self.slots@);
        }
        if additional + self.items > self.slots.len() {
            self.resize(additional + self.items);
        }
    }

    /// A mutable borrow of the value stored under `key`; what is written
    /// through it becomes the key's value.
    pub fn get_mut(&mut self, key: usize) -> (r: Option<&mut V>)
        requires
            old(self).wf(),
        ensures
            final(self).wf(),
            final(self).spec_capacity() == old(self).spec_capacity(),
            match r {
                Some(v) => {
                    &&& old(self)@.contains_key(key)
                    &&& *v == old(self)@[key]
                    &&& final(self)@ == old(self)@.insert(key, *final(v))
                },
                None => {
                    &&& !old(self)@.contains_key(key)
                    &&& final(self)@ == old(self)@
                },
            },
    {
        match self.find(key) {
            Some(i) => {
                let ghost s = self.slots@;
                proof {
                    lemma_view_entry(s, i as int);
                }
                let slot = &mut self.slots[i];
                match slot {
                    Slot::Taken(k, v) => {
                        proof {
                            let x = Slot::Taken(*k, *final(v));
                            assert forall|j: int| 0 <= j < s.len() && j != i implies !(#[trigger] s[j]).holds_key(key) by {
                                if s[j].holds_key(key) {
                                    assert(s[j].is_taken() && s[i as int].is_taken());
                                }
                            }
                            lemma_unique_after_set(s, i as int, x);
                            lemma_chain_of(s, i as int);
                            lemma_chains_after_set(s, i as int, x);
                            lemma_count_update(s, i as int, x);
                            lemma_view_update(s, i as int, x);
                            assert(view_after_set(slots_view(s), s[i as int], x) =~= slots_view(s).insert(key, *final(v)));
                        }
                        Some(v)
                    },
                    _ => None,
                }
            },
            None => None,
        }
    }

    /// Stores `value` under `key`, and hands back the value it replaces.
    pub fn insert(&mut self, key: usize, value: V) -> (r: Option<V>)
        requires
            old(self).wf(),
            old(self)@.contains_key(key) || old(self)@.len() < usize::MAX / 2 + 1,
        ensures
            final(self).wf(),
            final(self)@ == old(self)@.insert(key, value),
            r == if old(self)@.contains_key(key) {
                Some(old(self)@[key])
            } else {
                None
            },
            final(self)@.len() == old(self)@.len() + if old(self)@.contains_key(key) {
                0int
            } else {
                1int
            },
            if old(self)@.contains_key(key) || old(self)@.len() < old(self).spec_capacity() {
                final(self).spec_capacity() == old(self).spec_capacity()
            } else {
                is_next_pow2(final(self).spec_capacity(), (old(self)@.len() + 1) as nat)
            },
    {
        proof {
            lemma_view_len(self.slots@);
        }
        match self.find(key) {
            Some(i) => {
                let ghost s = self.slots@;
                let ghost x = Slot::Taken(key, value);
                proof {
                    lemma_view_entry(s, i as int);
                    assert forall|j: int| 0 <= j < s.len() && j != i implies !(#[trigger] s[j]).holds_key(key) by {
                        if s[j].holds_key(key) {
                            assert(s[j].is_taken() && s[i as int].is_taken());
                        }
                    }
                    lemma_unique_after_set(s, i as int, x);
                    lemma_chain_of(s, i as int);
                    lemma_chains_after_set(s, i as int, x);
                    lemma_count_update(s, i as int, x);
                    lemma_view_update(s, i as int, x);
                    assert(view_after_set(slots_view(s), s[i as int], x) =~= slots_view(s).insert(key, value));
                }
                let mut slot = Slot::Taken(key, value);
                std::mem::swap(&mut self.slots[i], &mut slot);
                proof {
                    lemma_view_len(self.slots@);
                }
                match slot {
                    Slot::Taken(_, v) => Some(v),
                    _ => None,
                }
            },
            None => {
                self.reserve(1);
                proof {
                    lemma_view_len(self.slots@);
                }
                self.insert_inner(key, value);
                self.compact();
                proof {
                    lemma_view_len(self.slots@);
                }
                None
            },
        }
    }

    /// Takes the entry of `key` out of the table, leaving a tombstone in its
    /// slot.
    pub fn remove(&mut self, key: usize) -> (r: Option<V>)
        requires
            old(self).wf(),
        ensures
            final(self).wf(),
            final(self)@ == old(self)@.remove(key),
            r == if old(self)@.contains_key(key) {
                Some(old(self)@[key])
            } else {
                None
            },
            final(self)@.len() == old(self)@.len() - if old(self)@.contains_key(key) {
                1int
            } else {
                0int
            },
            final(self).spec_capacity() == old(self).spec_capacity(),
    {
        proof {
            lemma_view_len(self.slots@);
        }
        match self.find(key) {
            Some(i) => {
                let ghost s = self.slots@;
                let ghost x = Slot::<V>::Deleted;
                proof {
                    lemma_view_entry(s, i as int);
                    lemma_unique_after_set(s, i as int, x);
                    lemma_chains_after_set(s, i as int, x);
                    lemma_count_update(s, i as int, x);
                    lemma_view_update(s, i as int, x);
                    lemma_count_bounds(s);
                }
                let mut slot = Slot::Deleted;
                std::mem::swap(&mut self.slots[i], &mut slot);
                self.items = self.items - 1;
                proof {
                    lemma_count_bounds(self.slots@);
                    assert(self.slots.len() == self.slots@.len());
                }
                self.deleted = self.deleted + 1;
                self.compact();
                match slot {
                    Slot::Taken(_, v) => Some(v),
                    _ => None,
                }
            },
            None => {
                proof {
                    assert(self@.remove(key) =~= self@);
                }
                None
            },
        }
    }

    /// The first slot free for a new entry on the probe that starts at
    /// `hash`; every slot before it on that probe is occupied.
    fn find_insert_slot(&self, hash: usize) -> (r: usize)
        requires
            self.inv(),
            hash < self.slots@.len(),
            self.items < self.slots@.len(),
        ensures
            r < self.slots@.len(),
            !self.slots@[r as int].is_taken(),
            forall|t: int|
                0 <= t < dist(hash as int, r as int, self.slots@.len() as int) ==> (#[trigger] self.slots@[wrap(
                    hash as int,
                    t,
                    self.slots@.len() as int,
                )]).is_taken(),
    {
        let capacity = self.slots.len();
        let mut step: usize = 0;
        while step < capacity
            invariant
                self.inv(),
                capacity == self.slots@.len(),
                hash < capacity,
                self.items < capacity,
                step <= capacity,
                forall|t: int| 0 <= t < step ==> (#[trigger] self.slots@[wrap(hash as int, t, capacity as int)]).is_taken(),
            decreases capacity - step,
        {
            let idx = self.prob_seq(hash, step);
            match &self.slots[idx] {
                Slot::Taken(_, _) => {},
                _ => {
                    proof {
                        lemma_wrap_dist(hash as int, idx as int, capacity as int);
                    }
                    return idx;
                },
            }
            step = step + 1;
        }
        proof {
            assert forall|i: int| 0 <= i < capacity implies (#[trigger] self.slots@[i]).is_taken() by {
                lemma_wrap_dist(hash as int, i, capacity as int);
                assert(self.slots@[wrap(hash as int, dist(hash as int, i, capacity as int), capacity as int)].is_taken());
            }
            lemma_count_bounds(self.slots@);
        }
        0
    }

    /// Puts an entry for a key that the table does not hold into the first
    /// free slot of its probe.
    fn insert_inner(&mut self, key: usize, value: V)
        requires
            old(self).inv(),
            !old(self)@.contains_key(key),
            old(self).items < old(self).slots@.len(),
        ensures
            final(self).inv(),
            final(self)@ == old(self)@.insert(key, value),
            final(self).slots@.len() == old(self).slots@.len(),
            final(self).items == old(self).items + 1,
            final(self).deleted <= old(self).deleted,
    {
        let hash = key % self.slots.len();
        let index = self.find_insert_slot(hash);
        let reused = match &self.slots[index] {
            Slot::Deleted => true,
            _ => false,
        };
        let ghost s = self.slots@;
        let ghost x = Slot::Taken(key, value);
        proof {
            assert forall|i: int| 0 <= i < s.len() && i != index implies !(#[trigger] s[i]).holds_key(key) by {
                if s[i].holds_key(key) {
                    assert(slots_view(s).contains_key(key));
                }
            }
            lemma_unique_after_set(s, index as int, x);
            lemma_chains_after_set(s, index as int, x);
            lemma_count_update(s, index as int, x);
            lemma_view_update(s, index as int, x);
        }
        self.slots[index] = Slot::Taken(key, value);
        self.items = self.items + 1;
        if reused {
            self.deleted = self.deleted - 1;
        }
        proof {
            lemma_count_bounds(s);
        }
    }
}

} // verus!
