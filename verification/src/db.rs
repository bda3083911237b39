//! The store: a mapping from key to entry, with optional expiry per key.
//!
//! The store is modelled as a `Map` from key text to [`EntryView`]. Time is a
//! plain value handed in by the caller; nothing here reads a clock.

use vstd::prelude::*;

verus! {

/// An instant: seconds and nanoseconds since the Unix epoch.
#[derive(Clone, Copy, Debug, PartialEq, Eq, Structural)]
pub struct Timestamp {
    pub secs: u64,
    pub nanos: u32,
}

impl Timestamp {
    /// Whether `self` is strictly earlier than `other`.
    pub open spec fn before(self, other: Timestamp) -> bool {
        self.secs < other.secs || (self.secs == other.secs && self.nanos < other.nanos)
    }

    /// The instant `secs` seconds after `self`. An instant later than the
    /// last second that can be written is held at that last second.
    pub open spec fn plus(self, secs: u64) -> Timestamp {
        if self.secs + secs <= u64::MAX {
            Timestamp { secs: (self.secs + secs) as u64, nanos: self.nanos }
        } else {
            Timestamp { secs: u64::MAX, nanos: self.nanos }
        }
    }

    /// The instant at the start of second `secs`.
    pub open spec fn at(secs: u64) -> Timestamp {
        Timestamp { secs, nanos: 0 }
    }

    /// The instant at the start of second `secs`.
    pub fn from_secs(secs: u64) -> (t: Timestamp)
        ensures
            t == Timestamp::at(secs),
    {
        Timestamp { secs, nanos: 0 }
    }

    /// Whether `self` is strictly earlier than `other`.
    pub fn is_before(&self, other: &Timestamp) -> (b: bool)
        ensures
            b == self.before(*other),
    {
        self.secs < other.secs || (self.secs == other.secs && self.nanos < other.nanos)
    }

    /// The instant `secs` seconds after `self`, held at the last second that
    /// can be written.
    pub fn after_secs(&self, secs: u64) -> (t: Timestamp)
        ensures
            t == self.plus(secs),
    {
        if secs <= u64::MAX - self.secs {
            Timestamp { secs: self.secs + secs, nanos: self.nanos }
        } else {
            Timestamp { secs: u64::MAX, nanos: self.nanos }
        }
    }
}

/// A stored value with its optional expiry. Without an expiry the entry
/// never expires.
#[derive(Debug)]
pub struct Entry {
    pub value: String,
    pub expire_at: Option<Timestamp>,
}

/// What an [`Entry`] holds, as mathematical values.
pub ghost struct EntryView {
    pub value: Seq<char>,
    pub expire_at: Option<Timestamp>,
}

impl EntryView {
    /// Whether the entry counts as present at `now`: it has no expiry, or its
    /// expiry lies in the future. An entry whose expiry equals `now` is gone.
    pub open spec fn live_at(self, now: Timestamp) -> bool {
        match self.expire_at {
            None => true,
            Some(deadline) => now.before(deadline),
        }
    }
}

impl View for Entry {
    type V = EntryView;

    open spec fn view(&self) -> EntryView {
        EntryView { value: self.value@, expire_at: self.expire_at }
    }
}

impl Clone for Entry {
    fn clone(&self) -> (r: Self)
        ensures
            r@ == self@,
    {
        Entry { value: self.value.clone(), expire_at: self.expire_at }
    }
}

impl Entry {
    /// An entry that holds `value` until `expire_at`.
    pub fn new(value: String, expire_at: Option<Timestamp>) -> (e: Entry)
        ensures
            e@ == (EntryView { value: value@, expire_at }),
    {
        Entry { value, expire_at }
    }

    /// Whether the entry counts as present at `now`.
    pub fn is_live(&self, now: Timestamp) -> (b: bool)
        ensures
            b == self@.live_at(now),
    {
        match self.expire_at {
            None => true,
            Some(deadline) => now.is_before(&deadline),
        }
    }
}

/// The model of a store: key text to entry.
pub type StoreView = Map<Seq<char>, EntryView>;

/// A key with its entry, as mathematical values.
pub type Binding = (Seq<char>, EntryView);

/// The view of an optional text.
pub open spec fn option_text(o: Option<String>) -> Option<Seq<char>> {
    match o {
        Some(s) => Some(s@),
        None => None,
    }
}

/// The bindings that a list of keys and entries holds.
pub open spec fn bindings(pairs: Seq<(String, Entry)>) -> Seq<Binding> {
    pairs.map_values(|p: (String, Entry)| (p.0@, p.1@))
}

/// The map that results from inserting `pairs` in order: where a key comes
/// more than once, its last entry stays.
pub open spec fn entries_map(pairs: Seq<Binding>) -> StoreView
    decreases pairs.len(),
{
    if pairs.len() == 0 {
        Map::empty()
    } else {
        entries_map(pairs.drop_last()).insert(pairs.last().0, pairs.last().1)
    }
}

/// No key comes twice in `pairs`.
pub open spec fn distinct_keys(pairs: Seq<Binding>) -> bool {
    forall|i: int, j: int| 0 <= i < j < pairs.len() ==> (#[trigger] pairs[i]).0 != (
    #[trigger] pairs[j]).0
}

/// Some binding of `pairs` has the key `key`.
pub open spec fn has_key(pairs: Seq<Binding>, key: Seq<char>) -> bool {
    exists|i: int| 0 <= i < pairs.len() && (#[trigger] pairs[i]).0 == key
}

/// What a read of `key` at `now` finds in `m`: the value of a live entry.
pub open spec fn lookup(m: StoreView, key: Seq<char>, now: Timestamp) -> Option<Seq<char>> {
    if m.contains_key(key) && m[key].live_at(now) {
        Some(m[key].value)
    } else {
        None
    }
}

/// `m` without the entries that have expired at `now`.
pub open spec fn without_expired(m: StoreView, now: Timestamp) -> StoreView {
    m.restrict(Set::new(|k: Seq<char>| m.contains_key(k) && m[k].live_at(now)))
}

/// The map of a list of bindings has the list's keys, and where no key comes
/// twice, each key's own entry and as many keys as the list is long.
pub proof fn lemma_entries_map(pairs: Seq<Binding>)
    ensures
        entries_map(pairs).dom().finite(),
        forall|k: Seq<char>| #[trigger] entries_map(pairs).contains_key(k) <==> has_key(pairs, k),
        distinct_keys(pairs) ==> forall|i: int|
            0 <= i < pairs.len() ==> entries_map(pairs)[(#[trigger] pairs[i]).0] == pairs[i].1,
        distinct_keys(pairs) ==> entries_map(pairs).len() == pairs.len(),
    decreases pairs.len(),
{
    if pairs.len() > 0 {
        let init = pairs.drop_last();
        let last = pairs.last();
        lemma_entries_map(init);
        assert forall|k: Seq<char>| #[trigger]
            entries_map(pairs).contains_key(k) <==> has_key(pairs, k) by {
            if has_key(init, k) {
                let i = choose|i: int| 0 <= i < init.len() && (#[trigger] init[i]).0 == k;
                assert(pairs[i].0 == k);
            }
            if k == last.0 {
                assert(pairs[pairs.len() - 1].0 == k);
            }
            if has_key(pairs, k) {
                let i = choose|i: int| 0 <= i < pairs.len() && (#[trigger] pairs[i]).0 == k;
                if i < init.len() {
                    assert(init[i].0 == k);
                }
            }
        }
        if distinct_keys(pairs) {
            assert(distinct_keys(init)) by {
                assert forall|i: int, j: int| 0 <= i < j < init.len() implies (
                #[trigger] init[i]).0 != (#[trigger] init[j]).0 by {
                    assert(init[i] == pairs[i]);
                    assert(init[j] == pairs[j]);
                }
            }
            assert(!has_key(init, last.0)) by {
                if has_key(init, last.0) {
                    let i = choose|i: int| 0 <= i < init.len() && (#[trigger] init[i]).0 == last.0;
                    assert(pairs[i].0 == pairs[pairs.len() - 1].0);
                }
            }
            assert forall|i: int| 0 <= i < pairs.len() implies entries_map(pairs)[(
            #[trigger] pairs[i]).0] == pairs[i].1 by {
                if i < init.len() {
                    assert(init[i] == pairs[i]);
                    assert(pairs[i].0 != pairs[pairs.len() - 1].0);
                }
            }
            assert(!entries_map(init).dom().contains(last.0));
        }
    }
}

/// The in-memory store. No key is held twice.
pub struct Store {
    slots: Vec<(String, Entry)>,
}

impl View for Store {
    type V = StoreView;

    closed spec fn view(&self) -> StoreView {
        entries_map(bindings(self.slots@))
    }
}

impl Store {
    #[verifier::type_invariant]
    spec fn well_formed(&self) -> bool {
        distinct_keys(bindings(self.slots@))
    }

    /// An empty store.
    pub fn new() -> (s: Store)
        ensures
            s@ == Map::<Seq<char>, EntryView>::empty(),
    {
        let s = Store { slots: Vec::new() };
        assert(bindings(s.slots@) =~= Seq::<Binding>::empty());
        s
    }

    /// The number of keys held, expired ones included.
    pub fn len(&self) -> (n: usize)
        ensures
            n == self@.len(),
    {
        proof {
            use_type_invariant(self);
            lemma_entries_map(bindings(self.slots@));
        }
        self.slots.len()
    }

    /// Whether the store holds no key at all.
    pub fn is_empty(&self) -> (b: bool)
        ensures
            b == (self@.len() == 0),
    {
        self.len() == 0
    }

    /// Where `key` is held, if it is.
    fn position(&self, key: &String) -> (r: Option<usize>)
        ensures
            match r {
                Some(i) => i < self.slots.len() && self.slots[i as int].0@ == key@,
                None => !has_key(bindings(self.slots@), key@),
            },
    {
        let n: usize = self.slots.len();
        let mut i: usize = 0;
        while i < n
            invariant
                i <= n,
                n == self.slots.len(),
                forall|j: int| 0 <= j < i ==> (#[trigger] bindings(self.slots@)[j]).0 != key@,
            decreases n - i,
        {
            if self.slots[i].0 == *key {
                return Some(i);
            }
            assert(bindings(self.slots@)[i as int].0 == self.slots[i as int].0@);
            i += 1;
        }
        None
    }

    /// Whether `key` is held, expired or not.
    pub fn contains_key(&self, key: &String) -> (b: bool)
        ensures
            b == self@.contains_key(key@),
    {
        proof {
            lemma_entries_map(bindings(self.slots@));
        }
        match self.position(key) {
            Some(i) => {
                assert(bindings(self.slots@)[i as int].0 == key@);
                true
            },
            None => false,
        }
    }

    /// The entry held under `key`, expired or not.
    pub fn entry(&self, key: &String) -> (r: Option<&Entry>)
        ensures
            match r {
                Some(e) => self@.contains_key(key@) && e@ == self@[key@],
                None => !self@.contains_key(key@),
            },
    {
        proof {
            use_type_invariant(self);
            lemma_entries_map(bindings(self.slots@));
        }
        match self.position(key) {
            Some(i) => {
                assert(bindings(self.slots@)[i as int] == (key@, self.slots[i as int].1@));
                Some(&self.slots[i].1)
            },
            None => None,
        }
    }

    /// Reads `key` at `now`: the value of its entry, if one is held and live.
    pub fn get(&self, key: &String, now: Timestamp) -> (r: Option<String>)
        ensures
            option_text(r) == lookup(self@, key@, now),
    {
        match self.entry(key) {
            Some(e) => {
                if e.is_live(now) {
                    Some(e.value.clone())
                } else {
                    None
                }
            },
            None => None,
        }
    }

    /// Puts `entry` under `key`, whether or not the key is held.
    pub fn upsert(&mut self, key: String, entry: Entry)
        ensures
            final(self)@ == old(self)@.insert(key@, entry@),
    {
        proof {
            use_type_invariant(&*self);
        }
        let found = self.position(&key);
        let ghost before = bindings(self.slots@);
        let ghost binding: Binding = (key@, entry@);
        let mut slots: Vec<(String, Entry)> = Vec::new();
        std::mem::swap(&mut slots, &mut self.slots);
        proof {
            assert(bindings(self.slots@) =~= Seq::<Binding>::empty());
        }
        match found {
            Some(i) => {
                slots.set(i, (key, entry));
                proof {
                    let after = bindings(slots@);
                    assert(after =~= before.update(i as int, binding));
                    lemma_update_binding(before, i as int, binding);
                }
            },
            None => {
                slots.push((key, entry));
                proof {
                    let after = bindings(slots@);
                    assert(after =~= before.push(binding));
                    assert(after.drop_last() =~= before);
                    lemma_entries_map(before);
                    assert(distinct_keys(after)) by {
                        assert forall|i: int, j: int| 0 <= i < j < after.len() implies (
                        #[trigger] after[i]).0 != (#[trigger] after[j]).0 by {
                            assert(after[i] == before[i]);
                            if j < before.len() {
                                assert(after[j] == before[j]);
                            }
                        }
                    }
                }
            },
        }
        self.slots = slots;
    }

    /// Puts `entry` under `key` if the key is not held. Says whether it did.
    pub fn set_if_absent(&mut self, key: String, entry: Entry) -> (done: bool)
        ensures
            done == !old(self)@.contains_key(key@),
            done ==> final(self)@ == old(self)@.insert(key@, entry@),
            !done ==> final(self)@ == old(self)@,
    {
        if self.contains_key(&key) {
            false
        } else {
            self.upsert(key, entry);
            true
        }
    }

    /// Puts `entry` under `key` if the key is held. Says whether it did.
    pub fn update_if_present(&mut self, key: String, entry: Entry) -> (done: bool)
        ensures
            done == old(self)@.contains_key(key@),
            done ==> final(self)@ == old(self)@.insert(key@, entry@),
            !done ==> final(self)@ == old(self)@,
    {
        if self.contains_key(&key) {
            self.upsert(key, entry);
            true
        } else {
            false
        }
    }

    /// Removes `key`. Says whether it was held.
    pub fn delete(&mut self, key: &String) -> (done: bool)
        ensures
            done == old(self)@.contains_key(key@),
            final(self)@ == old(self)@.remove(key@),
    {
        proof {
            use_type_invariant(&*self);
            lemma_entries_map(bindings(self.slots@));
        }
        let found = self.position(key);
        match found {
            Some(i) => {
                let ghost before = bindings(self.slots@);
                let mut slots: Vec<(String, Entry)> = Vec::new();
                std::mem::swap(&mut slots, &mut self.slots);
                proof {
                    assert(bindings(self.slots@) =~= Seq::<Binding>::empty());
                }
                let _ = slots.remove(i);
                proof {
                    let after = bindings(slots@);
                    assert(after =~= before.remove(i as int));
                    assert(before[i as int].0 == key@);
                    lemma_remove_binding(before, i as int);
                }
                self.slots = slots;
                true
            },
            None => {
                assert(self@.remove(key@) =~= self@);
                false
            },
        }
    }

    /// Removes every entry that has expired at `now`.
    pub fn sweep_expired(&mut self, now: Timestamp)
        ensures
            final(self)@ == without_expired(old(self)@, now),
    {
        proof {
            use_type_invariant(&*self);
        }
        let ghost target = without_expired(self@, now);
        let mut slots: Vec<(String, Entry)> = Vec::new();
        std::mem::swap(&mut slots, &mut self.slots);
        proof {
            assert(bindings(self.slots@) =~= Seq::<Binding>::empty());
        }
        let mut kept: Vec<(String, Entry)> = Vec::new();
        proof {
            assert(bindings(kept@) =~= Seq::<Binding>::empty());
            assert(bindings(kept@) + bindings(slots@) =~= bindings(slots@));
            assert(entries_map(bindings(kept@)).union_prefer_right(
                without_expired(entries_map(bindings(slots@)), now),
            ) =~= target);
        }
        while slots.len() > 0
            invariant
                distinct_keys(bindings(kept@) + bindings(slots@)),
                entries_map(bindings(kept@)).union_prefer_right(
                    without_expired(entries_map(bindings(slots@)), now),
                ) == target,
            decreases slots.len(),
        {
            let ghost rest_before = bindings(slots@);
            let ghost kept_before = bindings(kept@);
            let slot = slots.pop().unwrap();
            let ghost binding: Binding = (slot.0@, slot.1@);
            let ghost rest = bindings(slots@);
            proof {
                assert(rest =~= rest_before.drop_last());
                assert(rest_before.last() == binding);
                lemma_entries_map(rest);
                lemma_entries_map(kept_before);
                let all = kept_before + rest_before;
                assert(!has_key(rest, binding.0)) by {
                    if has_key(rest, binding.0) {
                        let i = choose|i: int|
                            0 <= i < rest.len() && (#[trigger] rest[i]).0 == binding.0;
                        assert(all[kept_before.len() + i] == rest[i]);
                        assert(all[all.len() - 1] == binding);
                    }
                }
                assert(!has_key(kept_before, binding.0)) by {
                    if has_key(kept_before, binding.0) {
                        let i = choose|i: int|
                            0 <= i < kept_before.len() && (#[trigger] kept_before[i]).0
                                == binding.0;
                        assert(all[i] == kept_before[i]);
                        assert(all[all.len() - 1] == binding);
                    }
                }
            }
            if slot.1.is_live(now) {
                kept.push(slot);
                proof {
                    let kept_after = bindings(kept@);
                    assert(kept_after =~= kept_before.push(binding));
                    assert(kept_after.drop_last() =~= kept_before);
                    assert(entries_map(kept_after).union_prefer_right(
                        without_expired(entries_map(rest), now),
                    ) =~= target);
                    lemma_move_binding(kept_before, rest_before);
                }
            } else {
                proof {
                    assert(entries_map(kept_before).union_prefer_right(
                        without_expired(entries_map(rest), now),
                    ) =~= target);
                    lemma_drop_binding(kept_before, rest_before);
                }
            }
        }
        proof {
            assert(bindings(slots@) =~= Seq::<Binding>::empty());
            assert(bindings(kept@) + bindings(slots@) =~= bindings(kept@));
            assert(entries_map(bindings(kept@)) =~= target);
        }
        self.slots = kept;
    }

    /// A copy of every key with its entry, each key once, for writing out.
    pub fn snapshot_view(&self) -> (image: Vec<(String, Entry)>)
        ensures
            distinct_keys(bindings(image@)),
            entries_map(bindings(image@)) == self@,
    {
        proof {
            use_type_invariant(self);
        }
        let n: usize = self.slots.len();
        let mut image: Vec<(String, Entry)> = Vec::new();
        let mut i: usize = 0;
        while i < n
            invariant
                i <= n,
                n == self.slots.len(),
                bindings(image@) =~= bindings(self.slots@).take(i as int),
            decreases n - i,
        {
            let key = self.slots[i].0.clone();
            let entry = self.slots[i].1.clone();
            let ghost before = bindings(image@);
            let ghost binding: Binding = (key@, entry@);
            image.push((key, entry));
            proof {
                assert(bindings(image@) =~= before.push(binding));
                assert(bindings(self.slots@)[i as int] == binding);
                assert(bindings(self.slots@).take(i + 1) =~= bindings(self.slots@).take(
                    i as int,
                ).push(binding));
            }
            i += 1;
        }
        assert(bindings(self.slots@).take(n as int) =~= bindings(self.slots@));
        image
    }

    /// The store that holds `pairs`, inserted in order: where a key comes
    /// more than once, its last entry stays.
    pub fn from_entries(pairs: Vec<(String, Entry)>) -> (s: Store)
        ensures
            s@ == entries_map(bindings(pairs@)),
    {
        let ghost target = entries_map(bindings(pairs@));
        let mut pairs = pairs;
        let mut store = Store::new();
        assert(entries_map(bindings(pairs@)).union_prefer_right(store@) =~= target);
        while pairs.len() > 0
            invariant
                entries_map(bindings(pairs@)).union_prefer_right(store@) == target,
            decreases pairs.len(),
        {
            let ghost before = bindings(pairs@);
            let ghost held = store@;
            let pair = pairs.pop().unwrap();
            proof {
                assert(bindings(pairs@) =~= before.drop_last());
                assert(before.last() == (pair.0@, pair.1@));
            }
            let _ = store.set_if_absent(pair.0, pair.1);
            assert(entries_map(bindings(pairs@)).union_prefer_right(store@) =~= target);
        }
        assert(bindings(pairs@) =~= Seq::<Binding>::empty());
        assert(store@ =~= target);
        store
    }
}

/// Replacing the binding at `i` by one with the same key replaces its entry
/// in the map, and no key comes twice afterwards.
proof fn lemma_update_binding(pairs: Seq<Binding>, i: int, binding: Binding)
    requires
        distinct_keys(pairs),
        0 <= i < pairs.len(),
        pairs[i].0 == binding.0,
    ensures
        distinct_keys(pairs.update(i, binding)),
        entries_map(pairs.update(i, binding)) == entries_map(pairs).insert(binding.0, binding.1),
{
    let after = pairs.update(i, binding);
    assert forall|a: int, b: int| 0 <= a < b < after.len() implies (#[trigger] after[a]).0 != (
    #[trigger] after[b]).0 by {
        assert(after[a].0 == pairs[a].0);
        assert(after[b].0 == pairs[b].0);
    }
    lemma_entries_map(pairs);
    lemma_entries_map(after);
    let want = entries_map(pairs).insert(binding.0, binding.1);
    assert forall|k: Seq<char>| entries_map(after).contains_key(k) <==> want.contains_key(k) by {
        if has_key(after, k) {
            let a = choose|a: int| 0 <= a < after.len() && (#[trigger] after[a]).0 == k;
            assert(pairs[a].0 == k);
        }
        if has_key(pairs, k) {
            let a = choose|a: int| 0 <= a < pairs.len() && (#[trigger] pairs[a]).0 == k;
            assert(after[a].0 == k);
        }
        if k == binding.0 {
            assert(after[i].0 == k);
        }
    }
    assert forall|k: Seq<char>| entries_map(after).contains_key(k) implies entries_map(after)[k]
        == want[k] by {
        let a = choose|a: int| 0 <= a < after.len() && (#[trigger] after[a]).0 == k;
        assert(entries_map(after)[after[a].0] == after[a].1);
        if a != i {
            assert(after[a] == pairs[a]);
            assert(entries_map(pairs)[pairs[a].0] == pairs[a].1);
            assert(pairs[a].0 != pairs[i].0);
        }
    }
    assert(entries_map(after) =~= want);
}

/// Taking the binding at `i` out takes its key out of the map, and no key
/// comes twice afterwards.
proof fn lemma_remove_binding(pairs: Seq<Binding>, i: int)
    requires
        distinct_keys(pairs),
        0 <= i < pairs.len(),
    ensures
        distinct_keys(pairs.remove(i)),
        entries_map(pairs.remove(i)) == entries_map(pairs).remove(pairs[i].0),
{
    let after = pairs.remove(i);
    assert forall|a: int, b: int| 0 <= a < b < after.len() implies (#[trigger] after[a]).0 != (
    #[trigger] after[b]).0 by {
        assert(after[a] == pairs[if a < i { a } else { a + 1 }]);
        assert(after[b] == pairs[if b < i { b } else { b + 1 }]);
    }
    lemma_entries_map(pairs);
    lemma_entries_map(after);
    let want = entries_map(pairs).remove(pairs[i].0);
    assert forall|k: Seq<char>| entries_map(after).contains_key(k) <==> want.contains_key(k) by {
        if has_key(after, k) {
            let a = choose|a: int| 0 <= a < after.len() && (#[trigger] after[a]).0 == k;
            let b = if a < i { a } else { a + 1 };
            assert(after[a] == pairs[b]);
            assert(pairs[b].0 == k);
            assert(pairs[b].0 != pairs[i].0);
        }
        if has_key(pairs, k) && k != pairs[i].0 {
            let b = choose|b: int| 0 <= b < pairs.len() && (#[trigger] pairs[b]).0 == k;
            let a = if b < i { b } else { b - 1 };
            assert(after[a] == pairs[b]);
            assert(after[a].0 == k);
        }
    }
    assert forall|k: Seq<char>| entries_map(after).contains_key(k) implies entries_map(after)[k]
        == want[k] by {
        let a = choose|a: int| 0 <= a < after.len() && (#[trigger] after[a]).0 == k;
        let b = if a < i { a } else { a + 1 };
        assert(after[a] == pairs[b]);
        assert(entries_map(after)[after[a].0] == after[a].1);
        assert(entries_map(pairs)[pairs[b].0] == pairs[b].1);
    }
    assert(entries_map(after) =~= want);
}

/// Moving the last binding of `right` to the end of `left` keeps the keys
/// of the two lists apart.
proof fn lemma_move_binding(left: Seq<Binding>, right: Seq<Binding>)
    requires
        right.len() > 0,
        distinct_keys(left + right),
    ensures
        distinct_keys(left.push(right.last()) + right.drop_last()),
{
    let all = left + right;
    let after = left.push(right.last()) + right.drop_last();
    assert forall|a: int, b: int| 0 <= a < b < after.len() implies (#[trigger] after[a]).0 != (
    #[trigger] after[b]).0 by {
        let n = left.len() as int;
        let a0 = if a < n { a } else if a == n { all.len() - 1 } else { a - 1 };
        let b0 = if b < n { b } else if b == n { all.len() - 1 } else { b - 1 };
        assert(after[a] == all[a0]);
        assert(after[b] == all[b0]);
        if a0 < b0 {
            assert(all[a0].0 != all[b0].0);
        } else {
            assert(all[b0].0 != all[a0].0);
        }
    }
}

/// Dropping the last binding of `right` keeps the keys of the two lists apart.
proof fn lemma_drop_binding(left: Seq<Binding>, right: Seq<Binding>)
    requires
        right.len() > 0,
        distinct_keys(left + right),
    ensures
        distinct_keys(left + right.drop_last()),
{
    let all = left + right;
    let after = left + right.drop_last();
    assert forall|a: int, b: int| 0 <= a < b < after.len() implies (#[trigger] after[a]).0 != (
    #[trigger] after[b]).0 by {
        assert(after[a] == all[a]);
        assert(after[b] == all[b]);
    }
}


/// A read and a sweep use one test for expiry: a sweep at `now` takes out
/// exactly the keys that a read at `now` does not find, and changes no read
/// made at `now` or later.
pub proof fn lemma_sweep_agrees_with_read(
    m: StoreView,
    key: Seq<char>,
    now: Timestamp,
    later: Timestamp,
)
    requires
        !later.before(now),
    ensures
        without_expired(m, now).contains_key(key) <==> lookup(m, key, now) is Some,
        lookup(without_expired(m, now), key, later) == lookup(m, key, later),
{
}

/// Sweeping twice at one instant is sweeping once.
pub proof fn lemma_sweep_is_idempotent(m: StoreView, now: Timestamp)
    ensures
        without_expired(without_expired(m, now), now) == without_expired(m, now),
{
    assert(without_expired(without_expired(m, now), now) =~= without_expired(m, now));
}

} // verus!
