use vstd::prelude::*;

verus! {

/// A 32-byte key: an account key or a contract id.
pub type Key = [u8; 32];

/// The map described by a sequence of entries, later entries taking precedence.
pub open spec fn entries_to_map<V>(s: Seq<(Key, V)>) -> Map<Seq<u8>, V>
    decreases s.len(),
{
    if s.len() == 0 {
        Map::empty()
    } else {
        entries_to_map(s.drop_last()).insert(s.last().0@, s.last().1)
    }
}

/// No two entries share a key.
pub open spec fn keys_distinct<V>(s: Seq<(Key, V)>) -> bool {
    forall|i: int, j: int| 0 <= i < j < s.len() ==> s[i].0@ != s[j].0@
}

/// A key belongs to the map exactly when some entry carries it.
pub proof fn lemma_entries_dom<V>(s: Seq<(Key, V)>, k: Seq<u8>)
    ensures
        entries_to_map(s).dom().contains(k) <==> exists|i: int| 0 <= i < s.len() && s[i].0@ == k,
        entries_to_map(s).dom().finite(),
    decreases s.len(),
{
    if s.len() > 0 {
        lemma_entries_dom(s.drop_last(), k);
        if entries_to_map(s.drop_last()).dom().contains(k) {
            let i = choose|i: int| 0 <= i < s.drop_last().len() && s.drop_last()[i].0@ == k;
            assert(s[i].0@ == k);
        }
        if exists|i: int| 0 <= i < s.len() && s[i].0@ == k {
            let i = choose|i: int| 0 <= i < s.len() && s[i].0@ == k;
            if i < s.len() - 1 {
                assert(s.drop_last()[i].0@ == k);
            }
        }
    }
}

/// With distinct keys, the value stored under an entry's key is that entry's value.
pub proof fn lemma_entries_value<V>(s: Seq<(Key, V)>, i: int)
    requires
        keys_distinct(s),
        0 <= i < s.len(),
    ensures
        entries_to_map(s).dom().contains(s[i].0@),
        entries_to_map(s)[s[i].0@] == s[i].1,
    decreases s.len(),
{
    if i < s.len() - 1 {
        assert(keys_distinct(s.drop_last()));
        assert(s.drop_last()[i] == s[i]);
        lemma_entries_value(s.drop_last(), i);
    }
}

/// Replacing the value of one entry updates the map at that key.
pub proof fn lemma_entries_update<V>(s: Seq<(Key, V)>, i: int, k: Key, v: V)
    requires
        keys_distinct(s),
        0 <= i < s.len(),
        k@ == s[i].0@,
    ensures
        keys_distinct(s.update(i, (k, v))),
        entries_to_map(s.update(i, (k, v))) == entries_to_map(s).insert(s[i].0@, v),
{
    let t = s.update(i, (k, v));
    assert(keys_distinct(t)) by {
        assert forall|a: int, b: int| 0 <= a < b < t.len() implies t[a].0@ != t[b].0@ by {
            assert(t[a].0@ == s[a].0@ && t[b].0@ == s[b].0@);
        }
    }
    let m = entries_to_map(s).insert(s[i].0@, v);
    assert forall|k: Seq<u8>| #[trigger] m.dom().contains(k) == entries_to_map(t).dom().contains(k) by {
        lemma_entries_dom(s, k);
        lemma_entries_dom(t, k);
        if exists|j: int| 0 <= j < s.len() && s[j].0@ == k {
            let j = choose|j: int| 0 <= j < s.len() && s[j].0@ == k;
            assert(t[j].0@ == s[j].0@);
        }
        if exists|j: int| 0 <= j < t.len() && t[j].0@ == k {
            let j = choose|j: int| 0 <= j < t.len() && t[j].0@ == k;
            assert(s[j].0@ == t[j].0@);
        }
    }
    assert forall|k: Seq<u8>| #[trigger] m.dom().contains(k) implies m[k] == entries_to_map(t)[k] by {
        lemma_entries_dom(t, k);
        let j = choose|j: int| 0 <= j < t.len() && t[j].0@ == k;
        lemma_entries_value(t, j);
        if j != i {
            lemma_entries_value(s, j);
        }
    }
    lemma_entries_dom(s, s[i].0@);
    assert(m =~= entries_to_map(t));
}

/// Removing one entry removes its key from the map.
pub proof fn lemma_entries_remove<V>(s: Seq<(Key, V)>, i: int)
    requires
        keys_distinct(s),
        0 <= i < s.len(),
    ensures
        keys_distinct(s.remove(i)),
        entries_to_map(s.remove(i)) == entries_to_map(s).remove(s[i].0@),
{
    let t = s.remove(i);
    assert(keys_distinct(t)) by {
        assert forall|a: int, b: int| 0 <= a < b < t.len() implies t[a].0@ != t[b].0@ by {
            let a2 = if a < i { a } else { a + 1 };
            let b2 = if b < i { b } else { b + 1 };
            assert(t[a] == s[a2] && t[b] == s[b2]);
        }
    }
    let m = entries_to_map(s).remove(s[i].0@);
    assert forall|k: Seq<u8>| #[trigger] m.dom().contains(k) == entries_to_map(t).dom().contains(k) by {
        lemma_entries_dom(s, k);
        lemma_entries_dom(t, k);
        if exists|j: int| 0 <= j < t.len() && t[j].0@ == k {
            let j = choose|j: int| 0 <= j < t.len() && t[j].0@ == k;
            let j2 = if j < i { j } else { j + 1 };
            assert(s[j2].0@ == k);
            assert(k != s[i].0@);
        }
        if k != s[i].0@ && exists|j: int| 0 <= j < s.len() && s[j].0@ == k {
            let j = choose|j: int| 0 <= j < s.len() && s[j].0@ == k;
            let j2 = if j < i { j } else { j - 1 };
            assert(t[j2].0@ == k);
        }
    }
    assert forall|k: Seq<u8>| #[trigger] m.dom().contains(k) implies m[k] == entries_to_map(t)[k] by {
        lemma_entries_dom(t, k);
        let j = choose|j: int| 0 <= j < t.len() && t[j].0@ == k;
        let j2 = if j < i { j } else { j + 1 };
        lemma_entries_value(t, j);
        lemma_entries_value(s, j2);
    }
    assert(m =~= entries_to_map(t));
}

/// With distinct keys, the map has exactly as many keys as there are entries.
pub proof fn lemma_entries_len<V>(s: Seq<(Key, V)>)
    requires
        keys_distinct(s),
    ensures
        entries_to_map(s).dom().finite(),
        entries_to_map(s).dom().len() == s.len(),
    decreases s.len(),
{
    lemma_entries_dom(s, Seq::empty());
    if s.len() > 0 {
        assert(keys_distinct(s.drop_last()));
        lemma_entries_len(s.drop_last());
        lemma_entries_dom(s.drop_last(), s.last().0@);
        if entries_to_map(s.drop_last()).dom().contains(s.last().0@) {
            let j = choose|j: int|
                0 <= j < s.drop_last().len() && s.drop_last()[j].0@ == s.last().0@;
            assert(s[j].0@ == s[s.len() - 1].0@);
        }
    }
}

/// Compares two keys byte by byte.
pub fn key_eq(a: &Key, b: &Key) -> (r: bool)
    ensures
        r == (a@ == b@),
{
    let mut i: usize = 0;
    while i < 32
        invariant
            0 <= i <= 32,
            a@.len() == 32,
            b@.len() == 32,
            forall|j: int| 0 <= j < i ==> a@[j] == b@[j],
        decreases 32 - i,
    {
        if a[i] != b[i] {
            return false;
        }
        i = i + 1;
    }
    assert(a@ =~= b@);
    true
}

/// The position of the first key equal to `k`, if any.
fn find_key(keys: &Vec<Key>, k: &Key) -> (r: Option<usize>)
    ensures
        match r {
            Some(i) => i < keys@.len() && keys@[i as int]@ == k@,
            None => forall|j: int| 0 <= j < keys@.len() ==> keys@[j]@ != k@,
        },
{
    let mut i: usize = 0;
    while i < keys.len()
        invariant
            0 <= i <= keys@.len(),
            forall|j: int| 0 <= j < i ==> keys@[j]@ != k@,
        decreases keys@.len() - i,
    {
        if key_eq(&keys[i], k) {
            return Some(i);
        }
        i = i + 1;
    }
    None
}

/// The views of a list of keys.
pub open spec fn key_views(s: Seq<Key>) -> Seq<Seq<u8>> {
    s.map_values(|k: Key| k@)
}

/// Pushing a new element keeps a sequence free of duplicates.
pub proof fn lemma_push_no_duplicates<A>(s: Seq<A>, x: A)
    requires
        s.no_duplicates(),
        !s.contains(x),
    ensures
        s.push(x).no_duplicates(),
        s.push(x).to_set() == s.to_set().insert(x),
{
    let t = s.push(x);
    assert forall|i: int, j: int| 0 <= i < t.len() && 0 <= j < t.len() && i != j implies t[i] != t[j] by {
        if i == s.len() {
            assert(s[j] == t[j]);
        } else if j == s.len() {
            assert(s[i] == t[i]);
        } else {
            assert(s[i] == t[i] && s[j] == t[j]);
        }
    }
    s.lemma_push_to_set_commute(x);
}

/// What a pushed sequence contains.
pub proof fn lemma_push_contains<A>(s: Seq<A>, x: A)
    ensures
        forall|y: A| s.push(x).contains(y) <==> (s.contains(y) || y == x),
        s.push(x).to_set() == s.to_set().insert(x),
{
    let t = s.push(x);
    assert forall|y: A| t.contains(y) <==> (s.contains(y) || y == x) by {
        if t.contains(y) {
            let j = choose|j: int| 0 <= j < t.len() && t[j] == y;
            if j < s.len() {
                assert(s[j] == y);
            }
        }
        if s.contains(y) {
            let j = choose|j: int| 0 <= j < s.len() && s[j] == y;
            assert(t[j] == y);
        }
        if y == x {
            assert(t[s.len() as int] == y);
        }
    }
    s.lemma_push_to_set_commute(x);
}

/// Whether a list of keys holds a key.
pub fn keys_contain(v: &Vec<Key>, k: &Key) -> (r: bool)
    ensures
        r == key_views(v@).contains(k@),
{
    let r = find_key(v, k);
    proof {
        if let Some(i) = r {
            assert(key_views(v@)[i as int] == k@);
        } else {
            if key_views(v@).contains(k@) {
                let j = choose|j: int| 0 <= j < key_views(v@).len() && key_views(v@)[j] == k@;
                assert(v@[j]@ == k@);
            }
        }
    }
    r.is_some()
}

/// A copy of a list of keys.
pub fn copy_keys(v: &Vec<Key>) -> (r: Vec<Key>)
    ensures
        r@ == v@,
{
    let mut r: Vec<Key> = Vec::new();
    let mut i: usize = 0;
    while i < v.len()
        invariant
            0 <= i <= v@.len(),
            r@ == v@.subrange(0, i as int),
        decreases v@.len() - i,
    {
        r.push(v[i]);
        i = i + 1;
    }
    assert(r@ =~= v@);
    r
}

/// A map from 32-byte keys to values, kept as two parallel lists in insertion order.
pub struct KeyMap<V> {
    keys: Vec<Key>,
    vals: Vec<V>,
}

/// Pairs up keys and values position by position.
pub open spec fn zip_entries<V>(keys: Seq<Key>, vals: Seq<V>) -> Seq<(Key, V)> {
    Seq::new(keys.len(), |i: int| (keys[i], vals[i]))
}

impl<V> View for KeyMap<V> {
    type V = Map<Seq<u8>, V>;

    closed spec fn view(&self) -> Map<Seq<u8>, V> {
        entries_to_map(self.entries())
    }
}

impl<V> KeyMap<V> {
    /// The entries of the map in insertion order.
    pub closed spec fn entries(self) -> Seq<(Key, V)> {
        zip_entries(self.keys@, self.vals@)
    }

    #[verifier::type_invariant]
    closed spec fn well_formed(self) -> bool {
        &&& self.keys@.len() == self.vals@.len()
        &&& keys_distinct(self.entries())
    }

    /// The keys of the map, in the order in which they were first inserted.
    pub closed spec fn raw_keys(self) -> Seq<Key> {
        self.keys@
    }

    /// The views of the keys of the map, in the order in which they were first inserted.
    pub open spec fn key_seq(self) -> Seq<Seq<u8>> {
        key_views(self.raw_keys())
    }

    /// A key belongs to the map exactly when it is among its keys.
    pub proof fn lemma_dom_keys(self)
        ensures
            forall|k: Seq<u8>| self@.dom().contains(k) <==> self.key_seq().contains(k),
    {
        let e = self.entries();
        assert forall|k: Seq<u8>| self@.dom().contains(k) <==> self.key_seq().contains(k) by {
            lemma_entries_dom(e, k);
            if self.key_seq().contains(k) {
                let i = choose|i: int| 0 <= i < self.key_seq().len() && self.key_seq()[i] == k;
                assert(e[i].0@ == k);
            }
            if self@.dom().contains(k) {
                let i = choose|i: int| 0 <= i < e.len() && e[i].0@ == k;
                assert(self.key_seq()[i] == k);
            }
        }
    }

    /// Constructs an empty map.
    pub fn new() -> (r: Self)
        ensures
            r@ == Map::<Seq<u8>, V>::empty(),
            r.raw_keys() == Seq::<Key>::empty(),
    {
        let r = KeyMap { keys: Vec::new(), vals: Vec::new() };
        assert(r.entries() =~= Seq::<(Key, V)>::empty());
        r
    }

    /// Number of keys in the map; also relates the insertion order of the keys to the map.
    pub fn len(&self) -> (r: usize)
        ensures
            r == self@.dom().len(),
            r == self.key_seq().len(),
            self.key_seq().no_duplicates(),
            self@.dom().finite(),
            forall|k: Seq<u8>| self@.dom().contains(k) <==> self.key_seq().contains(k),
    {
        proof {
            use_type_invariant(self);
            let e = self.entries();
            lemma_entries_len(e);
            assert forall|k: Seq<u8>| self@.dom().contains(k) <==> self.key_seq().contains(k) by {
                lemma_entries_dom(e, k);
                if self.key_seq().contains(k) {
                    let i = choose|i: int| 0 <= i < self.key_seq().len() && self.key_seq()[i] == k;
                    assert(e[i].0@ == k);
                }
                if self@.dom().contains(k) {
                    let i = choose|i: int| 0 <= i < e.len() && e[i].0@ == k;
                    assert(self.key_seq()[i] == k);
                }
            }
            assert forall|i: int, j: int|
                0 <= i < self.key_seq().len() && 0 <= j < self.key_seq().len() && i != j
                implies self.key_seq()[i] != self.key_seq()[j] by {
                if i < j {
                    assert(e[i].0@ != e[j].0@);
                } else {
                    assert(e[j].0@ != e[i].0@);
                }
            }
        }
        self.keys.len()
    }

    /// The key at a position of the insertion order.
    pub fn key_at(&self, i: usize) -> (r: Key)
        requires
            i < self.key_seq().len(),
        ensures
            r == self.raw_keys()[i as int],
            r@ == self.key_seq()[i as int],
            self@.dom().contains(r@),
    {
        proof {
            use_type_invariant(self);
            lemma_entries_value(self.entries(), i as int);
        }
        self.keys[i]
    }

    /// The value stored under the key at a position of the insertion order.
    pub fn value_at(&self, i: usize) -> (r: &V)
        requires
            i < self.key_seq().len(),
        ensures
            self@.dom().contains(self.key_seq()[i as int]),
            *r == self@[self.key_seq()[i as int]],
    {
        proof {
            use_type_invariant(self);
            lemma_entries_value(self.entries(), i as int);
        }
        &self.vals[i]
    }

    fn find(&self, k: &Key) -> (r: Option<usize>)
        ensures
            match r {
                Some(i) => i < self.keys@.len() && self.keys@.len() == self.vals@.len()
                    && self.keys@[i as int]@ == k@
                    && self@.dom().contains(k@) && self@[k@] == self.vals@[i as int],
                None => !self@.dom().contains(k@),
            },
    {
        proof {
            use_type_invariant(self);
        }
        let r = find_key(&self.keys, k);
        proof {
            lemma_entries_dom(self.entries(), k@);
            if let Some(i) = r {
                lemma_entries_value(self.entries(), i as int);
            } else {
                if self@.dom().contains(k@) {
                    let j = choose|j: int| 0 <= j < self.entries().len() && self.entries()[j].0@ == k@;
                    assert(self.keys@[j]@ == k@);
                }
            }
        }
        r
    }

    /// Whether the key is present.
    pub fn contains_key(&self, k: &Key) -> (r: bool)
        ensures
            r == self@.dom().contains(k@),
    {
        self.find(k).is_some()
    }

    /// The value stored under a key, if any.
    pub fn get(&self, k: &Key) -> (r: Option<&V>)
        ensures
            match r {
                Some(v) => self@.dom().contains(k@) && *v == self@[k@],
                None => !self@.dom().contains(k@),
            },
    {
        match self.find(k) {
            Some(i) => Some(&self.vals[i]),
            None => None,
        }
    }

    /// Stores a value under a key; returns whether the key was absent before.
    /// A present key keeps its place in the insertion order; an absent one goes last.
    pub fn insert(&mut self, k: Key, v: V) -> (was_absent: bool)
        ensures
            final(self)@ == old(self)@.insert(k@, v),
            was_absent == !old(self)@.dom().contains(k@),
            was_absent ==> final(self).raw_keys() == old(self).raw_keys().push(k),
            !was_absent ==> final(self).raw_keys() == old(self).raw_keys(),
    {
        proof {
            use_type_invariant(&*self);
        }
        let ghost s = self.entries();
        match self.find(&k) {
            Some(i) => {
                let mut taken = KeyMap::new();
                std::mem::swap(self, &mut taken);
                let KeyMap { keys, mut vals } = taken;
                vals.set(i, v);
                proof {
                    lemma_entries_update(s, i as int, keys@[i as int], v);
                    assert(zip_entries(keys@, vals@) =~= s.update(i as int, (keys@[i as int], v)));
                }
                *self = KeyMap { keys, vals };
                assert(self.entries() == s.update(i as int, (self.keys@[i as int], v)));
                assert(self@ =~= old(self)@.insert(k@, v));
                false
            },
            None => {
                let mut taken = KeyMap::new();
                std::mem::swap(self, &mut taken);
                let KeyMap { mut keys, mut vals } = taken;
                keys.push(k);
                vals.push(v);
                proof {
                    lemma_entries_dom(s, k@);
                    let t = zip_entries(keys@, vals@);
                    assert(t.drop_last() =~= s);
                    assert(t.last() == (k, v));
                    assert(keys_distinct(t)) by {
                        assert forall|a: int, b: int| 0 <= a < b < t.len() implies t[a].0@ != t[b].0@ by {
                            if b == t.len() - 1 {
                                assert(s[a].0@ == t[a].0@);
                            } else {
                                assert(s[a] == t[a] && s[b] == t[b]);
                            }
                        }
                    }
                }
                *self = KeyMap { keys, vals };
                assert(self@ =~= old(self)@.insert(k@, v));
                true
            },
        }
    }

    /// Removes a key; returns its value if it was present.
    pub fn remove(&mut self, k: &Key) -> (r: Option<V>)
        ensures
            final(self)@ == old(self)@.remove(k@),
            match r {
                Some(v) => old(self)@.dom().contains(k@) && v == old(self)@[k@],
                None => !old(self)@.dom().contains(k@),
            },
    {
        proof {
            use_type_invariant(&*self);
        }
        let ghost s = self.entries();
        match self.find(k) {
            Some(i) => {
                let mut taken = KeyMap::new();
                std::mem::swap(self, &mut taken);
                let KeyMap { mut keys, mut vals } = taken;
                keys.remove(i);
                let v = vals.remove(i);
                proof {
                    lemma_entries_remove(s, i as int);
                    assert(zip_entries(keys@, vals@) =~= s.remove(i as int));
                }
                *self = KeyMap { keys, vals };
                assert(self@ =~= old(self)@.remove(k@));
                Some(v)
            },
            None => {
                assert(old(self)@.remove(k@) =~= old(self)@);
                None
            },
        }
    }

    /// Exchanges the value stored under a present key with `v`; returns whether the key was present.
    pub fn swap_value(&mut self, k: &Key, v: &mut V) -> (found: bool)
        ensures
            found == old(self)@.dom().contains(k@),
            found ==> final(self)@ == old(self)@.insert(k@, *old(v)) && *final(v) == old(self)@[k@],
            final(self).raw_keys() == old(self).raw_keys(),
            !found ==> final(self)@ == old(self)@ && *final(v) == *old(v),
    {
        proof {
            use_type_invariant(&*self);
        }
        let ghost s = self.entries();
        match self.find(k) {
            Some(i) => {
                let mut taken = KeyMap::new();
                std::mem::swap(self, &mut taken);
                let KeyMap { keys, mut vals } = taken;
                let ghost nv = *v;
                vals.set_and_swap(i, v);
                proof {
                    lemma_entries_update(s, i as int, keys@[i as int], nv);
                    assert(zip_entries(keys@, vals@) =~= s.update(i as int, (keys@[i as int], nv)));
                }
                *self = KeyMap { keys, vals };
                assert(self.entries() == s.update(i as int, (self.keys@[i as int], nv)));
                assert(self@ =~= old(self)@.insert(k@, nv));
                true
            },
            None => false,
        }
    }

    /// Removes every key.
    pub fn clear(&mut self)
        ensures
            final(self)@ == Map::<Seq<u8>, V>::empty(),
            final(self).raw_keys() == Seq::<Key>::empty(),
    {
        *self = KeyMap::new();
    }

    /// The keys, in insertion order.
    pub fn keys(&self) -> (r: Vec<Key>)
        ensures
            r@ == self.raw_keys(),
    {
        let mut r: Vec<Key> = Vec::new();
        let mut i: usize = 0;
        while i < self.keys.len()
            invariant
                0 <= i <= self.keys@.len(),
                r@ == self.keys@.subrange(0, i as int),
            decreases self.keys@.len() - i,
        {
            r.push(self.keys[i]);
            i = i + 1;
        }
        assert(r@ =~= self.keys@);
        r
    }
}

impl<V: Copy> KeyMap<V> {
    /// A copy of the map with the same keys, values and order.
    pub fn copy(&self) -> (r: Self)
        ensures
            r@ == self@,
            r.raw_keys() == self.raw_keys(),
    {
        proof {
            use_type_invariant(self);
        }
        let mut keys: Vec<Key> = Vec::new();
        let mut vals: Vec<V> = Vec::new();
        let mut i: usize = 0;
        while i < self.keys.len()
            invariant
                0 <= i <= self.keys@.len(),
                self.keys@.len() == self.vals@.len(),
                keys@ == self.keys@.subrange(0, i as int),
                vals@ == self.vals@.subrange(0, i as int),
            decreases self.keys@.len() - i,
        {
            keys.push(self.keys[i]);
            vals.push(self.vals[i]);
            i = i + 1;
        }
        assert(keys@ =~= self.keys@);
        assert(vals@ =~= self.vals@);
        KeyMap { keys, vals }
    }
}

impl<V: View> KeyMap<V> {
    /// The map with every value taken by its view.
    pub open spec fn deep(self) -> Map<Seq<u8>, V::V> {
        self@.map_values(|v: V| v@)
    }
}

} // verus!
