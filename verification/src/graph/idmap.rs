use vstd::prelude::*;

verus! {

broadcast use vstd::array::group_array_axioms;

/// A protocol identity: 32 bytes.
pub type Id32 = [u8; 32];

/// Byte-wise equality of two protocol identities.
pub fn ids_equal(a: &[u8; 32], b: &[u8; 32]) -> (r: bool)
    ensures
        r == (*a == *b),
{
    let mut i: usize = 0;
    while i < 32
        invariant
            0 <= i <= 32,
            forall|j: int| 0 <= j < i ==> a[j] == b[j],
        decreases 32 - i,
    {
        if a[i] != b[i] {
            return false;
        }
        i = i + 1;
    }
    assert(*a =~= *b);
    true
}

/// A finite map keyed by 32-byte identities, stored as a list of entries in
/// which no identity occurs twice. (std's `HashMap` carries contracts only for
/// key types with a known hashing model, which 32-byte arrays do not have.)
#[derive(Debug)]
pub struct IdMap<V> {
    entries: Vec<([u8; 32], V)>,
}

spec fn unique_keys<V>(s: Seq<([u8; 32], V)>) -> bool {
    forall|i: int, j: int|
        0 <= i < s.len() && 0 <= j < s.len() && i != j ==> #[trigger] s[i].0 != #[trigger] s[j].0
}

spec fn holds_at<V>(s: Seq<([u8; 32], V)>, k: [u8; 32], i: int) -> bool {
    0 <= i < s.len() && s[i].0 == k
}

spec fn has_key<V>(s: Seq<([u8; 32], V)>, k: [u8; 32]) -> bool {
    exists|i: int| #[trigger] holds_at(s, k, i)
}

spec fn slot<V>(s: Seq<([u8; 32], V)>, k: [u8; 32]) -> int {
    choose|i: int| #[trigger] holds_at(s, k, i)
}

spec fn entries_map<V>(s: Seq<([u8; 32], V)>) -> Map<[u8; 32], V> {
    Map::new(|k: [u8; 32]| has_key(s, k), |k: [u8; 32]| s[slot(s, k)].1)
}

proof fn lemma_slot<V>(s: Seq<([u8; 32], V)>, k: [u8; 32], i: int)
    requires
        unique_keys(s),
        holds_at(s, k, i),
    ensures
        has_key(s, k),
        slot(s, k) == i,
        entries_map(s).contains_key(k),
        entries_map(s)[k] == s[i].1,
{
    assert(holds_at(s, k, i));
    let j = slot(s, k);
    assert(holds_at(s, k, j));
    if j != i {
        assert(s[j].0 == s[i].0);
    }
}

proof fn lemma_dom_len<V>(s: Seq<([u8; 32], V)>)
    requires
        unique_keys(s),
    ensures
        entries_map(s).dom().finite(),
        entries_map(s).dom().len() == s.len(),
{
    let keys = s.map_values(|e: ([u8; 32], V)| e.0);
    assert forall|i: int, j: int| 0 <= i < keys.len() && 0 <= j < keys.len() && i != j
        implies keys[i] != keys[j] by {
        assert(s[i].0 != s[j].0);
    }
    assert(keys.no_duplicates());
    assert forall|k: [u8; 32]| entries_map(s).dom().contains(k) <==> keys.to_set().contains(k) by {
        if entries_map(s).dom().contains(k) {
            let i = slot(s, k);
            assert(keys[i] == k);
        }
        if keys.to_set().contains(k) {
            let i = choose|i: int| 0 <= i < keys.len() && keys[i] == k;
            assert(holds_at(s, k, i));
        }
    }
    assert(entries_map(s).dom() =~= keys.to_set());
    keys.unique_seq_to_set();
}

proof fn lemma_update<V>(s: Seq<([u8; 32], V)>, k: [u8; 32], v: V, i: int)
    requires
        unique_keys(s),
        holds_at(s, k, i),
    ensures
        unique_keys(s.update(i, (k, v))),
        entries_map(s.update(i, (k, v))) == entries_map(s).insert(k, v),
{
    let t = s.update(i, (k, v));
    assert(unique_keys(t));
    assert forall|q: [u8; 32]| #[trigger] entries_map(t).contains_key(q) <==> entries_map(s).insert(
        k,
        v,
    ).contains_key(q) by {
        if has_key(t, q) {
            let j = slot(t, q);
            if j != i {
                assert(holds_at(s, q, j));
            }
        }
        if has_key(s, q) && q != k {
            let j = slot(s, q);
            assert(holds_at(t, q, j));
        }
        if q == k {
            assert(holds_at(t, k, i));
        }
    }
    assert forall|q: [u8; 32]| #[trigger] entries_map(t).contains_key(q) implies entries_map(t)[q]
        == entries_map(s).insert(k, v)[q] by {
        if q == k {
            lemma_slot(t, k, i);
        } else {
            let j = slot(t, q);
            assert(holds_at(t, q, j));
            assert(j != i);
            assert(holds_at(s, q, j));
            lemma_slot(s, q, j);
            lemma_slot(t, q, j);
        }
    }
    assert(entries_map(t) =~= entries_map(s).insert(k, v));
}

proof fn lemma_push<V>(s: Seq<([u8; 32], V)>, k: [u8; 32], v: V)
    requires
        unique_keys(s),
        !has_key(s, k),
    ensures
        unique_keys(s.push((k, v))),
        entries_map(s.push((k, v))) == entries_map(s).insert(k, v),
{
    let t = s.push((k, v));
    let n = s.len() as int;
    assert forall|a: int, b: int| 0 <= a < t.len() && 0 <= b < t.len() && a != b
        implies #[trigger] t[a].0 != #[trigger] t[b].0 by {
        if a == n {
            assert(!holds_at(s, k, b));
        } else if b == n {
            assert(!holds_at(s, k, a));
        }
    }
    assert forall|q: [u8; 32]| #[trigger] entries_map(t).contains_key(q) <==> entries_map(s).insert(
        k,
        v,
    ).contains_key(q) by {
        if has_key(t, q) {
            let j = slot(t, q);
            if j != n {
                assert(holds_at(s, q, j));
            }
        }
        if has_key(s, q) {
            let j = slot(s, q);
            assert(holds_at(t, q, j));
        }
        if q == k {
            assert(holds_at(t, k, n));
        }
    }
    assert forall|q: [u8; 32]| #[trigger] entries_map(t).contains_key(q) implies entries_map(t)[q]
        == entries_map(s).insert(k, v)[q] by {
        if q == k {
            lemma_slot(t, k, n);
        } else {
            let j = slot(t, q);
            assert(holds_at(t, q, j));
            assert(j != n);
            assert(holds_at(s, q, j));
            lemma_slot(s, q, j);
            lemma_slot(t, q, j);
        }
    }
    assert(entries_map(t) =~= entries_map(s).insert(k, v));
}

proof fn lemma_swap_remove<V>(s: Seq<([u8; 32], V)>, k: [u8; 32], i: int)
    requires
        unique_keys(s),
        holds_at(s, k, i),
    ensures
        unique_keys(s.update(i, s.last()).drop_last()),
        entries_map(s.update(i, s.last()).drop_last()) == entries_map(s).remove(k),
{
    let n = s.len() as int;
    let t = s.update(i, s.last()).drop_last();
    assert forall|a: int, b: int| 0 <= a < t.len() && 0 <= b < t.len() && a != b
        implies #[trigger] t[a].0 != #[trigger] t[b].0 by {
        let oa = if a == i { n - 1 } else { a };
        let ob = if b == i { n - 1 } else { b };
        assert(t[a] == s[oa]);
        assert(t[b] == s[ob]);
    }
    assert forall|q: [u8; 32]| #[trigger] entries_map(t).contains_key(q) <==> entries_map(s).remove(
        k,
    ).contains_key(q) by {
        if has_key(t, q) {
            let j = slot(t, q);
            let oj = if j == i { n - 1 } else { j };
            assert(holds_at(s, q, oj));
            if q == k {
                lemma_slot(s, k, i);
                lemma_slot(s, k, oj);
            }
        }
        if has_key(s, q) && q != k {
            let j = slot(s, q);
            assert(j != i);
            if j == n - 1 {
                assert(holds_at(t, q, i));
            } else {
                assert(holds_at(t, q, j));
            }
        }
    }
    assert forall|q: [u8; 32]| #[trigger] entries_map(t).contains_key(q) implies entries_map(t)[q]
        == entries_map(s).remove(k)[q] by {
        let j = slot(t, q);
        assert(holds_at(t, q, j));
        let oj = if j == i { n - 1 } else { j };
        assert(holds_at(s, q, oj));
        lemma_slot(s, q, oj);
        lemma_slot(t, q, j);
    }
    assert(entries_map(t) =~= entries_map(s).remove(k));
}

impl<V> IdMap<V> {
    #[verifier::type_invariant]
    spec fn keys_unique(self) -> bool {
        unique_keys(self.entries@)
    }

    /// The map from identity to value that this list holds.
    pub closed spec fn map(self) -> Map<[u8; 32], V> {
        entries_map(self.entries@)
    }

    /// The empty map.
    pub fn new() -> (m: Self)
        ensures
            m@ == Map::<[u8; 32], V>::empty(),
    {
        let m = IdMap { entries: Vec::new() };
        assert(m.map() =~= Map::<[u8; 32], V>::empty());
        m
    }

    /// Number of identities held.
    pub fn len(&self) -> (n: usize)
        ensures
            self@.dom().finite(),
            n == self@.len(),
    {
        proof {
            use_type_invariant(self);
            lemma_dom_len(self.entries@);
        }
        self.entries.len()
    }

    /// Position of an identity in the entry list.
    fn find(&self, k: &[u8; 32]) -> (r: Option<usize>)
        ensures
            match r {
                Some(i) => holds_at(self.entries@, *k, i as int),
                None => !has_key(self.entries@, *k),
            },
    {
        let n = self.entries.len();
        let mut i: usize = 0;
        while i < n
            invariant
                n == self.entries@.len(),
                0 <= i <= n,
                forall|j: int| 0 <= j < i ==> self.entries@[j].0 != *k,
            decreases n - i,
        {
            if ids_equal(&self.entries[i].0, k) {
                return Some(i);
            }
            i = i + 1;
        }
        assert forall|j: int| !holds_at(self.entries@, *k, j) by {}
        None
    }

    /// Whether the identity is held.
    pub fn contains_key(&self, k: &[u8; 32]) -> (r: bool)
        ensures
            r == self@.contains_key(*k),
    {
        match self.find(k) {
            Some(_) => true,
            None => false,
        }
    }

    /// The value held for an identity.
    pub fn get(&self, k: &[u8; 32]) -> (r: Option<&V>)
        ensures
            match r {
                Some(v) => self@.contains_key(*k) && *v == self@[*k],
                None => !self@.contains_key(*k),
            },
    {
        proof {
            use_type_invariant(self);
        }
        match self.find(k) {
            Some(i) => {
                proof {
                    lemma_slot(self.entries@, *k, i as int);
                }
                Some(&self.entries[i].1)
            },
            None => None,
        }
    }

    /// Hold `v` for `k`, replacing any value held before.
    pub fn insert(&mut self, k: [u8; 32], v: V)
        ensures
            final(self)@ == old(self)@.insert(k, v),
    {
        proof {
            use_type_invariant(&*self);
        }
        let found = self.find(&k);
        let mut entries: Vec<([u8; 32], V)> = Vec::new();
        std::mem::swap(&mut entries, &mut self.entries);
        let ghost s = entries@;
        match found {
            Some(i) => {
                let _old = entries.remove(i);
                entries.insert(i, (k, v));
                proof {
                    assert(entries@ =~= s.update(i as int, (k, v)));
                    lemma_update(s, k, v, i as int);
                }
            },
            None => {
                proof {
                    lemma_push(s, k, v);
                }
                entries.push((k, v));
            },
        }
        self.entries = entries;
    }

    /// Remove the value held for `k`, handing it back.
    pub fn take(&mut self, k: &[u8; 32]) -> (r: Option<V>)
        ensures
            final(self)@ == old(self)@.remove(*k),
            match r {
                Some(v) => old(self)@.contains_key(*k) && v == old(self)@[*k],
                None => !old(self)@.contains_key(*k),
            },
    {
        proof {
            use_type_invariant(&*self);
        }
        let found = self.find(k);
        match found {
            Some(i) => {
                let mut entries: Vec<([u8; 32], V)> = Vec::new();
                std::mem::swap(&mut entries, &mut self.entries);
                let ghost s = entries@;
                proof {
                    lemma_slot(s, *k, i as int);
                    lemma_swap_remove(s, *k, i as int);
                }
                let e = entries.swap_remove(i);
                self.entries = entries;
                Some(e.1)
            },
            None => {
                proof {
                    assert(self.map().remove(*k) =~= self.map());
                }
                None
            },
        }
    }
}

impl<V> View for IdMap<V> {
    type V = Map<[u8; 32], V>;

    open spec fn view(&self) -> Map<[u8; 32], V> {
        self.map()
    }
}

} // verus!
