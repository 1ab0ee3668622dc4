use vstd::prelude::*;

verus! {

/// An association table with i64 keys, held as a vector sorted strictly by
/// key. It backs the node table, the adjacency graph and the search's
/// predecessor map, and its sorted layout makes serialization deterministic.
#[derive(Debug)]
pub struct SortedMap<V> {
    pub entries: Vec<(i64, V)>,
}

pub open spec fn strictly_sorted<V>(s: Seq<(i64, V)>) -> bool {
    forall|i: int, j: int| #![trigger s[i], s[j]] 0 <= i < j < s.len() ==> s[i].0 < s[j].0
}

/// The mathematical mapping held by an entry sequence; later entries win.
pub open spec fn as_map_of<V>(s: Seq<(i64, V)>) -> Map<i64, V>
    decreases s.len(),
{
    if s.len() == 0 {
        Map::empty()
    } else {
        as_map_of(s.drop_last()).insert(s.last().0, s.last().1)
    }
}

impl<V> View for SortedMap<V> {
    type V = Map<i64, V>;

    open spec fn view(&self) -> Map<i64, V> {
        as_map_of(self.entries@)
    }
}

/// A strictly sorted entry sequence denotes each of its entries, nothing
/// else, and its mapping's domain is exactly as large as it is.
pub proof fn lemma_as_map_props<V>(s: Seq<(i64, V)>)
    requires
        strictly_sorted(s),
    ensures
        forall|i: int|
            0 <= i < s.len() ==> as_map_of(s).contains_key((#[trigger] s[i]).0) && as_map_of(
                s,
            )[s[i].0] == s[i].1,
        forall|k: i64|
            as_map_of(s).contains_key(k) ==> exists|i: int|
                0 <= i < s.len() && (#[trigger] s[i]).0 == k,
        as_map_of(s).dom().finite(),
        as_map_of(s).dom().len() == s.len(),
    decreases s.len(),
{
    if s.len() > 0 {
        let p = s.drop_last();
        assert(strictly_sorted(p));
        lemma_as_map_props(p);
        assert(!as_map_of(p).contains_key(s.last().0)) by {
            if as_map_of(p).contains_key(s.last().0) {
                let i = choose|i: int| 0 <= i < p.len() && (#[trigger] p[i]).0 == s.last().0;
                assert(s[i].0 < s[s.len() - 1].0);
            }
        }
        assert forall|i: int| 0 <= i < s.len() implies as_map_of(s).contains_key(
            (#[trigger] s[i]).0,
        ) && as_map_of(s)[s[i].0] == s[i].1 by {
            if i < s.len() - 1 {
                assert(p[i] == s[i]);
                assert(s[i].0 < s.last().0);
            }
        }
        assert forall|k: i64| as_map_of(s).contains_key(k) implies exists|i: int|
            0 <= i < s.len() && (#[trigger] s[i]).0 == k by {
            if k == s.last().0 {
                assert(s[s.len() - 1].0 == k);
            } else {
                let i = choose|i: int| 0 <= i < p.len() && (#[trigger] p[i]).0 == k;
                assert(s[i].0 == k);
            }
        }
    }
}

/// Updating the value at a held key denotes inserting over that key.
proof fn lemma_as_map_update<V>(s: Seq<(i64, V)>, i: int, v: V)
    requires
        strictly_sorted(s),
        0 <= i < s.len(),
    ensures
        as_map_of(s.update(i, (s[i].0, v))) == as_map_of(s).insert(s[i].0, v),
        strictly_sorted(s.update(i, (s[i].0, v))),
    decreases s.len(),
{
    let s2 = s.update(i, (s[i].0, v));
    assert(strictly_sorted(s2));
    if i == s.len() - 1 {
        assert(s2.drop_last() =~= s.drop_last());
        assert(as_map_of(s2) =~= as_map_of(s).insert(s[i].0, v));
    } else {
        let p = s.drop_last();
        assert(strictly_sorted(p));
        lemma_as_map_update(p, i, v);
        assert(s2.drop_last() =~= p.update(i, (s[i].0, v)));
        assert(s2.last() == s.last());
        assert(p[i] == s[i]);
        assert(s[i].0 != s.last().0);
        assert(as_map_of(s2) =~= as_map_of(s).insert(s[i].0, v));
    }
}

/// Inserting a fresh key at its ordered position denotes map insertion.
proof fn lemma_as_map_insert_at<V>(s: Seq<(i64, V)>, i: int, k: i64, v: V)
    requires
        strictly_sorted(s),
        0 <= i <= s.len(),
        forall|j: int| 0 <= j < i ==> (#[trigger] s[j]).0 < k,
        forall|j: int| i <= j < s.len() ==> k < (#[trigger] s[j]).0,
    ensures
        as_map_of(s.insert(i, (k, v))) == as_map_of(s).insert(k, v),
        strictly_sorted(s.insert(i, (k, v))),
    decreases s.len(),
{
    let s2 = s.insert(i, (k, v));
    assert(forall|j: int| 0 <= j < i ==> s2[j] == s[j]);
    assert(s2[i] == (k, v));
    assert(forall|j: int| i < j < s2.len() ==> s2[j] == s[j - 1]);
    assert(strictly_sorted(s2));
    if i == s.len() {
        assert(s2.drop_last() =~= s);
        assert(s2.last() == (k, v));
    } else {
        let p = s.drop_last();
        assert(strictly_sorted(p));
        lemma_as_map_insert_at(p, i, k, v);
        assert(s2.drop_last() =~= p.insert(i, (k, v)));
        assert(s2.last() == s.last());
        assert(k != s.last().0);
        assert(as_map_of(s2) =~= as_map_of(s).insert(k, v));
    }
}

impl<V> SortedMap<V> {
    pub open spec fn wf(self) -> bool {
        strictly_sorted(self.entries@)
    }

    pub fn new() -> (r: Self)
        ensures
            r.wf(),
            r@ == Map::<i64, V>::empty(),
            r.entries@.len() == 0,
    {
        SortedMap { entries: Vec::new() }
    }

    pub fn len(&self) -> (r: usize)
        ensures
            r == self.entries@.len(),
    {
        self.entries.len()
    }

    /// The position of the first key not below k, and whether k itself is held
    /// there.
    fn locate(&self, k: i64) -> (r: (bool, usize))
        requires
            self.wf(),
        ensures
            r.1 <= self.entries@.len(),
            forall|j: int| 0 <= j < r.1 ==> (#[trigger] self.entries@[j]).0 < k,
            r.0 ==> r.1 < self.entries@.len() && self.entries@[r.1 as int].0 == k,
            !r.0 ==> forall|j: int|
                r.1 <= j < self.entries@.len() ==> k < (#[trigger] self.entries@[j]).0,
    {
        let n = self.entries.len();
        let mut i: usize = 0;
        while i < n && self.entries[i].0 < k
            invariant
                self.wf(),
                n == self.entries@.len(),
                0 <= i <= n,
                forall|j: int| 0 <= j < i ==> (#[trigger] self.entries@[j]).0 < k,
            decreases n - i,
        {
            i = i + 1;
        }
        if i < n && self.entries[i].0 == k {
            (true, i)
        } else {
            (false, i)
        }
    }

    pub fn contains_key(&self, k: i64) -> (r: bool)
        requires
            self.wf(),
        ensures
            r == self@.contains_key(k),
    {
        proof {
            lemma_as_map_props(self.entries@);
        }
        let (found, _) = self.locate(k);
        found
    }

    pub fn get(&self, k: i64) -> (r: Option<&V>)
        requires
            self.wf(),
        ensures
            match r {
                Some(v) => self@.contains_key(k) && *v == self@[k],
                None => !self@.contains_key(k),
            },
    {
        proof {
            lemma_as_map_props(self.entries@);
        }
        let (found, i) = self.locate(k);
        if found {
            Some(&self.entries[i].1)
        } else {
            None
        }
    }

    /// Bind k to v, keeping the entries sorted.
    pub fn set(&mut self, k: i64, v: V)
        requires
            old(self).wf(),
        ensures
            final(self).wf(),
            final(self)@ == old(self)@.insert(k, v),
            old(self)@.contains_key(k) ==> final(self).entries@.len() == old(
                self,
            ).entries@.len(),
            !old(self)@.contains_key(k) ==> final(self).entries@.len() == old(
                self,
            ).entries@.len() + 1,
    {
        proof {
            lemma_as_map_props(self.entries@);
        }
        let (found, i) = self.locate(k);
        if found {
            proof {
                lemma_as_map_update(self.entries@, i as int, v);
            }
            self.entries[i] = (k, v);
        } else {
            proof {
                lemma_as_map_insert_at(self.entries@, i as int, k, v);
                if old(self)@.contains_key(k) {
                    let j = choose|j: int|
                        0 <= j < old(self).entries@.len() && (#[trigger] old(
                            self,
                        ).entries@[j]).0 == k;
                }
            }
            self.entries.insert(i, (k, v));
        }
    }
}

/// Adjacent order gives total order in a sorted entry sequence.
proof fn lemma_sorted_from_adjacent<V>(s: Seq<(i64, V)>, i: int, j: int)
    requires
        forall|k: int| 0 <= k < s.len() - 1 ==> (#[trigger] s[k]).0 < s[k + 1].0,
        0 <= i < j < s.len(),
    ensures
        s[i].0 < s[j].0,
    decreases j - i,
{
    if j == i + 1 {
    } else {
        lemma_sorted_from_adjacent(s, i, j - 1);
        assert(s[j - 1].0 < s[j].0);
    }
}

/// Whether the entries are strictly sorted by key; what a cache artifact
/// must show before it is accepted as a table.
pub fn entries_strictly_sorted<V>(entries: &Vec<(i64, V)>) -> (r: bool)
    ensures
        r == strictly_sorted(entries@),
{
    let n = entries.len();
    if n == 0 {
        return true;
    }
    let mut i: usize = 0;
    while i < n - 1
        invariant
            n == entries@.len(),
            n >= 1,
            0 <= i <= n - 1,
            forall|k: int| 0 <= k < i ==> (#[trigger] entries@[k]).0 < entries@[k + 1].0,
        decreases n - i,
    {
        if entries[i].0 >= entries[i + 1].0 {
            return false;
        }
        i = i + 1;
    }
    proof {
        assert forall|a: int, b: int|
            #![trigger entries@[a], entries@[b]]
            0 <= a < b < entries@.len() implies entries@[a].0 < entries@[b].0 by {
            lemma_sorted_from_adjacent(entries@, a, b);
        }
    }
    true
}

/// A table whose keys all lie in another's has no more entries.
pub proof fn lemma_submap_len<V, W>(a: SortedMap<V>, b: SortedMap<W>)
    requires
        a.wf(),
        b.wf(),
        forall|k: i64| a@.contains_key(k) ==> b@.contains_key(k),
    ensures
        a.entries@.len() <= b.entries@.len(),
{
    lemma_as_map_props(a.entries@);
    lemma_as_map_props(b.entries@);
    assert(a@.dom().subset_of(b@.dom()));
    vstd::set_lib::lemma_len_subset(a@.dom(), b@.dom());
}

} // verus!
