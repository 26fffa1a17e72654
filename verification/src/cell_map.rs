//! A map keyed by cell, held in the order of the cells.
use vstd::prelude::*;

verus! {

/// The keys ascend, so none is there twice.
pub open spec fn keys_ascend<V>(s: Seq<(u32, V)>) -> bool {
    forall|i: int, j: int| 0 <= i < j < s.len() ==> (#[trigger] s[i]).0 < (#[trigger] s[j]).0
}

/// The key is in the list.
pub open spec fn has_key<V>(s: Seq<(u32, V)>, cell: u32) -> bool {
    exists|i: int| 0 <= i < s.len() && (#[trigger] s[i]).0 == cell
}

/// Where the key is in the list.
pub open spec fn place_of<V>(s: Seq<(u32, V)>, cell: u32) -> int {
    choose|i: int| 0 <= i < s.len() && (#[trigger] s[i]).0 == cell
}

/// The list holds exactly the pairs of the map, keys ascending.
pub open spec fn lists<V>(s: Seq<(u32, V)>, m: Map<u32, V>) -> bool {
    &&& keys_ascend(s)
    &&& forall|i: int|
        0 <= i < s.len() ==> m.contains_key((#[trigger] s[i]).0) && m[s[i].0] == s[i].1
    &&& forall|cell: u32| #[trigger] m.contains_key(cell) ==> has_key(s, cell)
}

/// A map from cells.
#[derive(Debug)]
pub struct CellMap<V> {
    entries: Vec<(u32, V)>,
}

impl<V> View for CellMap<V> {
    type V = Map<u32, V>;

    closed spec fn view(&self) -> Map<u32, V> {
        Map::new(|cell: u32| has_key(self.entries@, cell), |cell: u32| self.entries@[place_of(self.entries@, cell)].1)
    }
}

impl<V> CellMap<V> {
    #[verifier::type_invariant]
    spec fn ascending(self) -> bool {
        keys_ascend(self.entries@)
    }

    proof fn entries_list_the_view(&self)
        requires
            self.ascending(),
        ensures
            lists(self.entries@, self@),
    {
        let s = self.entries@;
        assert forall|i: int| 0 <= i < s.len() implies self@.contains_key((#[trigger] s[i]).0)
            && self@[s[i].0] == s[i].1 by {
            let cell = s[i].0;
            assert(has_key(s, cell));
            let k = place_of(s, cell);
            assert(0 <= k < s.len() && s[k].0 == cell);
            if k < i {
                assert(s[k].0 < s[i].0);
            }
            if i < k {
                assert(s[i].0 < s[k].0);
            }
        }
    }

    /// The empty map.
    pub fn new() -> (m: CellMap<V>)
        ensures
            m@ == Map::<u32, V>::empty(),
    {
        let m = CellMap { entries: Vec::new() };
        assert(m@ =~= Map::<u32, V>::empty());
        m
    }

    /// The pairs, in the order of the cells.
    pub fn pairs(&self) -> (s: &Vec<(u32, V)>)
        ensures
            lists(s@, self@),
    {
        proof {
            use_type_invariant(self);
            self.entries_list_the_view();
        }
        &self.entries
    }

    /// The first place whose key is not below `cell`.
    fn seek(&self, cell: u32) -> (at: usize)
        ensures
            at <= self.entries.len(),
            forall|i: int| 0 <= i < at ==> (#[trigger] self.entries@[i]).0 < cell,
            forall|i: int| at <= i < self.entries.len() ==> (#[trigger] self.entries@[i]).0 >= cell,
    {
        proof {
            use_type_invariant(self);
        }
        let mut lo: usize = 0;
        let mut hi: usize = self.entries.len();
        while lo < hi
            invariant
                lo <= hi <= self.entries.len(),
                keys_ascend(self.entries@),
                forall|i: int| 0 <= i < lo ==> (#[trigger] self.entries@[i]).0 < cell,
                forall|i: int| hi <= i < self.entries.len() ==> (#[trigger] self.entries@[i]).0 >= cell,
            decreases hi - lo,
        {
            let mid: usize = lo + (hi - lo) / 2;
            if self.entries[mid].0 < cell {
                lo = mid + 1;
            } else {
                hi = mid;
            }
        }
        lo
    }

    /// What the map holds for a cell.
    pub fn get(&self, cell: u32) -> (value: Option<&V>)
        ensures
            match value {
                Some(v) => self@.contains_key(cell) && *v == self@[cell],
                None => !self@.contains_key(cell),
            },
    {
        let at: usize = self.seek(cell);
        proof {
            use_type_invariant(self);
            self.entries_list_the_view();
        }
        if at < self.entries.len() && self.entries[at].0 == cell {
            Some(&self.entries[at].1)
        } else {
            proof {
                if has_key(self.entries@, cell) {
                    let i = place_of(self.entries@, cell);
                    assert(self.entries@[i].0 == cell);
                    assert(i == at);
                }
            }
            None
        }
    }

    /// Puts a value under a cell, in place of the one that was there.
    pub fn insert(&mut self, cell: u32, value: V)
        ensures
            final(self)@ == old(self)@.insert(cell, value),
    {
        let at: usize = self.seek(cell);
        proof {
            use_type_invariant(&*self);
            self.entries_list_the_view();
        }
        let ghost before = self.entries@;
        let ghost was = self@;
        let mut entries: Vec<(u32, V)> = Vec::new();
        std::mem::swap(&mut entries, &mut self.entries);
        if at < entries.len() && entries[at].0 == cell {
            entries.set(at, (cell, value));
        } else {
            entries.insert(at, (cell, value));
        }
        proof {
            insertion_lists(before, entries@, at as int, cell, value, was);
        }
        self.entries = entries;
        proof {
            self.entries_list_the_view();
            listed_map_is_unique(self.entries@, self@, was.insert(cell, value));
        }
    }

    /// Takes a cell out.
    pub fn remove(&mut self, cell: u32) -> (value: Option<V>)
        ensures
            final(self)@ == old(self)@.remove(cell),
            match value {
                Some(v) => old(self)@.contains_key(cell) && v == old(self)@[cell],
                None => !old(self)@.contains_key(cell),
            },
    {
        let at: usize = self.seek(cell);
        proof {
            use_type_invariant(&*self);
            self.entries_list_the_view();
        }
        let ghost before = self.entries@;
        let ghost was = self@;
        if !(at < self.entries.len() && self.entries[at].0 == cell) {
            proof {
                if has_key(before, cell) {
                    let i = place_of(before, cell);
                    assert(before[i].0 == cell);
                    assert(i == at);
                }
                assert(was =~= was.remove(cell));
            }
            return None;
        }
        let mut entries: Vec<(u32, V)> = Vec::new();
        std::mem::swap(&mut entries, &mut self.entries);
        let pair = entries.remove(at);
        proof {
            removal_lists(before, entries@, at as int, cell, was);
        }
        self.entries = entries;
        proof {
            self.entries_list_the_view();
            listed_map_is_unique(self.entries@, self@, was.remove(cell));
        }
        Some(pair.1)
    }
}

impl<V: Copy> CellMap<V> {
    /// The same map once more.
    pub fn duplicate(&self) -> (m: CellMap<V>)
        ensures
            m@ == self@,
    {
        proof {
            use_type_invariant(self);
        }
        let mut entries: Vec<(u32, V)> = Vec::new();
        let mut i: usize = 0;
        while i < self.entries.len()
            invariant
                i <= self.entries.len(),
                entries@ == self.entries@.take(i as int),
            decreases self.entries.len() - i,
        {
            entries.push(self.entries[i]);
            i = i + 1;
            assert(entries@ =~= self.entries@.take(i as int));
        }
        assert(entries@ =~= self.entries@);
        let m = CellMap { entries };
        assert(m@ =~= self@);
        m
    }
}

/// A list says what the map is.
pub proof fn listed_map_is_unique<V>(s: Seq<(u32, V)>, a: Map<u32, V>, b: Map<u32, V>)
    requires
        lists(s, a),
        lists(s, b),
    ensures
        a == b,
{
    assert forall|cell: u32| #[trigger] a.contains_key(cell) == b.contains_key(cell) by {
        if a.contains_key(cell) {
            let i = place_of(s, cell);
            assert(has_key(s, cell));
            assert(s[i].0 == cell);
        }
        if b.contains_key(cell) {
            let i = place_of(s, cell);
            assert(has_key(s, cell));
            assert(s[i].0 == cell);
        }
    }
    assert forall|cell: u32| #[trigger] a.contains_key(cell) implies a[cell] == b[cell] by {
        let i = place_of(s, cell);
        assert(has_key(s, cell));
        assert(s[i].0 == cell);
    }
    assert(a =~= b);
}

proof fn insertion_lists<V>(
    before: Seq<(u32, V)>,
    after: Seq<(u32, V)>,
    at: int,
    cell: u32,
    value: V,
    m: Map<u32, V>,
)
    requires
        lists(before, m),
        0 <= at <= before.len(),
        forall|i: int| 0 <= i < at ==> (#[trigger] before[i]).0 < cell,
        forall|i: int| at <= i < before.len() ==> (#[trigger] before[i]).0 >= cell,
        after == if at < before.len() && before[at].0 == cell {
            before.update(at, (cell, value))
        } else {
            before.insert(at, (cell, value))
        },
    ensures
        lists(after, m.insert(cell, value)),
{
    let n = m.insert(cell, value);
    let there = at < before.len() && before[at].0 == cell;
    assert(after[at] == (cell, value));
    assert forall|i: int| 0 <= i < after.len() && i != at implies {
        let k = if i < at || there {
            i
        } else {
            i - 1
        };
        #[trigger] after[i] == before[k]
    } by {}
    assert forall|i: int, j: int| 0 <= i < j < after.len() implies (#[trigger] after[i]).0 < (
    #[trigger] after[j]).0 by {
        let a = if i < at || there {
            i
        } else {
            i - 1
        };
        let b = if j < at || there {
            j
        } else {
            j - 1
        };
        if i != at && j != at {
            assert(before[a].0 < before[b].0);
        } else if i == at {
            assert(before[b].0 >= cell);
            if there {
                assert(before[at].0 < before[b].0);
            } else if b > at {
                assert(before[at].0 < before[b].0);
            }
        }
    }
    assert forall|i: int| 0 <= i < after.len() implies n.contains_key((#[trigger] after[i]).0)
        && n[after[i].0] == after[i].1 by {
        if i != at {
            let k = if i < at || there {
                i
            } else {
                i - 1
            };
            assert(m.contains_key(before[k].0) && m[before[k].0] == before[k].1);
            if i < at {
                assert(after[i].0 < after[at].0);
            } else {
                assert(after[at].0 < after[i].0);
            }
        }
    }
    assert forall|c: u32| #[trigger] n.contains_key(c) implies has_key(after, c) by {
        if c == cell {
            assert(after[at].0 == c);
        } else {
            assert(m.contains_key(c));
            assert(has_key(before, c));
            let k = place_of(before, c);
            assert(before[k].0 == c);
            if k < at || there {
                assert(after[k] == before[k]);
            } else {
                assert(after[k + 1] == before[k]);
            }
        }
    }
}

proof fn removal_lists<V>(before: Seq<(u32, V)>, after: Seq<(u32, V)>, at: int, cell: u32, m: Map<u32, V>)
    requires
        lists(before, m),
        0 <= at < before.len(),
        before[at].0 == cell,
        after == before.remove(at),
    ensures
        lists(after, m.remove(cell)),
{
    let n = m.remove(cell);
    assert forall|i: int| 0 <= i < after.len() implies #[trigger] after[i] == before[if i < at {
        i
    } else {
        i + 1
    }] by {}
    assert forall|i: int| 0 <= i < after.len() implies n.contains_key((#[trigger] after[i]).0)
        && n[after[i].0] == after[i].1 by {
        let k = if i < at {
            i
        } else {
            i + 1
        };
        assert(m.contains_key(before[k].0) && m[before[k].0] == before[k].1);
        if i < at {
            assert(before[i].0 < before[at].0);
        } else {
            assert(before[at].0 < before[k].0);
        }
    }
    assert forall|c: u32| #[trigger] n.contains_key(c) implies has_key(after, c) by {
        assert(m.contains_key(c));
        assert(has_key(before, c));
        let k = place_of(before, c);
        assert(before[k].0 == c);
        if k < at {
            assert(after[k] == before[k]);
        } else {
            assert(after[k - 1] == before[k]);
        }
    }
}

} // verus!
