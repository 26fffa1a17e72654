//! The cells of superfiles that later splits have replaced. Their blocks stay
//! in the file, but nothing reads them any more.
use vstd::prelude::*;

verus! {

/// A cell of a superfile.
pub type FileCell = (u128, u32);

pub open spec fn file_cell_less(a: FileCell, b: FileCell) -> bool {
    a.0 < b.0 || (a.0 == b.0 && a.1 < b.1)
}

/// The pairs ascend, by superfile and then by cell.
pub open spec fn pairs_ascend(s: Seq<FileCell>) -> bool {
    forall|i: int, j: int| 0 <= i < j < s.len() ==> file_cell_less(#[trigger] s[i], #[trigger] s[j])
}

/// A set of superseded cells.
#[derive(Debug)]
pub struct SupersededCells {
    pairs: Vec<FileCell>,
}

impl View for SupersededCells {
    type V = Set<FileCell>;

    closed spec fn view(&self) -> Set<FileCell> {
        self.pairs@.to_set()
    }
}

fn less(a: FileCell, b: FileCell) -> (r: bool)
    ensures
        r == file_cell_less(a, b),
{
    a.0 < b.0 || (a.0 == b.0 && a.1 < b.1)
}

impl SupersededCells {
    #[verifier::type_invariant]
    spec fn ascending(self) -> bool {
        pairs_ascend(self.pairs@)
    }

    /// No cell is superseded.
    pub fn new() -> (s: SupersededCells)
        ensures
            s@ == Set::<FileCell>::empty(),
    {
        let s = SupersededCells { pairs: Vec::new() };
        assert(s@ =~= Set::<FileCell>::empty());
        s
    }

    /// The superseded cells, by superfile and then by cell.
    pub fn pairs(&self) -> (s: &Vec<FileCell>)
        ensures
            pairs_ascend(s@),
            s@.to_set() == self@,
    {
        proof {
            use_type_invariant(self);
        }
        &self.pairs
    }

    fn seek(&self, pair: FileCell) -> (at: usize)
        ensures
            at <= self.pairs.len(),
            forall|i: int| 0 <= i < at ==> file_cell_less(#[trigger] self.pairs@[i], pair),
            forall|i: int| at <= i < self.pairs.len() ==> !file_cell_less(#[trigger] self.pairs@[i], pair),
    {
        proof {
            use_type_invariant(self);
        }
        let mut lo: usize = 0;
        let mut hi: usize = self.pairs.len();
        while lo < hi
            invariant
                lo <= hi <= self.pairs.len(),
                pairs_ascend(self.pairs@),
                forall|i: int| 0 <= i < lo ==> file_cell_less(#[trigger] self.pairs@[i], pair),
                forall|i: int|
                    hi <= i < self.pairs.len() ==> !file_cell_less(#[trigger] self.pairs@[i], pair),
            decreases hi - lo,
        {
            let mid: usize = lo + (hi - lo) / 2;
            if less(self.pairs[mid], pair) {
                lo = mid + 1;
            } else {
                hi = mid;
            }
        }
        lo
    }

    /// The cell of the superfile is superseded.
    pub fn contains(&self, superfile_id: u128, cell: u32) -> (found: bool)
        ensures
            found == self@.contains((superfile_id, cell)),
    {
        let pair = (superfile_id, cell);
        let at: usize = self.seek(pair);
        proof {
            use_type_invariant(self);
        }
        if at < self.pairs.len() && self.pairs[at].0 == superfile_id && self.pairs[at].1 == cell {
            assert(self.pairs@[at as int] == pair);
            true
        } else {
            proof {
                if self.pairs@.contains(pair) {
                    let i = choose|i: int| 0 <= i < self.pairs.len() && self.pairs@[i] == pair;
                    assert(!file_cell_less(self.pairs@[i], pair));
                    assert(i >= at);
                    if i > at {
                        assert(file_cell_less(self.pairs@[at as int], self.pairs@[i]));
                    }
                }
            }
            false
        }
    }

    /// Marks a cell of a superfile.
    pub fn insert(&mut self, superfile_id: u128, cell: u32)
        ensures
            final(self)@ == old(self)@.insert((superfile_id, cell)),
    {
        let pair = (superfile_id, cell);
        if self.contains(superfile_id, cell) {
            assert(self@ =~= self@.insert(pair));
            return;
        }
        let at: usize = self.seek(pair);
        proof {
            use_type_invariant(&*self);
        }
        let ghost before = self.pairs@;
        let mut pairs: Vec<FileCell> = Vec::new();
        std::mem::swap(&mut pairs, &mut self.pairs);
        pairs.insert(at, pair);
        proof {
            assert(pairs@ =~= before.insert(at as int, pair));
            assert forall|i: int, j: int| 0 <= i < j < pairs.len() implies file_cell_less(
                #[trigger] pairs@[i],
                #[trigger] pairs@[j],
            ) by {
                let a = if i < at {
                    i
                } else {
                    i - 1
                };
                let b = if j < at {
                    j
                } else {
                    j - 1
                };
                if i != at && j != at {
                    assert(pairs@[i] == before[a] && pairs@[j] == before[b]);
                } else if i == at {
                    assert(pairs@[j] == before[b]);
                    assert(before[b] != pair) by {
                        if before[b] == pair {
                            assert(before.contains(pair));
                        }
                    }
                } else {
                    assert(pairs@[i] == before[i]);
                }
            }
            assert forall|p: FileCell| pairs@.to_set().contains(p) == before.to_set().insert(pair).contains(
                p,
            ) by {
                if pairs@.contains(p) {
                    let i = choose|i: int| 0 <= i < pairs.len() && pairs@[i] == p;
                    if i < at {
                        assert(before[i] == p);
                    } else if i > at {
                        assert(before[i - 1] == p);
                    }
                }
                if before.contains(p) {
                    let i = choose|i: int| 0 <= i < before.len() && before[i] == p;
                    if i < at {
                        assert(pairs@[i] == p);
                    } else {
                        assert(pairs@[i + 1] == p);
                    }
                }
                if p == pair {
                    assert(pairs@[at as int] == p);
                }
            }
            assert(pairs@.to_set() =~= before.to_set().insert(pair));
        }
        self.pairs = pairs;
    }

    /// Marks all the cells of another set too. To do it again changes nothing.
    pub fn absorb(&mut self, other: &SupersededCells)
        ensures
            final(self)@ == old(self)@.union(other@),
    {
        let ghost was = self@;
        let pairs = other.pairs();
        let mut i: usize = 0;
        assert(self@ =~= was.union(pairs@.take(0).to_set()));
        while i < pairs.len()
            invariant
                i <= pairs.len(),
                self@ == was.union(pairs@.take(i as int).to_set()),
            decreases pairs.len() - i,
        {
            let ghost before = self@;
            self.insert(pairs[i].0, pairs[i].1);
            proof {
                let less = pairs@.take(i as int);
                let more = pairs@.take(i + 1);
                assert forall|p: FileCell| more.contains(p) == (less.contains(p) || p == pairs@[i as int]) by {
                    if more.contains(p) {
                        let k = choose|k: int| 0 <= k < more.len() && more[k] == p;
                        if k < i {
                            assert(less[k] == p);
                        }
                    }
                    if less.contains(p) {
                        let k = choose|k: int| 0 <= k < less.len() && less[k] == p;
                        assert(more[k] == p);
                    }
                    if p == pairs@[i as int] {
                        assert(more[i as int] == p);
                    }
                }
                assert(self@ =~= was.union(more.to_set()));
            }
            i = i + 1;
        }
        assert(pairs@.take(i as int) =~= pairs@);
    }
}

} // verus!
