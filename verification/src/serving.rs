//! The state that queries are served from: when a graph is built, when the slow
//! state is written anew, and which ids are deleted.
use vstd::prelude::*;

use crate::order::{is_stable_order, stable_order, SortKey};
use crate::slow_state::ContentHash;
use crate::wire::{le16_bytes, le8_bytes, push_bytes, push_i128_le, push_u64_le};

verus! {

// ---------------------------------------------------------------------------
// The population of a table
// ---------------------------------------------------------------------------

/// A superfile's rows: how many, and the range of their ids.
#[derive(Clone, Copy, PartialEq, Eq, Structural, Debug)]
pub struct RowRange {
    pub n_docs: u64,
    pub id_min: i128,
    pub id_max: i128,
}

/// The rows of all superfiles.
pub open spec fn total_docs(entries: Seq<RowRange>) -> int
    decreases entries.len(),
{
    if entries.len() == 0 {
        0
    } else {
        total_docs(entries.drop_last()) + entries.last().n_docs
    }
}

/// The smallest id; zero when there is no superfile.
pub open spec fn least_id(entries: Seq<RowRange>) -> i128
    decreases entries.len(),
{
    if entries.len() == 0 {
        0
    } else if entries.len() == 1 || entries.last().id_min < least_id(entries.drop_last()) {
        entries.last().id_min
    } else {
        least_id(entries.drop_last())
    }
}

/// The largest id; zero when there is no superfile.
pub open spec fn greatest_id(entries: Seq<RowRange>) -> i128
    decreases entries.len(),
{
    if entries.len() == 0 {
        0
    } else if entries.len() == 1 || entries.last().id_max > greatest_id(entries.drop_last()) {
        entries.last().id_max
    } else {
        greatest_id(entries.drop_last())
    }
}

/// One step of the FNV-1a hash.
pub open spec fn fnv_step(h: u64, byte: u8) -> u64 {
    vstd::wrapping::u64_specs::wrapping_mul(h ^ (byte as u64), 0x0000_0100_0000_01b3)
}

/// The FNV-1a hash of a byte string.
pub open spec fn fnv1a(bytes: Seq<u8>) -> u64
    decreases bytes.len(),
{
    if bytes.len() == 0 {
        0xcbf2_9ce4_8422_2325
    } else {
        fnv_step(fnv1a(bytes.drop_last()), bytes.last())
    }
}

/// What tells one population of rows from another.
pub open spec fn population_bytes(count: int, min: i128, max: i128, deleted: Seq<u8>) -> Seq<u8> {
    le8_bytes(count) + le16_bytes(min) + le16_bytes(max) + deleted
}

proof fn total_docs_prefix(entries: Seq<RowRange>, n: int)
    requires
        0 <= n <= entries.len(),
    ensures
        0 <= total_docs(entries.take(n)) <= total_docs(entries),
    decreases entries.len(),
{
    if n == entries.len() {
        assert(entries.take(n) =~= entries);
        if n > 0 {
            total_docs_prefix(entries.drop_last(), n - 1);
            assert(entries.drop_last().take(n - 1) =~= entries.drop_last());
        }
    } else {
        assert(entries.drop_last().take(n) =~= entries.take(n));
        total_docs_prefix(entries.drop_last(), n);
    }
}

/// How many rows there are.
pub fn count_docs(entries: &Vec<RowRange>) -> (n: u64)
    requires
        total_docs(entries@) <= u64::MAX,
    ensures
        n == total_docs(entries@),
{
    let mut n: u64 = 0;
    let mut i: usize = 0;
    assert(entries@.take(0) =~= Seq::<RowRange>::empty());
    while i < entries.len()
        invariant
            i <= entries.len(),
            total_docs(entries@) <= u64::MAX,
            n == total_docs(entries@.take(i as int)),
        decreases entries.len() - i,
    {
        proof {
            assert(entries@.take(i + 1).drop_last() =~= entries@.take(i as int));
            total_docs_prefix(entries@, i + 1);
        }
        n = n + entries[i].n_docs;
        i = i + 1;
    }
    assert(entries@.take(i as int) =~= entries@);
    n
}

/// The range of all ids; zeros when there is no superfile.
pub fn id_bounds(entries: &Vec<RowRange>) -> (bounds: (i128, i128))
    ensures
        bounds.0 == least_id(entries@),
        bounds.1 == greatest_id(entries@),
{
    let mut min: i128 = 0;
    let mut max: i128 = 0;
    let mut i: usize = 0;
    assert(entries@.take(0) =~= Seq::<RowRange>::empty());
    while i < entries.len()
        invariant
            i <= entries.len(),
            min == least_id(entries@.take(i as int)),
            max == greatest_id(entries@.take(i as int)),
        decreases entries.len() - i,
    {
        proof {
            assert(entries@.take(i + 1).drop_last() =~= entries@.take(i as int));
        }
        if i == 0 || entries[i].id_min < min {
            min = entries[i].id_min;
        }
        if i == 0 || entries[i].id_max > max {
            max = entries[i].id_max;
        }
        i = i + 1;
    }
    assert(entries@.take(i as int) =~= entries@);
    (min, max)
}

fn fnv1a_hash(bytes: &Vec<u8>) -> (h: u64)
    ensures
        h == fnv1a(bytes@),
{
    let mut h: u64 = 0xcbf2_9ce4_8422_2325;
    let mut i: usize = 0;
    assert(bytes@.take(0) =~= Seq::<u8>::empty());
    while i < bytes.len()
        invariant
            i <= bytes.len(),
            h == fnv1a(bytes@.take(i as int)),
        decreases bytes.len() - i,
    {
        proof {
            assert(bytes@.take(i + 1).drop_last() =~= bytes@.take(i as int));
        }
        let x: u64 = h ^ (bytes[i] as u64);
        h = x.wrapping_mul(0x0000_0100_0000_01b3);
        i = i + 1;
    }
    assert(bytes@.take(i as int) =~= bytes@);
    h
}

/// A key of the rows that a table has, whatever superfiles they are in:
/// `deleted` are the bytes of the deleted ids, if any are recorded.
pub fn graph_population_key(entries: &Vec<RowRange>, deleted: Option<&[u8]>) -> (key: u64)
    requires
        total_docs(entries@) <= u64::MAX,
    ensures
        key == population_key(entries@, deleted),
{
    let count: u64 = count_docs(entries);
    let bounds = id_bounds(entries);
    let mut bytes: Vec<u8> = Vec::new();
    push_u64_le(&mut bytes, count);
    push_i128_le(&mut bytes, bounds.0);
    push_i128_le(&mut bytes, bounds.1);
    if let Some(d) = deleted {
        push_bytes(&mut bytes, d);
    }
    proof {
        let d = match deleted {
            Some(d) => d@,
            None => Seq::<u8>::empty(),
        };
        assert(bytes@ =~= population_bytes(count as int, bounds.0, bounds.1, d));
    }
    fnv1a_hash(&bytes)
}

/// Every superfile's ids lie within the bounds, and both bounds are ids that a
/// superfile has: the bounds do not depend on the order of the superfiles.
pub proof fn bounds_hold_every_range(entries: Seq<RowRange>, i: int)
    requires
        0 <= i < entries.len(),
    ensures
        least_id(entries) <= entries[i].id_min,
        entries[i].id_max <= greatest_id(entries),
        exists|k: int| 0 <= k < entries.len() && (#[trigger] entries[k]).id_min == least_id(entries),
        exists|k: int| 0 <= k < entries.len() && (#[trigger] entries[k]).id_max == greatest_id(entries),
    decreases entries.len(),
{
    let before = entries.drop_last();
    assert(entries.last() == entries[entries.len() - 1]);
    if entries.len() > 1 {
        let k = if i < before.len() {
            i
        } else {
            0
        };
        bounds_hold_every_range(before, k);
        let lo = choose|k: int| 0 <= k < before.len() && (#[trigger] before[k]).id_min == least_id(before);
        let hi = choose|k: int|
            0 <= k < before.len() && (#[trigger] before[k]).id_max == greatest_id(before);
        assert(entries[lo] == before[lo]);
        assert(entries[hi] == before[hi]);
        if i < before.len() {
            assert(before[i] == entries[i]);
        }
    }
}

proof fn docs_without_one(entries: Seq<RowRange>, i: int)
    requires
        0 <= i < entries.len(),
    ensures
        total_docs(entries) == total_docs(entries.remove(i)) + entries[i].n_docs,
    decreases entries.len(),
{
    let rest = entries.remove(i);
    if i == entries.len() - 1 {
        assert(rest =~= entries.drop_last());
    } else {
        let init = entries.drop_last();
        docs_without_one(init, i);
        assert(rest.drop_last() =~= init.remove(i));
        assert(rest.last() == entries.last());
    }
}

proof fn docs_are_order_free(a: Seq<RowRange>, b: Seq<RowRange>)
    requires
        a.to_multiset() == b.to_multiset(),
    ensures
        total_docs(a) == total_docs(b),
    decreases a.len(),
{
    a.to_multiset_ensures();
    b.to_multiset_ensures();
    if a.len() > 0 {
        let last = a.last();
        let n = a.len() - 1;
        assert(a.remove(n) =~= a.drop_last());
        assert(a[n] == last);
        assert(a.to_multiset().contains(last)) by {
            assert(a.contains(last));
        }
        assert(b.contains(last));
        let k = choose|k: int| 0 <= k < b.len() && b[k] == last;
        assert(b.remove(k).to_multiset() =~= b.to_multiset().remove(last));
        assert(a.remove(n).to_multiset() =~= a.to_multiset().remove(last));
        docs_without_one(b, k);
        docs_are_order_free(a.drop_last(), b.remove(k));
    }
}

/// The order of the superfiles does not matter to the key.
pub proof fn population_is_order_free(a: Seq<RowRange>, b: Seq<RowRange>, deleted: Option<&[u8]>)
    requires
        a.to_multiset() == b.to_multiset(),
    ensures
        total_docs(a) == total_docs(b),
        least_id(a) == least_id(b),
        greatest_id(a) == greatest_id(b),
        population_key(a, deleted) == population_key(b, deleted),
{
    docs_are_order_free(a, b);
    a.to_multiset_ensures();
    b.to_multiset_ensures();
    if a.len() > 0 {
        assert forall|r: RowRange| a.contains(r) <==> b.contains(r) by {
            assert(a.to_multiset().contains(r) <==> a.contains(r));
            assert(b.to_multiset().contains(r) <==> b.contains(r));
        }
        bounds_hold_every_range(a, 0);
        bounds_hold_every_range(b, 0);
        let al = choose|k: int| 0 <= k < a.len() && (#[trigger] a[k]).id_min == least_id(a);
        let ah = choose|k: int| 0 <= k < a.len() && (#[trigger] a[k]).id_max == greatest_id(a);
        let bl = choose|k: int| 0 <= k < b.len() && (#[trigger] b[k]).id_min == least_id(b);
        let bh = choose|k: int| 0 <= k < b.len() && (#[trigger] b[k]).id_max == greatest_id(b);
        assert(b.contains(a[al]) && b.contains(a[ah]));
        assert(a.contains(b[bl]) && a.contains(b[bh]));
        bounds_hold_every_range(b, b.index_of(a[al]));
        bounds_hold_every_range(b, b.index_of(a[ah]));
        bounds_hold_every_range(a, a.index_of(b[bl]));
        bounds_hold_every_range(a, a.index_of(b[bh]));
    }
}

/// Parting a superfile in two, or joining two, keeps the key: it goes by the
/// number of rows and the range of ids alone.
pub proof fn repacking_keeps_population(
    entries: Seq<RowRange>,
    whole: RowRange,
    a: RowRange,
    b: RowRange,
    deleted: Option<&[u8]>,
)
    requires
        a.n_docs + b.n_docs == whole.n_docs,
        whole.id_min == if a.id_min < b.id_min {
            a.id_min
        } else {
            b.id_min
        },
        whole.id_max == if a.id_max > b.id_max {
            a.id_max
        } else {
            b.id_max
        },
    ensures
        total_docs(entries.push(a).push(b)) == total_docs(entries.push(whole)),
        least_id(entries.push(a).push(b)) == least_id(entries.push(whole)),
        greatest_id(entries.push(a).push(b)) == greatest_id(entries.push(whole)),
        population_key(entries.push(a).push(b), deleted) == population_key(entries.push(whole), deleted),
{
    let two = entries.push(a).push(b);
    assert(two.drop_last() =~= entries.push(a));
    assert(two.last() == b);
    assert(entries.push(a).drop_last() =~= entries);
    assert(entries.push(a).last() == a);
    assert(entries.push(whole).drop_last() =~= entries);
    assert(entries.push(whole).last() == whole);
    reveal_with_fuel(total_docs, 3);
    reveal_with_fuel(least_id, 3);
    reveal_with_fuel(greatest_id, 3);
}

// ---------------------------------------------------------------------------
// The graph
// ---------------------------------------------------------------------------

/// What a try to extend the last graph gave.
#[derive(Debug)]
pub enum Extension<B> {
    /// There is no graph to extend, or it cannot be read.
    NoPrior,
    /// The rows did not just grow.
    NotAnAppend,
    Failed,
    /// The graph and the largest id in it.
    Extended(B, i128),
}

/// What a build of the whole graph gave.
#[derive(Debug)]
pub enum FullBuild<B> {
    NoRows,
    Failed,
    Built(B),
}

/// What is to be done next for a table's graph. `B` is a graph that is built.
#[derive(Debug)]
pub enum GraphBuild<B> {
    /// Extend the last graph by the rows that are new.
    Extend { key: u64, high_water: i128 },
    /// Build the graph of all rows.
    BuildWhole { key: u64, high_water: i128 },
    /// Publish the graph: the key of the rows it was built for, and the largest
    /// id in it.
    Publish { key: u64, high_water: i128, graph: B },
    /// There is no graph, and queries do without.
    NoGraph,
}

/// The key of the rows of a table.
pub open spec fn population_key(entries: Seq<RowRange>, deleted: Option<&[u8]>) -> u64 {
    fnv1a(
        population_bytes(
            total_docs(entries),
            least_id(entries),
            greatest_id(entries),
            match deleted {
                Some(d) => d@,
                None => Seq::<u8>::empty(),
            },
        ),
    )
}

impl<B> GraphBuild<B> {
    /// Starts on the graph of a table. A table without a vector column has none,
    /// nor has one that is too large for a graph in memory.
    pub fn start(entries: &Vec<RowRange>, deleted: Option<&[u8]>, has_column: bool, max_docs: u64) -> (build:
        GraphBuild<B>)
        requires
            total_docs(entries@) <= u64::MAX,
        ensures
            build == if has_column && total_docs(entries@) <= max_docs {
                GraphBuild::<B>::Extend {
                    key: population_key(entries@, deleted),
                    high_water: greatest_id(entries@),
                }
            } else {
                GraphBuild::NoGraph
            },
    {
        if !has_column || count_docs(entries) > max_docs {
            return GraphBuild::NoGraph;
        }
        let key: u64 = graph_population_key(entries, deleted);
        let bounds = id_bounds(entries);
        GraphBuild::Extend { key, high_water: bounds.1 }
    }

    /// Takes in what became of the extension. Unless it came to a graph, the
    /// graph is built as a whole.
    pub fn after_extension(self, reply: Extension<B>) -> (next: GraphBuild<B>)
        ensures
            next == match self {
                GraphBuild::Extend { key, high_water } => match reply {
                    Extension::Extended(graph, high) => GraphBuild::Publish { key, high_water: high, graph },
                    _ => GraphBuild::BuildWhole { key, high_water },
                },
                _ => self,
            },
    {
        match self {
            GraphBuild::Extend { key, high_water } => match reply {
                Extension::Extended(graph, high) => GraphBuild::Publish { key, high_water: high, graph },
                _ => GraphBuild::BuildWhole { key, high_water },
            },
            other => other,
        }
    }

    /// Takes in what became of the whole graph. Without rows, or when the build
    /// failed, there is none.
    pub fn after_full_build(self, reply: FullBuild<B>) -> (next: GraphBuild<B>)
        ensures
            next == match self {
                GraphBuild::BuildWhole { key, high_water } => match reply {
                    FullBuild::Built(graph) => GraphBuild::Publish { key, high_water, graph },
                    _ => GraphBuild::NoGraph,
                },
                _ => self,
            },
    {
        match self {
            GraphBuild::BuildWhole { key, high_water } => match reply {
                FullBuild::Built(graph) => GraphBuild::Publish { key, high_water, graph },
                _ => GraphBuild::NoGraph,
            },
            other => other,
        }
    }
}

/// What a graph that was to be published comes to: a failure to write it leaves
/// the table without one, and fails nothing.
pub fn published_graph<R, E>(reply: Result<R, E>) -> (graph: Option<R>)
    ensures
        graph == match reply {
            Ok(r) => Some(r),
            Err(_) => None,
        },
{
    match reply {
        Ok(r) => Some(r),
        Err(_) => None,
    }
}

// ---------------------------------------------------------------------------
// The slow state
// ---------------------------------------------------------------------------

/// The slow state that a manifest points to.
#[derive(Debug)]
pub struct SlowStamp {
    pub uri: String,
    pub content_hash: ContentHash,
    pub centroids_uri: String,
    pub centroids_hash: ContentHash,
}

pub open spec fn same_stamp(a: SlowStamp, b: SlowStamp) -> bool {
    &&& a.uri@ == b.uri@
    &&& a.content_hash.bytes@ == b.content_hash.bytes@
    &&& a.centroids_uri@ == b.centroids_uri@
    &&& a.centroids_hash.bytes@ == b.centroids_hash.bytes@
}

/// A table without members and without a drain under way has no slow state.
pub fn has_slow_state(n_entries: usize, drain_pending: bool) -> (r: bool)
    ensures
        r == (n_entries > 0 || drain_pending),
{
    n_entries > 0 || drain_pending
}

/// The manifest points to the state already: there is nothing to publish.
pub fn is_stamped(current: Option<&SlowStamp>, written: &SlowStamp) -> (r: bool)
    ensures
        r == (current matches Some(c) && same_stamp(*c, *written)),
{
    match current {
        None => false,
        Some(c) => c.uri == written.uri && c.content_hash.same_as(&written.content_hash)
            && c.centroids_uri == written.centroids_uri && c.centroids_hash.same_as(
            &written.centroids_hash,
        ),
    }
}

/// Where the last centroid section comes from.
#[derive(Clone, Copy, PartialEq, Eq, Structural, Debug)]
pub enum SectionSource {
    /// The manifest points to none.
    Absent,
    /// The one that is kept.
    Kept,
    /// Storage; what comes is kept, and without it every member's centroids
    /// must be at hand.
    Fetch,
}

/// Decides where the last centroid section comes from. One is kept, under its
/// path.
pub fn section_source(wanted: Option<&String>, kept: Option<&String>) -> (source: SectionSource)
    ensures
        source == match wanted {
            None => SectionSource::Absent,
            Some(w) => if kept matches Some(k) && k@ == w@ {
                SectionSource::Kept
            } else {
                SectionSource::Fetch
            },
        },
{
    match wanted {
        None => SectionSource::Absent,
        Some(w) => match kept {
            Some(k) => {
                if *k == *w {
                    SectionSource::Kept
                } else {
                    SectionSource::Fetch
                }
            },
            None => SectionSource::Fetch,
        },
    }
}

// ---------------------------------------------------------------------------
// Deleted ids
// ---------------------------------------------------------------------------

/// The ids ascend, so none is there twice.
pub open spec fn ids_ascend(ids: Seq<i128>) -> bool {
    forall|i: int, j: int| 0 <= i < j < ids.len() ==> (#[trigger] ids[i]) < (#[trigger] ids[j])
}

spec fn id_keys(ids: Seq<i128>) -> Seq<SortKey> {
    Seq::new(ids.len(), |i: int| (ids[i], 0u128))
}

/// The deleted ids with more of them, or nothing when all of them were there.
/// `existing` is what was recorded, in ascending order.
pub fn merge_deleted_ids(existing: &Vec<i128>, more: &Vec<i128>) -> (merged: Option<Vec<i128>>)
    requires
        ids_ascend(existing@),
    ensures
        match merged {
            Some(ids) => {
                &&& ids_ascend(ids@)
                &&& ids@.to_set() == existing@.to_set().union(more@.to_set())
                &&& !more@.to_set().subset_of(existing@.to_set())
            },
            None => more@.to_set().subset_of(existing@.to_set()),
        },
{
    let mut all: Vec<i128> = Vec::new();
    let mut keys: Vec<SortKey> = Vec::new();
    let mut i: usize = 0;
    while i < existing.len()
        invariant
            i <= existing.len(),
            all@ == existing@.take(i as int),
            keys@ == id_keys(all@),
        decreases existing.len() - i,
    {
        all.push(existing[i]);
        keys.push((existing[i], 0u128));
        i = i + 1;
        assert(all@ =~= existing@.take(i as int));
        assert(keys@ =~= id_keys(all@));
    }
    let mut k: usize = 0;
    assert(all@ =~= existing@ + more@.take(0));
    while k < more.len()
        invariant
            k <= more.len(),
            all@ == existing@ + more@.take(k as int),
            keys@ == id_keys(all@),
        decreases more.len() - k,
    {
        all.push(more[k]);
        keys.push((more[k], 0u128));
        k = k + 1;
        assert(all@ =~= existing@ + more@.take(k as int));
        assert(keys@ =~= id_keys(all@));
    }
    assert(all@ =~= existing@ + more@);
    let order = stable_order(&keys);
    let mut ids: Vec<i128> = Vec::new();
    let mut q: usize = 0;
    while q < order.len()
        invariant
            q <= order.len(),
            keys@ == id_keys(all@),
            is_stable_order(keys@, order@),
            ids_ascend(ids@),
            forall|x: int| 0 <= x < ids.len() ==> all@.contains(#[trigger] ids@[x]),
            forall|y: int| 0 <= y < q ==> ids@.contains(all@[#[trigger] order@[y] as int]),
            q == 0 ==> ids.len() == 0,
            q > 0 ==> ids.len() > 0 && ids@.last() == all@[order@[q - 1] as int],
        decreases order.len() - q,
    {
        let id: i128 = all[order[q]];
        let n: usize = ids.len();
        let ghost before = ids@;
        proof {
            if q > 0 {
                crate::order::sorted_by_ascends(keys@, q - 1, q as int);
                assert(order@ == crate::order::the_order(keys@)) by {
                    crate::order::stable_order_is_unique(
                        keys@,
                        order@,
                        crate::order::the_order(keys@),
                    );
                }
                assert(keys@[order@[q - 1] as int].0 <= keys@[order@[q as int] as int].0);
                assert(all@[order@[q - 1] as int] <= id);
            }
        }
        if n == 0 || ids[n - 1] != id {
            ids.push(id);
            proof {
                assert forall|a: int, b: int| 0 <= a < b < ids.len() implies (#[trigger] ids@[a]) < (
                #[trigger] ids@[b]) by {
                    if b == before.len() {
                        assert(before[before.len() - 1] < id);
                        if a < before.len() - 1 {
                            assert(before[a] < before[before.len() - 1]);
                        }
                    } else {
                        assert(before[a] < before[b]);
                    }
                }
                assert(ids@[before.len() as int] == id);
            }
        }
        proof {
            assert forall|x: int| 0 <= x < ids.len() implies all@.contains(#[trigger] ids@[x]) by {
                if x < before.len() {
                    assert(before[x] == ids@[x]);
                } else {
                    assert(all@[order@[q as int] as int] == ids@[x]);
                }
            }
            assert forall|y: int| 0 <= y < q + 1 implies ids@.contains(all@[#[trigger] order@[y] as int]) by {
                if y < q {
                    assert(before.contains(all@[order@[y] as int]));
                    let x = choose|x: int| 0 <= x < before.len() && before[x] == all@[order@[y] as int];
                    assert(ids@[x] == before[x]);
                } else {
                    assert(ids@[ids.len() - 1] == id);
                }
            }
        }
        q = q + 1;
    }
    proof {
        merged_set(existing@, more@, all@, keys@, order@, ids@);
    }
    if ids.len() == existing.len() {
        None
    } else {
        Some(ids)
    }
}

proof fn merged_set(
    existing: Seq<i128>,
    more: Seq<i128>,
    all: Seq<i128>,
    keys: Seq<SortKey>,
    order: Seq<usize>,
    ids: Seq<i128>,
)
    requires
        all == existing + more,
        keys == id_keys(all),
        is_stable_order(keys, order),
        ids_ascend(existing),
        ids_ascend(ids),
        all.len() <= usize::MAX,
        forall|x: int| 0 <= x < ids.len() ==> all.contains(#[trigger] ids[x]),
        forall|y: int| 0 <= y < order.len() ==> ids.contains(all[#[trigger] order[y] as int]),
    ensures
        ids.to_set() == existing.to_set().union(more.to_set()),
        ids.len() == existing.len() <==> more.to_set().subset_of(existing.to_set()),
{
    assert forall|v: i128| ids.contains(v) == all.contains(v) by {
        if ids.contains(v) {
            let x = choose|x: int| 0 <= x < ids.len() && ids[x] == v;
            assert(all.contains(ids[x]));
        }
        if all.contains(v) {
            let a = choose|a: int| 0 <= a < all.len() && all[a] == v;
            assert(order.contains(a as usize));
            let y = choose|y: int| 0 <= y < order.len() && order[y] == a as usize;
            assert(ids.contains(all[order[y] as int]));
        }
    }
    assert forall|v: i128| all.contains(v) == (existing.contains(v) || more.contains(v)) by {
        if all.contains(v) {
            let a = choose|a: int| 0 <= a < all.len() && all[a] == v;
            if a < existing.len() {
                assert(existing[a] == v);
            } else {
                assert(more[a - existing.len()] == v);
            }
        }
        if existing.contains(v) {
            let a = choose|a: int| 0 <= a < existing.len() && existing[a] == v;
            assert(all[a] == v);
        }
        if more.contains(v) {
            let a = choose|a: int| 0 <= a < more.len() && more[a] == v;
            assert(all[existing.len() + a] == v);
        }
    }
    let union = existing.to_set().union(more.to_set());
    assert(ids.to_set() =~= union);
    ascending_has_no_duplicates(ids);
    ascending_has_no_duplicates(existing);
    ids.unique_seq_to_set();
    existing.unique_seq_to_set();
    if more.to_set().subset_of(existing.to_set()) {
        assert(union =~= existing.to_set());
    }
    if ids.len() == existing.len() {
        assert(existing.to_set().subset_of(ids.to_set()));
        vstd::set_lib::lemma_subset_equality(existing.to_set(), ids.to_set());
        assert forall|v: i128| #[trigger] more.to_set().contains(v) implies existing.to_set().contains(v) by {
            assert(union.contains(v));
        }
    }
}

proof fn ascending_has_no_duplicates(ids: Seq<i128>)
    requires
        ids_ascend(ids),
    ensures
        ids.no_duplicates(),
{
    assert forall|i: int, j: int| 0 <= i < ids.len() && 0 <= j < ids.len() && i != j implies ids[i] != ids[j] by {
        if i < j {
            assert(ids[i] < ids[j]);
        } else {
            assert(ids[j] < ids[i]);
        }
    }
}

} // verus!
