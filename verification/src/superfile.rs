//! New superfiles on their way into a table: what a commit builds, where the
//! bytes of each file go, and in which order they are published.
use vstd::prelude::*;

use crate::cells::{is_id_range, shard_id_range};
use crate::fanout::{superfile_count, superfiles_per_commit};
use crate::open_ranges::{
    are_offsets, blob_at, build_subsection_offsets, vectors_fit, BlobFormats, FooterFields,
    SubsectionOffsets, VectorLayout,
};
use crate::publish::CommitListMetadata;
use crate::shared_bytes::{buffer_bytes, share};

verus! {

// ---------------------------------------------------------------------------
// What a commit builds
// ---------------------------------------------------------------------------

/// The grid that a table is routed by.
#[derive(Clone, Copy, PartialEq, Eq, Structural, Debug)]
pub struct GridShape {
    pub n_cent: u32,
    pub dim: u32,
}

/// Where the grid of a vector commit comes from.
#[derive(Clone, Copy, PartialEq, Eq, Structural, Debug)]
pub enum GridSource {
    /// Trained from this commit's rows, and published with them.
    Trained,
    /// The manifest.
    Manifest,
}

/// How a commit turns its rows into superfiles.
#[derive(Clone, Copy, PartialEq, Eq, Structural, Debug)]
pub enum CommitPlan {
    /// There are no rows.
    Nothing,
    /// The rows are packed by cell.
    Packed(GridSource),
    /// The rows are sorted into the cells of the manifest's grid.
    ByCell,
    /// The rows are parted evenly.
    Balanced { n_superfiles: usize },
}

/// The table has vectors, but no grid to put them in.
#[derive(Clone, Copy, PartialEq, Eq, Structural, Debug)]
pub struct MissingGrid;

/// What a commit knows when it starts.
#[derive(Clone, Copy, PartialEq, Eq, Structural, Debug)]
pub struct CommitFacts {
    pub total_rows: usize,
    pub has_vectors: bool,
    /// A grid was trained from this commit's rows.
    pub trained: bool,
    pub manifest_has_grid: bool,
    /// The grid of a manifest that partitions by cell.
    pub partition_grid: Option<GridShape>,
    pub buffered_bytes: usize,
    pub pool_threads: usize,
    pub target_bytes: usize,
}

/// Decides how a commit turns its rows into superfiles.
pub fn plan_commit(facts: &CommitFacts) -> (plan: Result<CommitPlan, MissingGrid>)
    ensures
        plan == if facts.total_rows == 0 {
            Ok::<CommitPlan, MissingGrid>(CommitPlan::Nothing)
        } else if facts.has_vectors {
            if facts.trained {
                Ok(CommitPlan::Packed(GridSource::Trained))
            } else if facts.manifest_has_grid {
                Ok(CommitPlan::Packed(GridSource::Manifest))
            } else {
                Err(MissingGrid)
            }
        } else if facts.partition_grid matches Some(g) && g.n_cent > 0 && g.dim > 0 {
            Ok(CommitPlan::ByCell)
        } else {
            Ok(
                CommitPlan::Balanced {
                    n_superfiles: superfile_count(
                        facts.total_rows,
                        facts.buffered_bytes,
                        facts.pool_threads,
                        facts.target_bytes,
                    ) as usize,
                },
            )
        },
{
    if facts.total_rows == 0 {
        return Ok(CommitPlan::Nothing);
    }
    if facts.has_vectors {
        return if facts.trained {
            Ok(CommitPlan::Packed(GridSource::Trained))
        } else if facts.manifest_has_grid {
            Ok(CommitPlan::Packed(GridSource::Manifest))
        } else {
            Err(MissingGrid)
        };
    }
    if let Some(g) = facts.partition_grid {
        if g.n_cent > 0 && g.dim > 0 {
            return Ok(CommitPlan::ByCell);
        }
    }
    let n_superfiles: usize = superfiles_per_commit(
        facts.total_rows,
        facts.buffered_bytes,
        facts.pool_threads,
        facts.target_bytes,
    );
    Ok(CommitPlan::Balanced { n_superfiles })
}

/// The grids that a commit trains, each with the cells that are asked for.
#[derive(Clone, Copy, PartialEq, Eq, Structural, Debug)]
pub struct GridTraining {
    /// The grid of the hidden index.
    pub hidden_cells: usize,
    /// The grid that the user table is packed by, where it is another one.
    pub user_cells: Option<usize>,
}

/// The first commit with vectors trains the grid. The user table has one of its
/// own when it is asked to have another number of cells.
pub fn grid_training(
    manifest_has_grid: bool,
    n_batches: usize,
    has_vectors: bool,
    hidden_cells: usize,
    user_cells: usize,
) -> (training: Option<GridTraining>)
    ensures
        training == if !manifest_has_grid && n_batches > 0 && has_vectors {
            Some(
                GridTraining {
                    hidden_cells,
                    user_cells: if user_cells == hidden_cells {
                        None
                    } else {
                        Some(user_cells)
                    },
                },
            )
        } else {
            None
        },
{
    if manifest_has_grid || n_batches == 0 || !has_vectors {
        return None;
    }
    let user = if user_cells == hidden_cells {
        None
    } else {
        Some(user_cells)
    };
    Some(GridTraining { hidden_cells, user_cells: user })
}

/// What is stamped with the rows of a commit: a grid that was trained from them,
/// so that it lands with them or not at all, and nothing else.
pub fn append_metadata<P: Copy, G: Copy, R: Copy>(trained: Option<G>) -> (m: CommitListMetadata<P, G, R>)
    ensures
        m.global_vector_index == trained,
        m.partition_strategy is None,
        m.drained_ranges is None,
        m.superseded_cells_additions is None,
        m.graph_ref is None,
{
    CommitListMetadata {
        partition_strategy: None,
        global_vector_index: trained,
        drained_ranges: None,
        superseded_cells_additions: None,
        graph_ref: None,
    }
}

/// The grid that the clusters of balanced files are laid out by, where they are
/// to follow a grid: the one of this commit, or else the manifest's. A grid
/// without cells is none.
pub fn aligned_grid(aligned: bool, trained: Option<GridShape>, manifest: Option<GridShape>) -> (source: Option<
    GridSource,
>)
    ensures
        source == if !aligned {
            None
        } else {
            match trained {
                Some(g) => if g.n_cent > 0 && g.dim > 0 {
                    Some(GridSource::Trained)
                } else {
                    None
                },
                None => match manifest {
                    Some(g) => if g.n_cent > 0 && g.dim > 0 {
                        Some(GridSource::Manifest)
                    } else {
                        None
                    },
                    None => None,
                },
            }
        },
{
    if !aligned {
        return None;
    }
    match trained {
        Some(g) => if g.n_cent > 0 && g.dim > 0 {
            Some(GridSource::Trained)
        } else {
            None
        },
        None => match manifest {
            Some(g) => if g.n_cent > 0 && g.dim > 0 {
                Some(GridSource::Manifest)
            } else {
                None
            },
            None => None,
        },
    }
}

/// The rows and the vector values of a buffered batch; a batch without the
/// vector column has none.
#[derive(Clone, Copy, PartialEq, Eq, Structural, Debug)]
pub struct BatchVectors {
    pub rows: usize,
    pub values: Option<usize>,
}

/// The vectors that the batches have, or nothing when a batch has fewer values
/// than its rows need.
pub open spec fn training_rows(batches: Seq<BatchVectors>, dim: int) -> Option<int>
    decreases batches.len(),
{
    if batches.len() == 0 {
        Some(0)
    } else {
        match training_rows(batches.drop_last(), dim) {
            None => None,
            Some(n) => match batches.last().values {
                None => Some(n),
                Some(v) => if batches.last().rows * dim <= v {
                    Some(n + batches.last().rows)
                } else {
                    None
                },
            },
        }
    }
}

/// How many cells a grid is trained with: at most one for each row, and none
/// when there are no rows or a batch is too short.
pub fn bootstrap_cells(batches: &Vec<BatchVectors>, dim: usize, n_cells: usize) -> (k: Option<usize>)
    requires
        dim > 0,
        training_rows(batches@, dim as int) matches Some(n) ==> n <= usize::MAX,
    ensures
        k == match training_rows(batches@, dim as int) {
            None => None,
            Some(n) => if n == 0 {
                None
            } else {
                Some(
                    (if n_cells == 0 {
                        1
                    } else if n_cells < n {
                        n_cells as int
                    } else {
                        n
                    }) as usize,
                )
            },
        },
{
    let mut n: usize = 0;
    let mut i: usize = 0;
    assert(batches@.take(0) =~= Seq::<BatchVectors>::empty());
    while i < batches.len()
        invariant
            i <= batches.len(),
            dim > 0,
            training_rows(batches@, dim as int) matches Some(m) ==> m <= usize::MAX,
            training_rows(batches@.take(i as int), dim as int) == Some(n as int),
        decreases batches.len() - i,
    {
        proof {
            assert(batches@.take(i + 1).drop_last() =~= batches@.take(i as int));
        }
        let b: BatchVectors = batches[i];
        if let Some(v) = b.values {
            let expected: Option<usize> = b.rows.checked_mul(dim);
            let enough: bool = match expected {
                Some(e) => e <= v,
                None => false,
            };
            assert(enough == (b.rows * dim <= v));
            if !enough {
                proof {
                    training_stops(batches@, dim as int, i + 1);
                }
                return None;
            }
            proof {
                training_grows(batches@, dim as int, i + 1);
            }
            if n > usize::MAX - b.rows {
                proof {
                    // More rows than fit are only counted when a later batch
                    // is too short.
                    assert(training_rows(batches@, dim as int) is None);
                }
                return None;
            }
            n = n + b.rows;
        }
        i = i + 1;
    }
    assert(batches@.take(i as int) =~= batches@);
    if n == 0 {
        None
    } else if n_cells == 0 {
        Some(1)
    } else if n_cells < n {
        Some(n_cells)
    } else {
        Some(n)
    }
}

proof fn training_stops(batches: Seq<BatchVectors>, dim: int, n: int)
    requires
        0 <= n <= batches.len(),
        training_rows(batches.take(n), dim) is None,
    ensures
        training_rows(batches, dim) is None,
    decreases batches.len(),
{
    if n == batches.len() {
        assert(batches.take(n) =~= batches);
    } else {
        assert(batches.drop_last().take(n) =~= batches.take(n));
        training_stops(batches.drop_last(), dim, n);
    }
}

proof fn training_grows(batches: Seq<BatchVectors>, dim: int, n: int)
    requires
        0 <= n <= batches.len(),
        training_rows(batches.take(n), dim) is Some,
    ensures
        training_rows(batches, dim) matches Some(m) ==> m >= training_rows(batches.take(n), dim)->0,
    decreases batches.len(),
{
    if n == batches.len() {
        assert(batches.take(n) =~= batches);
    } else {
        assert(batches.drop_last().take(n) =~= batches.take(n));
        training_grows(batches.drop_last(), dim, n);
    }
}

/// How many of the assignments are a cell.
pub open spec fn assigned_to(assignments: Seq<u32>, cell: int) -> int
    decreases assignments.len(),
{
    if assignments.len() == 0 {
        0
    } else {
        assigned_to(assignments.drop_last(), cell) + if assignments.last() == cell {
            1int
        } else {
            0
        }
    }
}

/// Counts the rows of each cell of a trained grid.
pub fn count_assignments(assignments: &Vec<u32>, k: usize) -> (counts: Vec<u32>)
    requires
        forall|i: int| 0 <= i < assignments.len() ==> #[trigger] assignments@[i] < k,
        assignments.len() <= u32::MAX,
    ensures
        counts.len() == k,
        forall|c: int| 0 <= c < k ==> #[trigger] counts@[c] == assigned_to(assignments@, c),
{
    let mut counts: Vec<u32> = Vec::new();
    let mut c: usize = 0;
    while c < k
        invariant
            c <= k,
            counts.len() == c,
            forall|q: int| 0 <= q < c ==> #[trigger] counts@[q] == 0,
        decreases k - c,
    {
        counts.push(0);
        c = c + 1;
    }
    let mut i: usize = 0;
    assert(assignments@.take(0) =~= Seq::<u32>::empty());
    while i < assignments.len()
        invariant
            i <= assignments.len(),
            assignments.len() <= u32::MAX,
            counts.len() == k,
            forall|q: int| 0 <= q < assignments.len() ==> #[trigger] assignments@[q] < k,
            forall|q: int|
                0 <= q < k ==> #[trigger] counts@[q] == assigned_to(assignments@.take(i as int), q)
                    && counts@[q] <= i,
        decreases assignments.len() - i,
    {
        proof {
            assert(assignments@.take(i + 1).drop_last() =~= assignments@.take(i as int));
            assert(assignments@[i as int] < k);
        }
        let cell: usize = assignments[i] as usize;
        let n: u32 = counts[cell];
        counts.set(cell, n + 1);
        i = i + 1;
    }
    assert(assignments@.take(i as int) =~= assignments@);
    counts
}

// ---------------------------------------------------------------------------
// A built shard
// ---------------------------------------------------------------------------

/// A built superfile.
#[derive(Debug)]
pub struct ShardOutput<S> {
    pub bytes: bytes::Bytes,
    pub n_docs: u64,
    pub id_min: i128,
    pub id_max: i128,
    pub scalar_stats: S,
}

impl<S> ShardOutput<S> {
    pub fn new_with_params(
        bytes: bytes::Bytes,
        n_docs: u64,
        id_min: i128,
        id_max: i128,
        scalar_stats: S,
    ) -> (out: ShardOutput<S>)
        ensures
            out.bytes == bytes,
            out.n_docs == n_docs,
            out.id_min == id_min,
            out.id_max == id_max,
            out.scalar_stats == scalar_stats,
    {
        ShardOutput { bytes, n_docs, id_min, id_max, scalar_stats }
    }
}

/// The ids of the batches one after another.
pub open spec fn all_ids(batches: Seq<Vec<i128>>) -> Seq<i128>
    decreases batches.len(),
{
    if batches.len() == 0 {
        Seq::empty()
    } else {
        all_ids(batches.drop_last()) + batches.last()@
    }
}

/// The number of rows of a shard and the range of their ids; zeros when it has
/// none.
pub fn shard_span(batches: &Vec<Vec<i128>>) -> (span: (usize, i128, i128))
    requires
        all_ids(batches@).len() <= usize::MAX,
    ensures
        span.0 == all_ids(batches@).len(),
        is_id_range((span.1, span.2), all_ids(batches@)),
{
    let mut ids: Vec<i128> = Vec::new();
    let mut b: usize = 0;
    assert(batches@.take(0) =~= Seq::<Vec<i128>>::empty());
    while b < batches.len()
        invariant
            b <= batches.len(),
            ids@ == all_ids(batches@.take(b as int)),
        decreases batches.len() - b,
    {
        let ghost before = ids@;
        let batch = &batches[b];
        let mut i: usize = 0;
        while i < batch.len()
            invariant
                i <= batch.len(),
                ids@ == before + batch@.take(i as int),
            decreases batch.len() - i,
        {
            ids.push(batch[i]);
            i = i + 1;
            assert(ids@ =~= before + batch@.take(i as int));
        }
        proof {
            assert(batch@.take(i as int) =~= batch@);
            assert(batches@.take(b + 1).drop_last() =~= batches@.take(b as int));
        }
        b = b + 1;
    }
    assert(batches@.take(b as int) =~= batches@);
    let range = shard_id_range(&ids);
    (ids.len(), range.0, range.1)
}

// ---------------------------------------------------------------------------
// Where the bytes go
// ---------------------------------------------------------------------------

/// Where a superfile's bytes go.
#[derive(Clone, Copy, PartialEq, Eq, Structural, Debug)]
pub struct Disposition {
    /// The store in memory, which never lets go of them.
    pub store: bool,
    pub storage: bool,
    /// The cache on disk.
    pub cache: bool,
}

/// What a table has for the bytes of its superfiles.
#[derive(Clone, Copy, PartialEq, Eq, Structural, Debug)]
pub struct BytePlaces {
    pub has_storage: bool,
    pub has_cache: bool,
    /// The cache is filled with what is committed.
    pub prepopulate: bool,
}

/// Where the bytes of a superfile go. With a cache on disk and storage behind
/// it they stay out of the store in memory.
pub open spec fn disposition_of(places: BytePlaces) -> Disposition {
    Disposition {
        store: !(places.has_cache && places.has_storage),
        storage: places.has_storage,
        cache: places.has_cache && places.has_storage && places.prepopulate,
    }
}

/// Decides where a superfile's bytes go.
pub fn disposition(places: &BytePlaces) -> (d: Disposition)
    ensures
        d == disposition_of(*places),
{
    let cache_attached: bool = places.has_cache && places.has_storage;
    Disposition {
        store: !cache_attached,
        storage: places.has_storage,
        cache: cache_attached && places.prepopulate,
    }
}

/// The bytes of every published superfile go somewhere, to storage whenever
/// there is some, and to the cache only beside storage.
pub proof fn bytes_are_never_dropped(places: BytePlaces)
    ensures
        ({
            let d = disposition_of(places);
            &&& d.store || d.storage
            &&& places.has_storage ==> d.storage
            &&& d.cache ==> d.storage
        }),
{
}

/// A superfile that is ready to be published. `E` is its manifest entry, `T`
/// its path and bytes.
#[derive(Debug)]
pub struct PreparedSuperfile<E, T> {
    pub entry: E,
    pub bytes_for_store: Option<T>,
    pub bytes_for_storage: Option<T>,
    pub bytes_for_cache: Option<T>,
}

impl<E, T> PreparedSuperfile<E, T> {
    /// The bytes that are at hand, wherever they are going.
    pub fn bytes_at_hand(&self) -> (bytes: Option<&T>)
        ensures
            match self.bytes_for_store {
                Some(t) => bytes == Some(&t),
                None => match self.bytes_for_storage {
                    Some(t) => bytes == Some(&t),
                    None => match self.bytes_for_cache {
                        Some(t) => bytes == Some(&t),
                        None => bytes is None,
                    },
                },
            },
    {
        match &self.bytes_for_store {
            Some(t) => Some(t),
            None => match &self.bytes_for_storage {
                Some(t) => Some(t),
                None => match &self.bytes_for_cache {
                    Some(t) => Some(t),
                    None => None,
                },
            },
        }
    }
}

// ---------------------------------------------------------------------------
// A superfile's entry
// ---------------------------------------------------------------------------

/// The terms of an indexed text column, in a few words.
#[derive(Debug)]
pub struct TermSummary {
    pub n_terms_distinct: u32,
    pub min_term: Vec<u8>,
    pub max_term: Vec<u8>,
}

fn copied(term: &Vec<u8>) -> (out: Vec<u8>)
    ensures
        out@ == term@,
{
    let mut out: Vec<u8> = Vec::new();
    let mut i: usize = 0;
    while i < term.len()
        invariant
            i <= term.len(),
            out@ == term@.take(i as int),
        decreases term.len() - i,
    {
        out.push(term[i]);
        i = i + 1;
        assert(out@ =~= term@.take(i as int));
    }
    assert(out@ =~= term@);
    out
}

/// Sums the terms of a column up. They are distinct and in order, so the first
/// and the last bound them; a column without terms is bounded by nothing. The
/// count keeps its low 32 bits.
pub fn summarize_terms(terms: &Vec<Vec<u8>>) -> (summary: TermSummary)
    ensures
        summary.n_terms_distinct == terms@.len() % 0x1_0000_0000,
        summary.min_term@ == if terms.len() == 0 {
            Seq::<u8>::empty()
        } else {
            terms@.first()@
        },
        summary.max_term@ == if terms.len() == 0 {
            Seq::<u8>::empty()
        } else {
            terms@.last()@
        },
{
    if terms.len() == 0 {
        return TermSummary { n_terms_distinct: 0, min_term: Vec::new(), max_term: Vec::new() };
    }
    let n: u64 = terms.len() as u64;
    assert(n as u32 == n % 0x1_0000_0000) by (bit_vector);
    TermSummary {
        n_terms_distinct: #[verifier::truncate] (n as u32),
        min_term: copied(&terms[0]),
        max_term: copied(&terms[terms.len() - 1]),
    }
}

/// The manifest's entry of a superfile. `S` is what is known of its scalar
/// columns, `M` the summaries of its text and vector columns. The commit gives
/// it its partition and its version.
#[derive(Debug)]
pub struct SuperfileEntry<S, M> {
    pub birth_version: u64,
    pub superfile_id: u128,
    pub uri: u128,
    pub n_docs: u64,
    pub id_min: i128,
    pub id_max: i128,
    pub scalar_stats: S,
    pub summary: M,
    pub partition_hint: Option<u32>,
    pub subsection_offsets: Option<SubsectionOffsets>,
    pub vector_layout: VectorLayout,
}

/// The names that a new superfile is given.
#[derive(Clone, Copy, PartialEq, Eq, Structural, Debug)]
pub struct SuperfileName {
    pub uri: u128,
    pub superfile_id: u128,
}

/// What opening a new superfile says of it.
pub struct OpenedSuperfile<M> {
    pub summary: M,
    /// The fields of its footer, when the footer parses.
    pub footer: Option<FooterFields>,
    pub vector_layout: VectorLayout,
}

/// Why a superfile cannot be published.
#[derive(Debug)]
pub enum PrepareFault {
    /// It cannot be opened.
    Open(String),
    /// It is a file of postings and says nowhere where they are.
    MissingVectorOffsets,
}

/// The entry of a shard.
pub open spec fn is_entry_of<S, M>(
    entry: SuperfileEntry<S, M>,
    shard: ShardOutput<S>,
    name: SuperfileName,
    opened: OpenedSuperfile<M>,
    hint: Option<u32>,
    formats: BlobFormats,
) -> bool {
    &&& are_offsets(entry.subsection_offsets, buffer_bytes(shard.bytes), opened.footer, formats)
    &&& entry == SuperfileEntry {
        birth_version: 0,
        superfile_id: name.superfile_id,
        uri: name.uri,
        n_docs: shard.n_docs,
        id_min: shard.id_min,
        id_max: shard.id_max,
        scalar_stats: shard.scalar_stats,
        summary: opened.summary,
        partition_hint: hint,
        subsection_offsets: entry.subsection_offsets,
        vector_layout: opened.vector_layout,
    }
}

/// The footer says where the vectors are.
pub open spec fn locates_vectors(footer: Option<FooterFields>) -> bool {
    footer matches Some(ft) && blob_at(ft.vec_offset, ft.vec_length) is Some
}

/// The bytes of a vector can be counted, as far as the superfile was opened.
pub open spec fn opening_fits<M>(opened: Result<OpenedSuperfile<M>, String>) -> bool {
    opened matches Ok(o) ==> vectors_fit(o.footer)
}

/// Why a shard cannot be published, if it cannot. One without rows is not
/// looked at.
pub open spec fn prepare_fault<S, M>(
    shard: ShardOutput<S>,
    opened: Result<OpenedSuperfile<M>, String>,
) -> Option<PrepareFault> {
    if shard.n_docs == 0 {
        None
    } else {
        match opened {
            Err(e) => Some(PrepareFault::Open(e)),
            Ok(o) => if o.vector_layout is CellPosting && !locates_vectors(o.footer) {
                Some(PrepareFault::MissingVectorOffsets)
            } else {
                None
            },
        }
    }
}

/// The write is there when it is to be, under the superfile's path and with its
/// bytes.
pub open spec fn is_write(write: Option<(u128, bytes::Bytes)>, goes: bool, uri: u128, bytes: Seq<u8>) -> bool {
    match write {
        Some(w) => goes && w.0 == uri && buffer_bytes(w.1) == bytes,
        None => !goes,
    }
}

/// A shard is ready: its entry, and its bytes for wherever they go.
pub open spec fn is_prepared<S, M>(
    prepared: PreparedSuperfile<SuperfileEntry<S, M>, (u128, bytes::Bytes)>,
    shard: ShardOutput<S>,
    name: SuperfileName,
    opened: OpenedSuperfile<M>,
    hint: Option<u32>,
    formats: BlobFormats,
    places: BytePlaces,
) -> bool {
    let d = disposition_of(places);
    let bytes = buffer_bytes(shard.bytes);
    &&& is_entry_of(prepared.entry, shard, name, opened, hint, formats)
    &&& is_write(prepared.bytes_for_store, d.store, name.uri, bytes)
    &&& is_write(prepared.bytes_for_storage, d.storage, name.uri, bytes)
    &&& is_write(prepared.bytes_for_cache, d.cache, name.uri, bytes)
}

fn write_if(goes: bool, uri: u128, bytes: &bytes::Bytes) -> (write: Option<(u128, bytes::Bytes)>)
    ensures
        is_write(write, goes, uri, buffer_bytes(*bytes)),
{
    if goes {
        Some((uri, share(bytes)))
    } else {
        None
    }
}

/// Makes a built shard ready to be published, under the path of the superfile
/// that it replaces if there is one. One without rows is not published.
pub fn prepare_superfile_with_uri<S, M>(
    shard: ShardOutput<S>,
    reuse_uri: Option<u128>,
    fresh: SuperfileName,
    opened: Result<OpenedSuperfile<M>, String>,
    formats: &BlobFormats,
    places: &BytePlaces,
) -> (result: Result<Option<PreparedSuperfile<SuperfileEntry<S, M>, (u128, bytes::Bytes)>>, PrepareFault>)
    requires
        formats.well_formed(),
        opening_fits(opened),
    ensures
        ({
            let name = SuperfileName {
                uri: match reuse_uri {
                    Some(uri) => uri,
                    None => fresh.uri,
                },
                superfile_id: fresh.superfile_id,
            };
            if shard.n_docs == 0 {
                result is Ok && result->Ok_0 is None
            } else {
                match prepare_fault(shard, opened) {
                    Some(f) => result is Err && result->Err_0 == f,
                    None => {
                        &&& result is Ok
                        &&& result->Ok_0 is Some
                        &&& is_prepared(
                            result->Ok_0->0,
                            shard,
                            name,
                            opened->Ok_0,
                            None,
                            *formats,
                            *places,
                        )
                    },
                }
            }
        }),
{
    if shard.n_docs == 0 {
        return Ok(None);
    }
    let uri: u128 = match reuse_uri {
        Some(uri) => uri,
        None => fresh.uri,
    };
    let OpenedSuperfile { summary, footer, vector_layout } = match opened {
        Ok(o) => o,
        Err(e) => {
            return Err(PrepareFault::Open(e));
        },
    };
    let subsection_offsets = build_subsection_offsets(&shard.bytes, footer, formats);
    let posting: bool = match vector_layout {
        VectorLayout::CellPosting => true,
        _ => false,
    };
    let has_offsets: bool = match &subsection_offsets {
        Some(o) => o.vec.is_some(),
        None => false,
    };
    if posting && !has_offsets {
        return Err(PrepareFault::MissingVectorOffsets);
    }
    let d = disposition(places);
    let bytes_for_store = write_if(d.store, uri, &shard.bytes);
    let bytes_for_storage = write_if(d.storage, uri, &shard.bytes);
    let bytes_for_cache = write_if(d.cache, uri, &shard.bytes);
    let entry = SuperfileEntry {
        birth_version: 0,
        superfile_id: fresh.superfile_id,
        uri,
        n_docs: shard.n_docs,
        id_min: shard.id_min,
        id_max: shard.id_max,
        scalar_stats: shard.scalar_stats,
        summary,
        partition_hint: None,
        subsection_offsets,
        vector_layout,
    };
    Ok(Some(PreparedSuperfile { entry, bytes_for_store, bytes_for_storage, bytes_for_cache }))
}

/// Makes a built shard ready to be published, under a path of its own.
pub fn prepare_superfile<S, M>(
    shard: ShardOutput<S>,
    fresh: SuperfileName,
    opened: Result<OpenedSuperfile<M>, String>,
    formats: &BlobFormats,
    places: &BytePlaces,
) -> (result: Result<Option<PreparedSuperfile<SuperfileEntry<S, M>, (u128, bytes::Bytes)>>, PrepareFault>)
    requires
        formats.well_formed(),
        opening_fits(opened),
    ensures
        if shard.n_docs == 0 {
            result is Ok && result->Ok_0 is None
        } else {
            match prepare_fault(shard, opened) {
                Some(f) => result is Err && result->Err_0 == f,
                None => {
                    &&& result is Ok
                    &&& result->Ok_0 is Some
                    &&& is_prepared(
                        result->Ok_0->0,
                        shard,
                        fresh,
                        opened->Ok_0,
                        None,
                        *formats,
                        *places,
                    )
                },
            }
        },
{
    prepare_superfile_with_uri(shard, None, fresh, opened, formats, places)
}

/// Gives an entry its partition: the new hint, or the one it had.
pub fn finish_superfile_entry<S, M>(entry: SuperfileEntry<S, M>, hint: Option<u32>) -> (staged: SuperfileEntry<
    S,
    M,
>)
    ensures
        staged == (SuperfileEntry {
            partition_hint: match hint {
                Some(h) => Some(h),
                None => entry.partition_hint,
            },
            ..entry
        }),
{
    let mut staged = entry;
    if let Some(h) = hint {
        staged.partition_hint = Some(h);
    }
    staged
}

// ---------------------------------------------------------------------------
// A batch to publish
// ---------------------------------------------------------------------------

/// The entries of a commit and the writes that belong to them.
#[derive(Debug)]
pub struct SuperfilePublishBatch<E, T> {
    pub new_entries: Vec<E>,
    pub to_remove: Vec<E>,
    pub pending_storage_writes: Vec<T>,
    pub pending_cache_inserts: Vec<T>,
    pub pending_store_inserts: Vec<T>,
}

pub open spec fn entries_of<E, T>(s: Seq<PreparedSuperfile<E, T>>) -> Seq<E> {
    Seq::new(s.len(), |i: int| s[i].entry)
}

/// The values that are there, in order.
pub open spec fn present<T>(s: Seq<Option<T>>) -> Seq<T>
    decreases s.len(),
{
    if s.len() == 0 {
        Seq::empty()
    } else {
        match s.last() {
            Some(t) => present(s.drop_last()).push(t),
            None => present(s.drop_last()),
        }
    }
}

pub open spec fn for_store<E, T>(s: Seq<PreparedSuperfile<E, T>>) -> Seq<Option<T>> {
    Seq::new(s.len(), |i: int| s[i].bytes_for_store)
}

pub open spec fn for_storage<E, T>(s: Seq<PreparedSuperfile<E, T>>) -> Seq<Option<T>> {
    Seq::new(s.len(), |i: int| s[i].bytes_for_storage)
}

pub open spec fn for_cache<E, T>(s: Seq<PreparedSuperfile<E, T>>) -> Seq<Option<T>> {
    Seq::new(s.len(), |i: int| s[i].bytes_for_cache)
}

/// Collects the superfiles of a commit.
pub fn collect_prepared_superfiles<E, T>(prepared: Vec<PreparedSuperfile<E, T>>) -> (batch:
    SuperfilePublishBatch<E, T>)
    ensures
        batch.new_entries@ == entries_of(prepared@),
        batch.to_remove.len() == 0,
        batch.pending_storage_writes@ == present(for_storage(prepared@)),
        batch.pending_cache_inserts@ == present(for_cache(prepared@)),
        batch.pending_store_inserts@ == present(for_store(prepared@)),
{
    let ghost all = prepared@;
    let mut reversed: Vec<PreparedSuperfile<E, T>> = Vec::new();
    let mut rest = prepared;
    while rest.len() > 0
        invariant
            rest@ == all.take(rest.len() as int),
            rest.len() + reversed.len() == all.len(),
            forall|i: int| 0 <= i < reversed.len() ==> #[trigger] reversed@[i] == all[all.len() - 1 - i],
        decreases rest.len(),
    {
        let ghost before = rest@;
        let next = rest.pop();
        if let Some(p) = next {
            assert(p == all[rest.len() as int]);
            reversed.push(p);
        }
        assert(rest@ =~= all.take(rest.len() as int));
    }
    let mut new_entries: Vec<E> = Vec::new();
    let mut pending_storage_writes: Vec<T> = Vec::new();
    let mut pending_cache_inserts: Vec<T> = Vec::new();
    let mut pending_store_inserts: Vec<T> = Vec::new();
    let ghost mut n: int = 0;
    proof {
        assert(for_store(all).take(0) =~= Seq::<Option<T>>::empty());
        assert(for_storage(all).take(0) =~= Seq::<Option<T>>::empty());
        assert(for_cache(all).take(0) =~= Seq::<Option<T>>::empty());
    }
    while reversed.len() > 0
        invariant
            n == all.len() - reversed.len(),
            0 <= n <= all.len(),
            forall|i: int| 0 <= i < reversed.len() ==> #[trigger] reversed@[i] == all[all.len() - 1 - i],
            new_entries@ == entries_of(all).take(n),
            pending_storage_writes@ == present(for_storage(all).take(n)),
            pending_cache_inserts@ == present(for_cache(all).take(n)),
            pending_store_inserts@ == present(for_store(all).take(n)),
        decreases reversed.len(),
    {
        let ghost before = reversed@;
        let next = reversed.pop();
        if let Some(p) = next {
            proof {
                assert(before[before.len() - 1] == all[all.len() - 1 - (before.len() - 1)]);
                assert(p == all[n]);
                assert(for_store(all).take(n + 1).drop_last() =~= for_store(all).take(n));
                assert(for_storage(all).take(n + 1).drop_last() =~= for_storage(all).take(n));
                assert(for_cache(all).take(n + 1).drop_last() =~= for_cache(all).take(n));
            }
            if let Some(t) = p.bytes_for_store {
                pending_store_inserts.push(t);
            }
            if let Some(t) = p.bytes_for_storage {
                pending_storage_writes.push(t);
            }
            if let Some(t) = p.bytes_for_cache {
                pending_cache_inserts.push(t);
            }
            new_entries.push(p.entry);
            proof {
                n = n + 1;
            }
            assert(new_entries@ =~= entries_of(all).take(n));
        }
    }
    proof {
        assert(entries_of(all).take(n) =~= entries_of(all));
        assert(for_store(all).take(n) =~= for_store(all));
        assert(for_storage(all).take(n) =~= for_storage(all));
        assert(for_cache(all).take(n) =~= for_cache(all));
    }
    SuperfilePublishBatch {
        new_entries,
        to_remove: Vec::new(),
        pending_storage_writes,
        pending_cache_inserts,
        pending_store_inserts,
    }
}

/// The shards and the hints of a commit do not match.
#[derive(Clone, Copy, PartialEq, Eq, Structural, Debug)]
pub struct OutOfSync {
    pub outputs: usize,
    pub hints: usize,
}

/// Why a commit's shards cannot be published.
#[derive(Debug)]
pub enum BatchFault {
    OutOfSync(OutOfSync),
    Prepare(PrepareFault),
}

/// The places of the shards that have rows, in order.
pub open spec fn shards_with_rows<S>(outputs: Seq<ShardOutput<S>>) -> Seq<int>
    decreases outputs.len(),
{
    if outputs.len() == 0 {
        Seq::empty()
    } else if outputs.last().n_docs == 0 {
        shards_with_rows(outputs.drop_last())
    } else {
        shards_with_rows(outputs.drop_last()).push(outputs.len() - 1)
    }
}

/// The first shard that cannot be published, with the reason.
pub open spec fn first_fault<S, M>(
    outputs: Seq<ShardOutput<S>>,
    opened: Seq<Result<OpenedSuperfile<M>, String>>,
    from: int,
) -> Option<PrepareFault>
    decreases outputs.len() - from,
{
    if from < 0 || from >= outputs.len() {
        None
    } else {
        match prepare_fault(outputs[from], opened[from]) {
            Some(f) => Some(f),
            None => first_fault(outputs, opened, from + 1),
        }
    }
}

/// One write for each of the shards, in order, when they are to go there at all.
pub open spec fn are_writes<S>(
    writes: Seq<(u128, bytes::Bytes)>,
    goes: bool,
    outputs: Seq<ShardOutput<S>>,
    names: Seq<SuperfileName>,
    kept: Seq<int>,
) -> bool {
    if goes {
        &&& writes.len() == kept.len()
        &&& forall|k: int|
            0 <= k < kept.len() ==> (#[trigger] writes[k]).0 == names[kept[k]].uri && buffer_bytes(writes[k].1)
                == buffer_bytes(outputs[kept[k]].bytes)
    } else {
        writes.len() == 0
    }
}

proof fn all_present<T>(s: Seq<Option<T>>)
    requires
        forall|i: int| 0 <= i < s.len() ==> (#[trigger] s[i]) is Some,
    ensures
        present(s).len() == s.len(),
        forall|i: int| 0 <= i < s.len() ==> #[trigger] present(s)[i] == s[i]->0,
    decreases s.len(),
{
    if s.len() > 0 {
        let init = s.drop_last();
        assert forall|i: int| 0 <= i < init.len() implies (#[trigger] init[i]) is Some by {
            assert(s[i] is Some);
        }
        all_present(init);
        assert(s[s.len() - 1] is Some);
        assert forall|i: int| 0 <= i < s.len() implies #[trigger] present(s)[i] == s[i]->0 by {
            if i < init.len() {
                assert(present(init)[i] == init[i]->0);
            }
        }
    }
}

proof fn none_present<T>(s: Seq<Option<T>>)
    requires
        forall|i: int| 0 <= i < s.len() ==> (#[trigger] s[i]) is None,
    ensures
        present(s).len() == 0,
    decreases s.len(),
{
    if s.len() > 0 {
        let init = s.drop_last();
        assert forall|i: int| 0 <= i < init.len() implies (#[trigger] init[i]) is None by {
            assert(s[i] is None);
        }
        none_present(init);
        assert(s[s.len() - 1] is None);
    }
}

proof fn writes_are_collected<S>(
    writes: Seq<Option<(u128, bytes::Bytes)>>,
    goes: bool,
    outputs: Seq<ShardOutput<S>>,
    names: Seq<SuperfileName>,
    kept: Seq<int>,
)
    requires
        writes.len() == kept.len(),
        forall|k: int|
            0 <= k < kept.len() ==> is_write(
                #[trigger] writes[k],
                goes,
                names[kept[k]].uri,
                buffer_bytes(outputs[kept[k]].bytes),
            ),
    ensures
        are_writes(present(writes), goes, outputs, names, kept),
{
    if goes {
        assert forall|i: int| 0 <= i < writes.len() implies (#[trigger] writes[i]) is Some by {
            assert(is_write(writes[i], goes, names[kept[i]].uri, buffer_bytes(outputs[kept[i]].bytes)));
        }
        all_present(writes);
        assert forall|k: int| 0 <= k < kept.len() implies (#[trigger] present(writes)[k]).0
            == names[kept[k]].uri && buffer_bytes(present(writes)[k].1) == buffer_bytes(
            outputs[kept[k]].bytes,
        ) by {
            assert(is_write(writes[k], goes, names[kept[k]].uri, buffer_bytes(outputs[kept[k]].bytes)));
        }
    } else {
        assert forall|i: int| 0 <= i < writes.len() implies (#[trigger] writes[i]) is None by {
            assert(is_write(writes[i], goes, names[kept[i]].uri, buffer_bytes(outputs[kept[i]].bytes)));
        }
        none_present(writes);
    }
}

/// Where the shard at `i` stands among those with rows.
proof fn rows_so_far<S>(outputs: Seq<ShardOutput<S>>, i: int)
    requires
        0 <= i <= outputs.len(),
    ensures
        shards_with_rows(outputs).len() >= shards_with_rows(outputs.take(i)).len(),
        forall|k: int|
            0 <= k < shards_with_rows(outputs.take(i)).len() ==> #[trigger] shards_with_rows(outputs)[k]
                == shards_with_rows(outputs.take(i))[k],
        forall|k: int|
            0 <= k < shards_with_rows(outputs).len() ==> 0 <= #[trigger] shards_with_rows(outputs)[k]
                < outputs.len(),
    decreases outputs.len(),
{
    if outputs.len() > 0 {
        let init = outputs.drop_last();
        if i == outputs.len() {
            assert(outputs.take(i) =~= outputs);
            rows_so_far(init, init.len() as int);
        } else {
            assert(init.take(i) =~= outputs.take(i));
            rows_so_far(init, i);
        }
        assert forall|k: int| 0 <= k < shards_with_rows(outputs).len() implies 0
            <= #[trigger] shards_with_rows(outputs)[k] < outputs.len() by {
            if k < shards_with_rows(init).len() {
                assert(shards_with_rows(outputs)[k] == shards_with_rows(init)[k]);
            }
        }
        assert forall|k: int| 0 <= k < shards_with_rows(outputs.take(i)).len() implies #[trigger]
            shards_with_rows(outputs)[k] == shards_with_rows(outputs.take(i))[k] by {
            if i < outputs.len() {
                assert(shards_with_rows(init)[k] == shards_with_rows(init.take(i))[k]);
                assert(shards_with_rows(outputs)[k] == shards_with_rows(init)[k]);
            }
        }
    } else {
        assert(outputs.take(i) =~= outputs);
    }
}

/// Every shard with rows is published, and no other.
pub proof fn shards_with_rows_are_published<S>(outputs: Seq<ShardOutput<S>>, i: int)
    requires
        0 <= i < outputs.len(),
    ensures
        shards_with_rows(outputs).contains(i) <==> outputs[i].n_docs > 0,
    decreases outputs.len(),
{
    let init = outputs.drop_last();
    let kept = shards_with_rows(outputs);
    let before = shards_with_rows(init);
    rows_so_far(init, init.len() as int);
    if i < init.len() {
        shards_with_rows_are_published(init, i);
        if before.contains(i) {
            let k = choose|k: int| 0 <= k < before.len() && before[k] == i;
            assert(kept[k] == i);
        }
        if kept.contains(i) {
            let k = choose|k: int| 0 <= k < kept.len() && kept[k] == i;
            assert(before[k] == i);
        }
    } else {
        if outputs[i].n_docs > 0 {
            assert(kept[kept.len() - 1] == i);
        }
        if kept.contains(i) && outputs[i].n_docs == 0 {
            let k = choose|k: int| 0 <= k < before.len() && before[k] == i;
            assert(0 <= shards_with_rows(init)[k] < init.len());
        }
    }
}

/// Makes the shards of a commit ready and collects them. There must be one hint
/// for each shard: without that a shard would be left out unseen. Each shard
/// comes with its new name and with what opening it gave.
pub fn prepare_user_superfile_batch<S, M>(
    outputs: Vec<ShardOutput<S>>,
    hints: Vec<Option<u32>>,
    names: &Vec<SuperfileName>,
    opened: Vec<Result<OpenedSuperfile<M>, String>>,
    formats: &BlobFormats,
    places: &BytePlaces,
) -> (result: Result<SuperfilePublishBatch<SuperfileEntry<S, M>, (u128, bytes::Bytes)>, BatchFault>)
    requires
        names.len() == outputs.len(),
        opened.len() == outputs.len(),
        formats.well_formed(),
        forall|i: int| 0 <= i < opened.len() ==> opening_fits(#[trigger] opened@[i]),
    ensures
        if outputs.len() != hints.len() {
            &&& result is Err
            &&& result->Err_0 == BatchFault::OutOfSync(
                OutOfSync { outputs: outputs@.len() as usize, hints: hints@.len() as usize },
            )
        } else {
            match first_fault(outputs@, opened@, 0) {
                Some(f) => result is Err && result->Err_0 == BatchFault::Prepare(f),
                None => {
                    let kept = shards_with_rows(outputs@);
                    let d = disposition_of(*places);
                    let batch = result->Ok_0;
                    &&& result is Ok
                    &&& batch.new_entries.len() == kept.len()
                    &&& forall|k: int|
                        0 <= k < kept.len() ==> is_entry_of(
                            #[trigger] batch.new_entries@[k],
                            outputs@[kept[k]],
                            names@[kept[k]],
                            opened@[kept[k]]->Ok_0,
                            hints@[kept[k]],
                            *formats,
                        )
                    &&& batch.to_remove.len() == 0
                    &&& are_writes(batch.pending_storage_writes@, d.storage, outputs@, names@, kept)
                    &&& are_writes(batch.pending_cache_inserts@, d.cache, outputs@, names@, kept)
                    &&& are_writes(batch.pending_store_inserts@, d.store, outputs@, names@, kept)
                },
            }
        },
{
    if outputs.len() != hints.len() {
        return Err(
            BatchFault::OutOfSync(OutOfSync { outputs: outputs.len(), hints: hints.len() }),
        );
    }
    let ghost all = outputs@;
    let ghost looks = opened@;
    let mut rest = outputs;
    let mut looked = opened;
    let mut fault: Option<PrepareFault> = None;
    let mut reversed: Vec<PreparedSuperfile<SuperfileEntry<S, M>, (u128, bytes::Bytes)>> = Vec::new();
    let ghost kept = shards_with_rows(all);
    proof {
        rows_so_far(all, all.len() as int);
        assert(all.take(all.len() as int) =~= all);
        assert(looks.take(all.len() as int) =~= looks);
    }
    while rest.len() > 0
        invariant
            rest.len() == looked.len(),
            rest.len() <= all.len(),
            all.len() == looks.len(),
            hints.len() == all.len(),
            names.len() == all.len(),
            formats.well_formed(),
            forall|i: int| 0 <= i < looks.len() ==> opening_fits(#[trigger] looks[i]),
            rest@ == all.take(rest.len() as int),
            looked@ == looks.take(rest.len() as int),
            kept == shards_with_rows(all),
            forall|k: int| 0 <= k < kept.len() ==> 0 <= #[trigger] kept[k] < all.len(),
            match fault {
                Some(f) => first_fault(all, looks, rest.len() as int) == Some(f),
                None => {
                    &&& first_fault(all, looks, rest.len() as int) is None
                    &&& reversed.len() == kept.len() - shards_with_rows(rest@).len()
                    &&& forall|q: int|
                        0 <= q < reversed.len() ==> is_prepared(
                            #[trigger] reversed@[q],
                            all[kept[kept.len() - 1 - q]],
                            names@[kept[kept.len() - 1 - q]],
                            looks[kept[kept.len() - 1 - q]]->Ok_0,
                            hints@[kept[kept.len() - 1 - q]],
                            *formats,
                            *places,
                        )
                },
            },
        decreases rest.len(),
    {
        let ghost before = rest@;
        let ghost i = rest.len() - 1;
        let next = rest.pop();
        let look = looked.pop();
        proof {
            assert(rest@ =~= all.take(i));
            assert(looked@ =~= looks.take(i));
            assert(before.drop_last() =~= rest@);
            assert(before.last() == all[i]);
            rows_so_far(all, i + 1);
            rows_so_far(all, i);
            assert(all.take(i + 1) =~= before);
        }
        if let (Some(shard), Some(opening)) = (next, look) {
            assert(shard == all[i] && opening == looks[i]);
            let at: usize = rest.len();
            match prepare_superfile(shard, names[at], opening, formats, places) {
                Err(f) => {
                    fault = Some(f);
                },
                Ok(None) => {
                },
                Ok(Some(p)) => {
                    let PreparedSuperfile { entry, bytes_for_store, bytes_for_storage, bytes_for_cache } = p;
                    let ready = PreparedSuperfile {
                        entry: finish_superfile_entry(entry, hints[at]),
                        bytes_for_store,
                        bytes_for_storage,
                        bytes_for_cache,
                    };
                    proof {
                        let place = shards_with_rows(before).len() - 1;
                        assert(kept[place] == shards_with_rows(before)[place]);
                        assert(kept[place] == i);
                        if fault is None {
                            assert(kept.len() - 1 - reversed.len() == place);
                        }
                    }
                    reversed.push(ready);
                },
            }
        }
    }
    proof {
        assert(shards_with_rows(rest@).len() == 0);
    }
    if let Some(f) = fault {
        return Err(BatchFault::Prepare(f));
    }
    let ghost backwards = reversed@;
    let mut prepared: Vec<PreparedSuperfile<SuperfileEntry<S, M>, (u128, bytes::Bytes)>> = Vec::new();
    while reversed.len() > 0
        invariant
            reversed.len() + prepared.len() == backwards.len(),
            reversed@ == backwards.take(reversed.len() as int),
            forall|k: int|
                0 <= k < prepared.len() ==> #[trigger] prepared@[k] == backwards[backwards.len() - 1 - k],
        decreases reversed.len(),
    {
        let ghost was = reversed@;
        if let Some(p) = reversed.pop() {
            assert(p == was.last());
            prepared.push(p);
        }
        assert(reversed@ =~= backwards.take(reversed.len() as int));
    }
    proof {
        assert forall|k: int| 0 <= k < kept.len() implies is_prepared(
            #[trigger] prepared@[k],
            all[kept[k]],
            names@[kept[k]],
            looks[kept[k]]->Ok_0,
            hints@[kept[k]],
            *formats,
            *places,
        ) by {
            let q = kept.len() - 1 - k;
            assert(prepared@[k] == backwards[q]);
        }
        let d = disposition_of(*places);
        assert forall|k: int| 0 <= k < kept.len() implies is_write(
            #[trigger] for_storage(prepared@)[k],
            d.storage,
            names@[kept[k]].uri,
            buffer_bytes(all[kept[k]].bytes),
        ) by {
            let p = prepared@[k];
        }
        assert forall|k: int| 0 <= k < kept.len() implies is_write(
            #[trigger] for_cache(prepared@)[k],
            d.cache,
            names@[kept[k]].uri,
            buffer_bytes(all[kept[k]].bytes),
        ) by {
            let p = prepared@[k];
        }
        assert forall|k: int| 0 <= k < kept.len() implies is_write(
            #[trigger] for_store(prepared@)[k],
            d.store,
            names@[kept[k]].uri,
            buffer_bytes(all[kept[k]].bytes),
        ) by {
            let p = prepared@[k];
        }
        writes_are_collected(for_storage(prepared@), d.storage, all, names@, kept);
        writes_are_collected(for_cache(prepared@), d.cache, all, names@, kept);
        writes_are_collected(for_store(prepared@), d.store, all, names@, kept);
    }
    let ghost ready = prepared@;
    let batch = collect_prepared_superfiles(prepared);
    proof {
        assert forall|k: int| 0 <= k < kept.len() implies is_entry_of(
            #[trigger] batch.new_entries@[k],
            all[kept[k]],
            names@[kept[k]],
            looks[kept[k]]->Ok_0,
            hints@[kept[k]],
            *formats,
        ) by {
            let p = ready[k];
            assert(batch.new_entries@[k] == p.entry);
        }
    }
    Ok(batch)
}

/// A step of publishing a batch.
#[derive(Clone, Copy, PartialEq, Eq, Structural, Debug)]
pub enum PublishStep {
    /// The commit on storage. A failure ends the publishing.
    Commit,
    /// The manifest of a table that has no storage.
    Swap,
    /// The bytes go into the store in memory. With `required` a failure ends
    /// the publishing: the store then has the only copy.
    StoreInserts { required: bool },
    WarmCache,
}

/// The steps of publishing a batch, in order. With storage the bytes are safe
/// there before the manifest is; without, they are in the store first.
pub fn publish_steps(n_entries: usize, has_storage: bool, has_cache: bool) -> (steps: Vec<PublishStep>)
    ensures
        steps@ == if n_entries == 0 {
            Seq::<PublishStep>::empty()
        } else if has_storage {
            let first = seq![PublishStep::Commit, PublishStep::StoreInserts { required: false }];
            if has_cache {
                first.push(PublishStep::WarmCache)
            } else {
                first
            }
        } else {
            seq![PublishStep::StoreInserts { required: true }, PublishStep::Swap]
        },
{
    let mut steps: Vec<PublishStep> = Vec::new();
    if n_entries == 0 {
        return steps;
    }
    if has_storage {
        steps.push(PublishStep::Commit);
        steps.push(PublishStep::StoreInserts { required: false });
        if has_cache {
            steps.push(PublishStep::WarmCache);
        }
    } else {
        steps.push(PublishStep::StoreInserts { required: true });
        steps.push(PublishStep::Swap);
    }
    steps
}

} // verus!
