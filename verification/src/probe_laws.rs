//! Measuring the probe laws anew: which rows are sampled as queries, and what a
//! measurement changes in the laws that queries run by.
use vstd::prelude::*;

use std::collections::HashSet;

use crate::arith::capped;
use crate::drain_run::{widen_law, widened};
use crate::order::{sorted_by, stable_order, SortKey};

verus! {

broadcast use vstd::std_specs::hash::group_hash_axioms;

// ---------------------------------------------------------------------------
// Whether there is anything to measure
// ---------------------------------------------------------------------------

/// The routing of a table by cells.
#[derive(Debug)]
pub struct CellRouting {
    pub n_cent: u32,
    pub dim: u32,
    /// The table's options know the column.
    pub column_known: bool,
    pub width_for_k: Vec<u32>,
}

/// Why the laws cannot be measured.
#[derive(Clone, Copy, PartialEq, Eq, Structural, Debug)]
pub enum RecalibrationFault {
    MissingColumn,
    NoStorage,
}

/// No width was ever measured.
pub open spec fn never_measured(width: Seq<u32>) -> bool {
    forall|i: int| 0 <= i < width.len() ==> #[trigger] width[i] == 0
}

/// Whether the laws are measured anew. A table that is not routed by cells, has
/// no grid or was never measured is left alone; one that cannot be read is an
/// error, since its laws would go on being wrong.
pub fn recalibration_due(routing: Option<&CellRouting>, has_storage: bool) -> (due: Result<
    bool,
    RecalibrationFault,
>)
    ensures
        match routing {
            None => due == Ok::<bool, RecalibrationFault>(false),
            Some(r) => due == if !r.column_known {
                Err::<bool, RecalibrationFault>(RecalibrationFault::MissingColumn)
            } else if r.n_cent == 0 || r.dim == 0 || never_measured(r.width_for_k@) {
                Ok(false)
            } else if !has_storage {
                Err(RecalibrationFault::NoStorage)
            } else {
                Ok(true)
            },
        },
{
    let r = match routing {
        None => {
            return Ok(false);
        },
        Some(r) => r,
    };
    if !r.column_known {
        return Err(RecalibrationFault::MissingColumn);
    }
    if r.n_cent == 0 || r.dim == 0 {
        return Ok(false);
    }
    let mut measured: bool = false;
    let mut i: usize = 0;
    while i < r.width_for_k.len() && !measured
        invariant
            i <= r.width_for_k.len(),
            measured ==> !never_measured(r.width_for_k@),
            !measured ==> forall|k: int| 0 <= k < i ==> #[trigger] r.width_for_k@[k] == 0,
        decreases r.width_for_k.len() - i,
    {
        if r.width_for_k[i] != 0 {
            assert(r.width_for_k@[i as int] != 0);
            measured = true;
        }
        i = i + 1;
    }
    if !measured {
        return Ok(false);
    }
    if !has_storage {
        return Err(RecalibrationFault::NoStorage);
    }
    Ok(true)
}

// ---------------------------------------------------------------------------
// The sample
// ---------------------------------------------------------------------------

/// A cell of a superfile and its rows.
#[derive(Clone, Copy, PartialEq, Eq, Structural, Debug)]
pub struct Slot {
    pub entry: usize,
    pub cell: u32,
    pub rows: u32,
}

/// The rows in the slots.
pub open spec fn total_rows(slots: Seq<Slot>) -> int
    decreases slots.len(),
{
    if slots.len() == 0 {
        0
    } else {
        total_rows(slots.drop_last()) + slots.last().rows
    }
}

/// Row `i` of a sample of `count` rows of `total`, evenly spaced.
pub open spec fn sample_ordinal(i: int, total: int, count: int) -> int {
    (i * total) / count
}

/// The rows that are sampled, by their place among all rows.
pub open spec fn sample_ordinals_of(total: int, most: int) -> Seq<int> {
    Seq::new(
        capped(total, most) as nat,
        |i: int| sample_ordinal(i, total, capped(total, most)),
    )
}

proof fn ordinal_bounds(i: int, total: int, count: int)
    requires
        0 <= i < count,
        count <= total,
    ensures
        0 <= sample_ordinal(i, total, count) < total,
        sample_ordinal(i, total, count) < sample_ordinal(i + 1, total, count),
{
    assert(0 <= i * total) by (nonlinear_arith)
        requires
            0 <= i,
            0 <= total,
    ;
    assert(i * total + count <= (i + 1) * total) by (nonlinear_arith)
        requires
            count <= total,
    ;
    assert((i + 1) * total <= count * total) by (nonlinear_arith)
        requires
            i + 1 <= count,
            0 <= total,
    ;
    let a = i * total;
    let b = (i + 1) * total;
    vstd::arithmetic::div_mod::lemma_div_plus_one(a, count);
    vstd::arithmetic::div_mod::lemma_div_is_ordered(a + count, b, count);
    assert(a / count + 1 == (a + count) / count) by {
        assert(count + a == a + count);
    }
    vstd::arithmetic::div_mod::lemma_div_is_ordered(b, count * total, count);
    vstd::arithmetic::div_mod::lemma_div_multiples_vanish(total, count);
    vstd::arithmetic::div_mod::lemma_div_pos_is_pos(a, count);
}

/// A sample has as many rows as it may, or all of them, each of them once.
pub proof fn sample_rows_are_distinct(total: int, most: int, i: int, j: int)
    requires
        0 <= most,
        0 <= i < j < sample_ordinals_of(total, most).len(),
        0 <= total,
    ensures
        sample_ordinals_of(total, most).len() == capped(total, most),
        0 <= sample_ordinals_of(total, most)[i] < sample_ordinals_of(total, most)[j] < total,
    decreases j - i,
{
    let count = capped(total, most);
    ordinal_bounds(i, total, count);
    ordinal_bounds(j, total, count);
    if i + 1 < j {
        sample_rows_are_distinct(total, most, i + 1, j);
    }
}

/// The slot that a row is in, and its place there.
pub open spec fn locate(slots: Seq<Slot>, ordinal: int) -> (int, int)
    decreases slots.len(),
{
    if slots.len() == 0 || ordinal < slots.first().rows {
        (0, ordinal)
    } else {
        let rest = locate(slots.drop_first(), ordinal - slots.first().rows);
        (rest.0 + 1, rest.1)
    }
}

/// A row that is sampled.
#[derive(Clone, Copy, PartialEq, Eq, Structural, Debug)]
pub struct Pick {
    pub entry: usize,
    pub cell: u32,
    /// The row's place in the cell, deleted rows counted.
    pub ordinal: u32,
}

/// The row at a place among all rows.
pub open spec fn pick_at(slots: Seq<Slot>, ordinal: int) -> Pick {
    let at = locate(slots, ordinal);
    Pick { entry: slots[at.0].entry, cell: slots[at.0].cell, ordinal: at.1 as u32 }
}

/// The sampled rows in the order of the slots.
pub open spec fn picks_of(slots: Seq<Slot>, most: int) -> Seq<Pick> {
    let ordinals = sample_ordinals_of(total_rows(slots), most);
    Seq::new(ordinals.len(), |i: int| pick_at(slots, ordinals[i]))
}

pub open spec fn pick_keys(picks: Seq<Pick>) -> Seq<SortKey> {
    Seq::new(picks.len(), |i: int| (picks[i].entry as i128, picks[i].cell as u128))
}

/// The sampled rows by superfile and then by cell.
pub open spec fn grouped_picks(picks: Seq<Pick>) -> Seq<Pick> {
    sorted_by(picks, pick_keys(picks))
}

proof fn locate_after(slots: Seq<Slot>, n: int, ordinal: int)
    requires
        0 <= n < slots.len(),
        total_rows(slots.take(n)) <= ordinal < total_rows(slots.take(n + 1)),
    ensures
        locate(slots, ordinal) == (n, ordinal - total_rows(slots.take(n))),
    decreases slots.len(),
{
    assert(slots.take(n + 1).drop_last() =~= slots.take(n));
    if n == 0 {
        assert(slots.take(0) =~= Seq::<Slot>::empty());
        assert(slots.take(1).drop_last() =~= Seq::<Slot>::empty());
        assert(slots.take(1).last() == slots.first());
    } else {
        total_from_front(slots.take(n));
        total_from_front(slots.take(n + 1));
        assert(slots.take(n).drop_first() =~= slots.drop_first().take(n - 1));
        assert(slots.take(n + 1).drop_first() =~= slots.drop_first().take(n));
        total_not_negative(slots.drop_first().take(n - 1));
        locate_after(slots.drop_first(), n - 1, ordinal - slots.first().rows);
    }
}

proof fn total_not_negative(slots: Seq<Slot>)
    ensures
        total_rows(slots) >= 0,
    decreases slots.len(),
{
    if slots.len() > 0 {
        total_not_negative(slots.drop_last());
    }
}

proof fn total_from_front(slots: Seq<Slot>)
    requires
        slots.len() > 0,
    ensures
        total_rows(slots) == slots.first().rows + total_rows(slots.drop_first()),
    decreases slots.len(),
{
    if slots.len() == 1 {
        assert(slots.drop_first() =~= Seq::<Slot>::empty());
        assert(slots.drop_last() =~= Seq::<Slot>::empty());
    } else {
        total_from_front(slots.drop_last());
        assert(slots.drop_first().drop_last() =~= slots.drop_last().drop_first());
        assert(slots.drop_first().last() == slots.last());
    }
}

proof fn total_prefix(slots: Seq<Slot>, n: int)
    requires
        0 <= n <= slots.len(),
    ensures
        0 <= total_rows(slots.take(n)) <= total_rows(slots),
    decreases slots.len(),
{
    total_not_negative(slots.take(n));
    if n == slots.len() {
        assert(slots.take(n) =~= slots);
    } else {
        assert(slots.drop_last().take(n) =~= slots.take(n));
        total_prefix(slots.drop_last(), n);
    }
}

/// The slots that have rows.
pub open spec fn filled(slots: Seq<Slot>) -> Seq<Slot>
    decreases slots.len(),
{
    if slots.len() == 0 {
        Seq::empty()
    } else if slots.last().rows > 0 {
        filled(slots.drop_last()).push(slots.last())
    } else {
        filled(slots.drop_last())
    }
}

/// Leaves the slots without rows out.
pub fn live_slots(slots: &Vec<Slot>) -> (live: Vec<Slot>)
    ensures
        live@ == filled(slots@),
{
    let mut live: Vec<Slot> = Vec::new();
    let mut i: usize = 0;
    assert(slots@.take(0) =~= Seq::<Slot>::empty());
    while i < slots.len()
        invariant
            i <= slots.len(),
            live@ == filled(slots@.take(i as int)),
        decreases slots.len() - i,
    {
        proof {
            assert(slots@.take(i + 1).drop_last() =~= slots@.take(i as int));
        }
        if slots[i].rows > 0 {
            live.push(slots[i]);
        }
        i = i + 1;
    }
    assert(slots@.take(i as int) =~= slots@);
    live
}

/// Samples rows evenly over all slots, by superfile and then by cell.
pub fn sample_rows(slots: &Vec<Slot>, most: usize) -> (picks: Vec<Pick>)
    requires
        total_rows(slots@) <= u64::MAX,
    ensures
        picks@ == grouped_picks(picks_of(slots@, most as int)),
{
    let mut total: u64 = 0;
    let mut i: usize = 0;
    assert(slots@.take(0) =~= Seq::<Slot>::empty());
    while i < slots.len()
        invariant
            i <= slots.len(),
            total_rows(slots@) <= u64::MAX,
            total == total_rows(slots@.take(i as int)),
        decreases slots.len() - i,
    {
        proof {
            assert(slots@.take(i + 1).drop_last() =~= slots@.take(i as int));
            total_prefix(slots@, i + 1);
        }
        total = total + slots[i].rows as u64;
        i = i + 1;
    }
    assert(slots@.take(i as int) =~= slots@);
    let count: u64 = if total <= most as u64 {
        total
    } else {
        most as u64
    };
    let ghost wanted = picks_of(slots@, most as int);
    let mut found: Vec<Pick> = Vec::new();
    let mut keys: Vec<SortKey> = Vec::new();
    let mut base: u64 = 0;
    let mut s: usize = 0;
    let mut next: u64 = 0;
    assert(slots@.take(0) =~= Seq::<Slot>::empty());
    assert(found@ =~= wanted.take(0));
    proof {
        if count > 0 {
            ordinal_bounds(0, total as int, count as int);
        }
    }
    while next < count
        invariant
            next <= count,
            count == capped(total as int, most as int),
            count <= total,
            total == total_rows(slots@),
            total_rows(slots@) <= u64::MAX,
            wanted == picks_of(slots@, most as int),
            s <= slots.len(),
            base == total_rows(slots@.take(s as int)),
            next < count ==> base <= sample_ordinal(next as int, total as int, count as int),
            found@ == wanted.take(next as int),
            keys@ == pick_keys(found@),
        decreases count - next, slots.len() - s,
    {
        proof {
            ordinal_bounds(next as int, total as int, count as int);
            assert(next as int * total as int <= u64::MAX * u64::MAX) by (nonlinear_arith)
                requires
                    0 <= next <= u64::MAX,
                    0 <= total <= u64::MAX,
            ;
            if s == slots.len() {
                assert(slots@.take(s as int) =~= slots@);
            }
        }
        let wide: u128 = (next as u128) * (total as u128) / (count as u128);
        assert(wide == sample_ordinal(next as int, total as int, count as int));
        let ordinal: u64 = wide as u64;
        proof {
            assert(slots@.take(s + 1).drop_last() =~= slots@.take(s as int));
            total_prefix(slots@, s + 1);
        }
        let end: u64 = base + slots[s].rows as u64;
        if ordinal < end {
            proof {
                locate_after(slots@, s as int, ordinal as int);
            }
            let pick = Pick {
                entry: slots[s].entry,
                cell: slots[s].cell,
                ordinal: (ordinal - base) as u32,
            };
            assert(pick == wanted[next as int]);
            found.push(pick);
            keys.push((pick.entry as i128, pick.cell as u128));
            next = next + 1;
            assert(found@ =~= wanted.take(next as int));
            assert(keys@ =~= pick_keys(found@));
        } else {
            base = end;
            s = s + 1;
        }
    }
    assert(found@ =~= wanted);
    let order = stable_order(&keys);
    let ghost sorted = grouped_picks(wanted);
    let mut picks: Vec<Pick> = Vec::new();
    let mut k: usize = 0;
    while k < order.len()
        invariant
            k <= order.len(),
            found@ == wanted,
            keys@ == pick_keys(found@),
            sorted == grouped_picks(wanted),
            crate::order::is_stable_order(keys@, order@),
            order@ == crate::order::the_order(keys@),
            picks@ == sorted.take(k as int),
        decreases order.len() - k,
    {
        picks.push(found[order[k]]);
        k = k + 1;
        assert(picks@ =~= sorted.take(k as int));
    }
    assert(picks@ =~= sorted);
    picks
}

// ---------------------------------------------------------------------------
// From places with deleted rows to live rows
// ---------------------------------------------------------------------------

/// The live row that a place stands for, with `physical` places for `live` rows.
pub open spec fn live_index(ordinal: int, physical: int, live: int) -> int {
    let at = (ordinal * live) / (if physical < 1 {
        1
    } else {
        physical
    });
    if at < live {
        at
    } else {
        live - 1
    }
}

/// The live rows that the places stand for; a row that comes twice running is
/// taken once.
pub open spec fn live_picks_of(ordinals: Seq<u32>, physical: int, live: int) -> Seq<int>
    decreases ordinals.len(),
{
    if ordinals.len() == 0 || live <= 0 {
        Seq::empty()
    } else {
        let before = live_picks_of(ordinals.drop_last(), physical, live);
        let at = live_index(ordinals.last() as int, physical, live);
        if before.len() > 0 && before.last() == at {
            before
        } else {
            before.push(at)
        }
    }
}

/// Maps sampled places to live rows. The places count deleted rows too, so they
/// are scaled, not cut off, and a row is not offered twice.
pub fn live_picks(ordinals: &Vec<u32>, physical: u64, live: usize) -> (picks: Vec<usize>)
    ensures
        picks.len() == live_picks_of(ordinals@, physical as int, live as int).len(),
        forall|i: int|
            0 <= i < picks.len() ==> #[trigger] picks@[i] == live_picks_of(
                ordinals@,
                physical as int,
                live as int,
            )[i],
{
    let mut picks: Vec<usize> = Vec::new();
    if live == 0 {
        return picks;
    }
    let places: u64 = if physical < 1 {
        1
    } else {
        physical
    };
    let mut i: usize = 0;
    assert(ordinals@.take(0) =~= Seq::<u32>::empty());
    while i < ordinals.len()
        invariant
            i <= ordinals.len(),
            live > 0,
            places == if physical < 1 {
                1
            } else {
                physical
            },
            ({
                let w = live_picks_of(ordinals@.take(i as int), physical as int, live as int);
                &&& picks.len() == w.len()
                &&& forall|k: int| 0 <= k < picks.len() ==> #[trigger] picks@[k] == w[k]
            }),
        decreases ordinals.len() - i,
    {
        let ordinal: u32 = ordinals[i];
        proof {
            assert(ordinals@.take(i + 1).drop_last() =~= ordinals@.take(i as int));
            assert(0 <= ordinal as int * live as int <= u32::MAX * u64::MAX) by (nonlinear_arith)
                requires
                    0 <= ordinal <= u32::MAX,
                    0 <= live <= u64::MAX,
            ;
            vstd::arithmetic::div_mod::lemma_div_pos_is_pos(
                ordinal as int * live as int,
                places as int,
            );
        }
        let scaled: u128 = (ordinal as u128) * (live as u128) / (places as u128);
        let at: usize = if scaled < live as u128 {
            scaled as usize
        } else {
            live - 1
        };
        assert(at == live_index(ordinal as int, physical as int, live as int));
        let n: usize = picks.len();
        if !(n > 0 && picks[n - 1] == at) {
            picks.push(at);
        }
        i = i + 1;
    }
    assert(ordinals@.take(i as int) =~= ordinals@);
    picks
}

proof fn live_index_grows(a: int, b: int, physical: int, live: int)
    requires
        0 <= a <= b,
        live > 0,
    ensures
        0 <= live_index(a, physical, live) <= live_index(b, physical, live) < live,
{
    let d = if physical < 1 {
        1
    } else {
        physical
    };
    assert(0 <= a * live <= b * live) by (nonlinear_arith)
        requires
            0 <= a <= b,
            0 < live,
    ;
    vstd::arithmetic::div_mod::lemma_div_is_ordered(a * live, b * live, d);
    vstd::arithmetic::div_mod::lemma_div_pos_is_pos(a * live, d);
}

/// Places in order give live rows in order, each once and each there.
pub proof fn live_picks_ascend(ordinals: Seq<u32>, physical: int, live: int, i: int, j: int)
    requires
        live > 0,
        forall|a: int, b: int| 0 <= a < b < ordinals.len() ==> (#[trigger] ordinals[a]) <= (#[trigger] ordinals[b]),
        0 <= i < j < live_picks_of(ordinals, physical, live).len(),
    ensures
        0 <= live_picks_of(ordinals, physical, live)[i] < live_picks_of(ordinals, physical, live)[j] < live,
    decreases ordinals.len(),
{
    let init = ordinals.drop_last();
    let before = live_picks_of(init, physical, live);
    let all = live_picks_of(ordinals, physical, live);
    assert forall|a: int, b: int| 0 <= a < b < init.len() implies (#[trigger] init[a]) <= (#[trigger] init[b]) by {
        assert(ordinals[a] <= ordinals[b]);
    }
    if j < before.len() {
        live_picks_ascend(init, physical, live, i, j);
    } else {
        last_pick_bounds(init, physical, live);
        let at = live_index(ordinals.last() as int, physical, live);
        let m = init.len() - 1;
        assert(init[m] == ordinals[m]);
        assert(ordinals[m] <= ordinals[ordinals.len() - 1]);
        live_index_grows(ordinals[m] as int, ordinals.last() as int, physical, live);
        if i < before.len() - 1 {
            live_picks_ascend(init, physical, live, i, before.len() - 1);
        }
    }
}

proof fn last_pick_bounds(ordinals: Seq<u32>, physical: int, live: int)
    requires
        live > 0,
        ordinals.len() > 0,
    ensures
        ({
            let w = live_picks_of(ordinals, physical, live);
            &&& w.len() > 0
            &&& w.last() == live_index(ordinals.last() as int, physical, live)
        }),
{
}

// ---------------------------------------------------------------------------
// The stamp
// ---------------------------------------------------------------------------

/// How far a query probes: how many cells, and how deep in each.
#[derive(Debug)]
pub struct ProbeLaws {
    pub width_for_k: Vec<u32>,
    pub fine_for_k: Vec<u32>,
}

/// Each measured value in place of the old one; a point that the sample could
/// not measure stays.
pub open spec fn replaced(law: Seq<u32>, measured: Seq<u32>) -> Seq<u32> {
    Seq::new(
        law.len(),
        |i: int|
            if i < measured.len() && measured[i] > 0 {
                measured[i]
            } else {
                law[i]
            },
    )
}

/// The width after a measurement: replaced while the measured files are the
/// table's, and only widened once others have come.
pub open spec fn stamped_width(law: Seq<u32>, measured: Seq<u32>, current: bool) -> Seq<u32> {
    if current {
        replaced(law, measured)
    } else {
        widened(law, measured)
    }
}

fn replace_law(law: &mut Vec<u32>, measured: &Vec<u32>)
    ensures
        final(law)@ == replaced(old(law)@, measured@),
{
    let ghost before = law@;
    let mut i: usize = 0;
    while i < law.len() && i < measured.len()
        invariant
            i <= law.len(),
            i <= measured.len(),
            law.len() == before.len(),
            forall|k: int| 0 <= k < i ==> law@[k] == replaced(before, measured@)[k],
            forall|k: int| i <= k < law.len() ==> law@[k] == before[k],
        decreases law.len() - i,
    {
        if measured[i] > 0 {
            law.set(i, measured[i]);
        }
        i = i + 1;
    }
    assert(law@ =~= replaced(before, measured@));
}

fn copy_law(law: &Vec<u32>) -> (out: Vec<u32>)
    ensures
        out@ == law@,
{
    let mut out: Vec<u32> = Vec::new();
    let mut i: usize = 0;
    while i < law.len()
        invariant
            i <= law.len(),
            out@ == law@.take(i as int),
        decreases law.len() - i,
    {
        out.push(law[i]);
        i = i + 1;
        assert(out@ =~= law@.take(i as int));
    }
    assert(out@ =~= law@);
    out
}

fn same_law(a: &Vec<u32>, b: &Vec<u32>) -> (same: bool)
    ensures
        same == (a@ == b@),
{
    if a.len() != b.len() {
        return false;
    }
    let mut i: usize = 0;
    while i < a.len()
        invariant
            i <= a.len(),
            a.len() == b.len(),
            forall|k: int| 0 <= k < i ==> a@[k] == b@[k],
        decreases a.len() - i,
    {
        if a[i] != b[i] {
            assert(a@[i as int] != b@[i as int]);
            return false;
        }
        i = i + 1;
    }
    assert(a@ =~= b@);
    true
}

/// The laws with a measurement in them, or nothing when it changes none of them
/// and nothing else.
pub fn restamp_laws(live: &ProbeLaws, measured: &ProbeLaws, current: bool, others_changed: bool) -> (stamp: Option<
    ProbeLaws,
>)
    ensures
        ({
            let width = stamped_width(live.width_for_k@, measured.width_for_k@, current);
            let fine = widened(live.fine_for_k@, measured.fine_for_k@);
            match stamp {
                Some(laws) => {
                    &&& laws.width_for_k@ == width
                    &&& laws.fine_for_k@ == fine
                    &&& others_changed || width != live.width_for_k@ || fine != live.fine_for_k@
                },
                None => !others_changed && width == live.width_for_k@ && fine == live.fine_for_k@,
            }
        }),
{
    let mut width = copy_law(&live.width_for_k);
    if current {
        replace_law(&mut width, &measured.width_for_k);
    } else {
        widen_law(&mut width, &measured.width_for_k);
    }
    let mut fine = copy_law(&live.fine_for_k);
    widen_law(&mut fine, &measured.fine_for_k);
    if !others_changed && same_law(&width, &live.width_for_k) && same_law(&fine, &live.fine_for_k) {
        None
    } else {
        Some(ProbeLaws { width_for_k: width, fine_for_k: fine })
    }
}

fn all_in(ids: &Vec<u128>, set: &HashSet<u128>) -> (r: bool)
    ensures
        r == forall|i: int| 0 <= i < ids.len() ==> set@.contains(#[trigger] ids@[i]),
{
    let mut i: usize = 0;
    while i < ids.len()
        invariant
            i <= ids.len(),
            forall|k: int| 0 <= k < i ==> set@.contains(#[trigger] ids@[k]),
        decreases ids.len() - i,
    {
        if !set.contains(&ids[i]) {
            assert(!set@.contains(ids@[i as int]));
            return false;
        }
        i = i + 1;
    }
    true
}

fn set_of(ids: &Vec<u128>) -> (set: HashSet<u128>)
    ensures
        set@ == ids@.to_set(),
{
    let mut set: HashSet<u128> = HashSet::new();
    let mut i: usize = 0;
    assert(set@ =~= ids@.take(0).to_set());
    while i < ids.len()
        invariant
            i <= ids.len(),
            set@ == ids@.take(i as int).to_set(),
        decreases ids.len() - i,
    {
        let ghost before = set@;
        set.insert(ids[i]);
        proof {
            let less = ids@.take(i as int);
            let more = ids@.take(i + 1);
            assert forall|v: u128| more.contains(v) == (less.contains(v) || v == ids@[i as int]) by {
                if more.contains(v) {
                    let k = choose|k: int| 0 <= k < more.len() && more[k] == v;
                    if k < i {
                        assert(less[k] == v);
                    }
                }
                if less.contains(v) {
                    let k = choose|k: int| 0 <= k < less.len() && less[k] == v;
                    assert(more[k] == v);
                }
                if v == ids@[i as int] {
                    assert(more[i as int] == v);
                }
            }
            assert(set@ =~= more.to_set());
        }
        i = i + 1;
    }
    assert(ids@.take(i as int) =~= ids@);
    set
}

/// The table's superfiles are the ones that were measured.
pub fn evidence_current(measured: &Vec<u128>, live: &Vec<u128>) -> (current: bool)
    ensures
        current == (measured@.to_set() == live@.to_set()),
{
    let a = set_of(measured);
    let b = set_of(live);
    let current: bool = all_in(measured, &b) && all_in(live, &a);
    proof {
        if current {
            assert forall|v: u128| measured@.to_set().contains(v) == live@.to_set().contains(v) by {
                if measured@.contains(v) {
                    let k = choose|k: int| 0 <= k < measured.len() && measured@[k] == v;
                    assert(b@.contains(measured@[k]));
                }
                if live@.contains(v) {
                    let k = choose|k: int| 0 <= k < live.len() && live@[k] == v;
                    assert(a@.contains(live@[k]));
                }
            }
            assert(measured@.to_set() =~= live@.to_set());
        } else if measured@.to_set() == live@.to_set() {
            assert forall|i: int| 0 <= i < measured.len() implies b@.contains(#[trigger] measured@[i]) by {
                assert(measured@.to_set().contains(measured@[i]));
            }
            assert forall|i: int| 0 <= i < live.len() implies a@.contains(#[trigger] live@[i]) by {
                assert(live@.to_set().contains(live@[i]));
            }
        }
    }
    current
}

/// With files that came after the measurement, no law gets narrower.
pub proof fn stale_measurement_never_narrows(law: Seq<u32>, measured: Seq<u32>, i: int)
    requires
        0 <= i < law.len(),
    ensures
        stamped_width(law, measured, false)[i] >= law[i],
        widened(law, measured)[i] >= law[i],
{
}

// ---------------------------------------------------------------------------
// What a sample and a stamp are
// ---------------------------------------------------------------------------

/// The sampled places are spread evenly over all rows: place `i` of `count` is
/// the row behind which `i` of `count` equal shares of the rows end.
pub proof fn sampled_places_are_evenly_spread(total: int, most: int, i: int)
    requires
        0 <= total,
        0 <= most,
        0 <= i < total,
        i < most,
    ensures
        ({
            let count = if total <= most {
                total
            } else {
                most
            };
            let places = sample_ordinals_of(total, most);
            &&& places.len() == count
            &&& places[i] * count <= i * total < (places[i] + 1) * count
        }),
{
    let count = capped(total, most);
    let o = sample_ordinals_of(total, most)[i];
    let x = i * total;
    vstd::arithmetic::div_mod::lemma_fundamental_div_mod(x, count);
    vstd::arithmetic::div_mod::lemma_mod_bound(x, count);
    assert(o == x / count);
    assert(o * count <= x < (o + 1) * count) by (nonlinear_arith)
        requires
            x == count * o + x % count,
            0 <= x % count < count,
    ;
}

/// Neighbouring places of a sample are as far apart as its share of the rows,
/// rounded down or up, and the last share reaches the end of the rows.
pub proof fn sampled_places_are_a_share_apart(total: int, most: int, i: int)
    requires
        0 < total,
        0 <= i < total,
        i < most,
    ensures
        ({
            let count = if total <= most {
                total
            } else {
                most
            };
            let places = sample_ordinals_of(total, most);
            let next = if i + 1 < count {
                places[i + 1]
            } else {
                total
            };
            &&& i == 0 ==> places[i] == 0
            &&& (next - places[i] - 1) * count < total < (next - places[i] + 1) * count
        }),
{
    let count = capped(total, most);
    let places = sample_ordinals_of(total, most);
    let next = if i + 1 < count {
        places[i + 1]
    } else {
        total
    };
    sampled_places_are_evenly_spread(total, most, i);
    let a = places[i];
    if i + 1 < count {
        sampled_places_are_evenly_spread(total, most, i + 1);
    } else {
        assert(i + 1 == count);
        assert(next * count == (i + 1) * total) by (nonlinear_arith)
            requires
                next == total,
                i + 1 == count,
        ;
        assert((next + 1) * count > (i + 1) * total) by (nonlinear_arith)
            requires
                next * count == (i + 1) * total,
                count > 0,
        ;
    }
    assert((i + 1) * total == i * total + total) by (nonlinear_arith);
    assert((next - a - 1) * count < total < (next - a + 1) * count) by (nonlinear_arith)
        requires
            a * count <= i * total < (a + 1) * count,
            next * count <= (i + 1) * total < (next + 1) * count,
            (i + 1) * total == i * total + total,
            count > 0,
    ;
    if i == 0 {
        assert(a == 0) by (nonlinear_arith)
            requires
                a * count <= 0 * total < (a + 1) * count,
                count > 0,
        ;
    }
}

/// `starts` lists where each slot starts among all rows, and where the last one
/// ends.
pub open spec fn slot_starts(slots: Seq<Slot>, starts: Seq<int>) -> bool {
    &&& starts.len() == slots.len() + 1
    &&& starts[0] == 0
    &&& forall|s: int| 0 <= s < slots.len() ==> starts[s + 1] == starts[s] + (#[trigger] slots[s]).rows
}

proof fn starts_are_totals(slots: Seq<Slot>, starts: Seq<int>, n: int)
    requires
        slot_starts(slots, starts),
        0 <= n <= slots.len(),
    ensures
        starts[n] == total_rows(slots.take(n)),
    decreases n,
{
    if n > 0 {
        starts_are_totals(slots, starts, n - 1);
        assert(slots.take(n).drop_last() =~= slots.take(n - 1));
        assert(slots.take(n).last() == slots[n - 1]);
    } else {
        assert(slots.take(0) =~= Seq::<Slot>::empty());
    }
}

/// Each of the evenly spread places is picked, in the slot that it falls into:
/// place `o`, the `i`-th of the sample, lies in slot `s`. Nothing else is picked,
/// and the picks come by superfile and then by cell.
pub proof fn sample_picks_every_place(slots: Seq<Slot>, starts: Seq<int>, most: int, i: int, o: int, s: int)
    requires
        slot_starts(slots, starts),
        starts[slots.len() as int] <= usize::MAX,
        0 <= most,
        0 <= i < starts[slots.len() as int],
        i < most,
        ({
            let total = starts[slots.len() as int];
            let count = if total <= most {
                total
            } else {
                most
            };
            o * count <= i * total < (o + 1) * count
        }),
        0 <= s < slots.len(),
        starts[s] <= o < starts[s + 1],
    ensures
        ({
            let picks = grouped_picks(picks_of(slots, most));
            let total = starts[slots.len() as int];
            &&& picks.contains(
                Pick { entry: slots[s].entry, cell: slots[s].cell, ordinal: (o - starts[s]) as u32 },
            )
            &&& picks.len() == if total <= most {
                total
            } else {
                most
            }
            &&& forall|a: int, b: int|
                0 <= a < b < picks.len() ==> (#[trigger] picks[a]).entry < (#[trigger] picks[b]).entry || (
                picks[a].entry == picks[b].entry && picks[a].cell <= picks[b].cell)
        }),
{
    let total = starts[slots.len() as int];
    let count = capped(total, most);
    starts_are_totals(slots, starts, slots.len() as int);
    starts_are_totals(slots, starts, s);
    starts_are_totals(slots, starts, s + 1);
    assert(slots.take(slots.len() as int) =~= slots);
    sampled_places_are_evenly_spread(total, most, i);
    let place = sample_ordinals_of(total, most)[i];
    assert(place == o) by (nonlinear_arith)
        requires
            place * count <= i * total < (place + 1) * count,
            o * count <= i * total < (o + 1) * count,
            count > 0,
    ;
    locate_after(slots, s, o);
    let found = picks_of(slots, most);
    let keys = pick_keys(found);
    assert(found[i] == pick_at(slots, o));
    assert(found.contains(found[i]));
    crate::order::sorted_by_keeps_items(found, keys);
    crate::order::stable_order_exists(keys);
    let picks = grouped_picks(found);
    let order = crate::order::the_order(keys);
    assert forall|a: int, b: int| 0 <= a < b < picks.len() implies (#[trigger] picks[a]).entry < (
    #[trigger] picks[b]).entry || (picks[a].entry == picks[b].entry && picks[a].cell <= picks[b].cell) by {
        assert(crate::order::comes_before(keys, order[a] as int, order[b] as int));
        assert(picks[a] == found[order[a] as int] && picks[b] == found[order[b] as int]);
        assert(keys[order[a] as int] == (picks[a].entry as i128, picks[a].cell as u128));
        assert(keys[order[b] as int] == (picks[b].entry as i128, picks[b].cell as u128));
    }
}

/// Only slots without rows are left out, and the others stay in order.
pub proof fn only_empty_slots_are_left_out(slots: Seq<Slot>)
    ensures
        filled(slots) == slots.filter(|s: Slot| s.rows > 0),
    decreases slots.len(),
{
    reveal(Seq::filter);
    if slots.len() > 0 {
        only_empty_slots_are_left_out(slots.drop_last());
    }
}

/// The live row that a place stands for divides the live rows as the place
/// divides all places; a place behind the last one stands for the last row.
pub proof fn live_row_is_in_proportion(ordinal: int, physical: int, live: int)
    requires
        0 <= ordinal,
        0 < live,
    ensures
        ({
            let at = live_index(ordinal, physical, live);
            let places = if physical < 1 {
                1
            } else {
                physical
            };
            &&& 0 <= at < live
            &&& at * places <= ordinal * live
            &&& ordinal < places ==> ordinal * live < (at + 1) * places
            &&& ordinal >= places ==> at == live - 1
        }),
{
    let places = if physical < 1 {
        1
    } else {
        physical
    };
    let x = ordinal * live;
    let q = x / places;
    assert(x >= 0) by (nonlinear_arith)
        requires
            x == ordinal * live,
            0 <= ordinal,
            0 < live,
    ;
    vstd::arithmetic::div_mod::lemma_fundamental_div_mod(x, places);
    vstd::arithmetic::div_mod::lemma_mod_bound(x, places);
    vstd::arithmetic::div_mod::lemma_div_pos_is_pos(x, places);
    assert(q * places <= x < (q + 1) * places) by (nonlinear_arith)
        requires
            x == places * q + x % places,
            0 <= x % places < places,
    ;
    let at = live_index(ordinal, physical, live);
    assert(at * places <= q * places) by (nonlinear_arith)
        requires
            at <= q,
            places >= 1,
    ;
    if ordinal < places {
        assert(q < live) by (nonlinear_arith)
            requires
                q * places <= x,
                x == ordinal * live,
                0 <= ordinal < places,
                0 < live,
        ;
    } else {
        assert(q >= live) by (nonlinear_arith)
            requires
                x < (q + 1) * places,
                x == ordinal * live,
                ordinal >= places,
                places >= 1,
                0 < live,
        ;
    }
}

/// The live row of every place is picked, only such rows are, and no row comes
/// twice running.
pub proof fn live_picks_cover_every_place(ordinals: Seq<u32>, physical: int, live: int)
    requires
        live > 0,
    ensures
        ({
            let picks = live_picks_of(ordinals, physical, live);
            &&& forall|k: int|
                0 <= k < ordinals.len() ==> picks.contains(
                    live_index((#[trigger] ordinals[k]) as int, physical, live),
                )
            &&& forall|p: int| 0 <= p < picks.len() ==> is_row_of_a_place(ordinals, physical, live, #[trigger] picks[p])
            &&& forall|p: int| 0 < p < picks.len() ==> picks[p - 1] != #[trigger] picks[p]
            &&& ordinals.len() > 0 ==> picks.len() > 0 && picks.last() == live_index(
                ordinals.last() as int,
                physical,
                live,
            )
        }),
    decreases ordinals.len(),
{
    let picks = live_picks_of(ordinals, physical, live);
    if ordinals.len() > 0 {
        let less = ordinals.drop_last();
        let before = live_picks_of(less, physical, live);
        let at = live_index(ordinals.last() as int, physical, live);
        live_picks_cover_every_place(less, physical, live);
        assert(picks[picks.len() - 1] == at);
        assert forall|k: int| 0 <= k < ordinals.len() implies picks.contains(
            live_index((#[trigger] ordinals[k]) as int, physical, live),
        ) by {
            if k < less.len() {
                let v = live_index(less[k] as int, physical, live);
                assert(before.contains(v));
                let p = choose|p: int| 0 <= p < before.len() && before[p] == v;
                assert(picks[p] == v);
            }
        }
        assert forall|p: int| 0 <= p < picks.len() implies is_row_of_a_place(
            ordinals,
            physical,
            live,
            #[trigger] picks[p],
        ) by {
            if p < before.len() {
                assert(picks[p] == before[p]);
                assert(is_row_of_a_place(less, physical, live, before[p]));
                let k = choose|k: int|
                    0 <= k < less.len() && live_index((#[trigger] less[k]) as int, physical, live) == before[p];
                assert(ordinals[k] == less[k]);
            } else {
                assert(ordinals[ordinals.len() - 1] == ordinals.last());
            }
        }
        assert forall|p: int| 0 < p < picks.len() implies picks[p - 1] != #[trigger] picks[p] by {
            if p < before.len() {
                assert(before[p - 1] != before[p]);
                assert(picks[p - 1] == before[p - 1] && picks[p] == before[p]);
            } else {
                assert(picks[p - 1] == before[before.len() - 1]);
            }
        }
    }
}

/// The row is the live row of one of the places.
pub open spec fn is_row_of_a_place(ordinals: Seq<u32>, physical: int, live: int, row: int) -> bool {
    exists|k: int| 0 <= k < ordinals.len() && live_index((#[trigger] ordinals[k]) as int, physical, live) == row
}

/// A measurement of the live table replaces what it supports and leaves the
/// rest; one of an older table only raises it. What was measured for the fine
/// depth only raises it either way.
pub proof fn stamped_law_is_pointwise(law: Seq<u32>, measured: Seq<u32>, i: int)
    requires
        0 <= i < law.len(),
    ensures
        stamped_width(law, measured, true).len() == law.len(),
        stamped_width(law, measured, false).len() == law.len(),
        widened(law, measured).len() == law.len(),
        i >= measured.len() ==> stamped_width(law, measured, true)[i] == law[i] && stamped_width(
            law,
            measured,
            false,
        )[i] == law[i] && widened(law, measured)[i] == law[i],
        i < measured.len() && measured[i] == 0 ==> stamped_width(law, measured, true)[i] == law[i],
        i < measured.len() && measured[i] > 0 ==> stamped_width(law, measured, true)[i] == measured[i],
        i < measured.len() && measured[i] <= law[i] ==> stamped_width(law, measured, false)[i] == law[i]
            && widened(law, measured)[i] == law[i],
        i < measured.len() && measured[i] > law[i] ==> stamped_width(law, measured, false)[i] == measured[i]
            && widened(law, measured)[i] == measured[i],
{
}

/// A width was measured as soon as one of its points was, and a measured point
/// replaces the old one.
pub proof fn measured_points_count(width: Seq<u32>, point: u32, law: Seq<u32>, measured: Seq<u32>, i: int)
    ensures
        never_measured(Seq::empty()),
        never_measured(width.push(point)) <==> never_measured(width) && point == 0,
        replaced(law, measured).len() == law.len(),
        0 <= i < law.len() && i < measured.len() && measured[i] != 0 ==> replaced(law, measured)[i] == measured[i],
        0 <= i < law.len() && (i >= measured.len() || measured[i] == 0) ==> replaced(law, measured)[i] == law[i],
{
    let more = width.push(point);
    if never_measured(more) {
        assert forall|k: int| 0 <= k < width.len() implies #[trigger] width[k] == 0 by {
            assert(more[k] == width[k]);
        }
        assert(more[width.len() as int] == point);
    }
}

} // verus!
