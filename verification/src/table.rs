//! The Visit Table: a two-level mapping from path to date to a 64-bit visit
//! count, kept sorted by path and by date so that reports are deterministic.
//!
//! The mathematical model of a table is a finite map from `(path, date)`
//! pairs to integer counts (`view`), every present count being nonzero.
//! Merging tables is pointwise addition of counts (`spec_merge`), which is
//! proved commutative and associative with the empty map as identity.

use vstd::prelude::*;

use crate::bytes;
use crate::bytes::{lemma_lex_lt_asym, lemma_lex_lt_total, lemma_lex_lt_trans, lex_lt};

verus! {

/// One date with its visit count.
pub struct DateCount {
    pub date: Vec<u8>,
    pub count: u64,
}

/// One path with its per-date counts, sorted by date.
pub struct PathCounts {
    pub path: Vec<u8>,
    pub dates: Vec<DateCount>,
}

/// The visit table: per-path counts, sorted by path.
pub struct VisitTable {
    pub entries: Vec<PathCounts>,
}

/// Total count recorded for date `d` in `ds` (summing duplicates, of which a
/// well-formed table has none).
pub open spec fn date_val(ds: Seq<DateCount>, d: Seq<u8>) -> int
    decreases ds.len(),
{
    if ds.len() == 0 {
        0
    } else {
        (if ds[0].date@ == d {
            ds[0].count as int
        } else {
            0
        }) + date_val(ds.skip(1), d)
    }
}

/// Total count recorded for `(p, d)` in `es`.
pub open spec fn path_val(es: Seq<PathCounts>, p: Seq<u8>, d: Seq<u8>) -> int
    decreases es.len(),
{
    if es.len() == 0 {
        0
    } else {
        (if es[0].path@ == p {
            date_val(es[0].dates@, d)
        } else {
            0
        }) + path_val(es.skip(1), p, d)
    }
}

pub open spec fn dates_sorted(ds: Seq<DateCount>) -> bool {
    forall|i: int| 0 <= i < ds.len() - 1 ==> #[trigger] lex_lt(ds[i].date@, ds[i + 1].date@)
}

pub open spec fn dates_wf(ds: Seq<DateCount>) -> bool {
    dates_sorted(ds) && (forall|i: int| 0 <= i < ds.len() ==> (#[trigger] ds[i].count) >= 1)
}

pub open spec fn paths_sorted(es: Seq<PathCounts>) -> bool {
    forall|i: int| 0 <= i < es.len() - 1 ==> #[trigger] lex_lt(es[i].path@, es[i + 1].path@)
}

/// Well-formedness: strictly sorted unique keys at both levels, no empty
/// date list, and no zero counts.
pub open spec fn entries_wf(es: Seq<PathCounts>) -> bool {
    paths_sorted(es) && (forall|i: int|
        0 <= i < es.len() ==> (#[trigger] es[i].dates@).len() >= 1 && dates_wf(es[i].dates@))
}

impl View for VisitTable {
    type V = Map<(Seq<u8>, Seq<u8>), int>;

    open spec fn view(&self) -> Map<(Seq<u8>, Seq<u8>), int> {
        Map::new(
            |k: (Seq<u8>, Seq<u8>)| path_val(self.entries@, k.0, k.1) != 0,
            |k: (Seq<u8>, Seq<u8>)| path_val(self.entries@, k.0, k.1),
        )
    }
}

impl VisitTable {
    pub open spec fn wf(&self) -> bool {
        entries_wf(self.entries@)
    }
}

/// The count a map records for `k`, an absent key counting 0.
pub open spec fn map_val(m: Map<(Seq<u8>, Seq<u8>), int>, k: (Seq<u8>, Seq<u8>)) -> int {
    if m.contains_key(k) {
        m[k]
    } else {
        0
    }
}

/// `m` with `n` added to the count of `k` (`n == 0` changes nothing).
pub open spec fn spec_add(
    m: Map<(Seq<u8>, Seq<u8>), int>,
    k: (Seq<u8>, Seq<u8>),
    n: int,
) -> Map<(Seq<u8>, Seq<u8>), int> {
    if n == 0 {
        m
    } else {
        m.insert(k, map_val(m, k) + n)
    }
}

/// Pointwise sum of two count maps: for every key present in either input
/// the merged count is the sum of both counts, an absent entry counting 0.
pub open spec fn spec_merge(
    a: Map<(Seq<u8>, Seq<u8>), int>,
    b: Map<(Seq<u8>, Seq<u8>), int>,
) -> Map<(Seq<u8>, Seq<u8>), int> {
    Map::new(
        |k: (Seq<u8>, Seq<u8>)| a.contains_key(k) || b.contains_key(k),
        |k: (Seq<u8>, Seq<u8>)| map_val(a, k) + map_val(b, k),
    )
}

pub proof fn lemma_spec_add_val(m: Map<(Seq<u8>, Seq<u8>), int>, k: (Seq<u8>, Seq<u8>), n: int)
    ensures
        forall|k2: (Seq<u8>, Seq<u8>)|
            #[trigger] map_val(spec_add(m, k, n), k2) == map_val(m, k2) + (if k2 == k {
                n
            } else {
                0
            }),
{
}

pub proof fn lemma_merge_val(a: Map<(Seq<u8>, Seq<u8>), int>, b: Map<(Seq<u8>, Seq<u8>), int>)
    ensures
        forall|k: (Seq<u8>, Seq<u8>)|
            #[trigger] map_val(spec_merge(a, b), k) == map_val(a, k) + map_val(b, k),
{
    assert forall|k: (Seq<u8>, Seq<u8>)|
        #[trigger] map_val(spec_merge(a, b), k) == map_val(a, k) + map_val(b, k) by {
        if a.contains_key(k) || b.contains_key(k) {
            assert(spec_merge(a, b)[k] == map_val(a, k) + map_val(b, k));
        }
    }
}

/// Merging with the empty table changes nothing: the empty map is a left and
/// right identity of `spec_merge`.
pub proof fn lemma_merge_empty(m: Map<(Seq<u8>, Seq<u8>), int>)
    ensures
        spec_merge(m, Map::empty()) == m,
        spec_merge(Map::empty(), m) == m,
{
    lemma_merge_val(m, Map::empty());
    lemma_merge_val(Map::empty(), m);
    assert(spec_merge(m, Map::empty()) =~= m);
    assert(spec_merge(Map::empty(), m) =~= m);
}

/// Merging is commutative: counts per key are identical regardless of the
/// order of the two tables.
pub proof fn lemma_merge_comm(a: Map<(Seq<u8>, Seq<u8>), int>, b: Map<(Seq<u8>, Seq<u8>), int>)
    ensures
        spec_merge(a, b) == spec_merge(b, a),
{
    lemma_merge_val(a, b);
    lemma_merge_val(b, a);
    assert(spec_merge(a, b) =~= spec_merge(b, a));
}

/// Merging is associative: folding any number of partial tables gives the
/// same counts in whatever grouping the fold happens.
pub proof fn lemma_merge_assoc(
    a: Map<(Seq<u8>, Seq<u8>), int>,
    b: Map<(Seq<u8>, Seq<u8>), int>,
    c: Map<(Seq<u8>, Seq<u8>), int>,
)
    ensures
        spec_merge(spec_merge(a, b), c) == spec_merge(a, spec_merge(b, c)),
{
    lemma_merge_val(a, b);
    lemma_merge_val(b, c);
    lemma_merge_val(spec_merge(a, b), c);
    lemma_merge_val(a, spec_merge(b, c));
    assert(spec_merge(spec_merge(a, b), c) =~= spec_merge(a, spec_merge(b, c)));
}

pub proof fn lemma_date_val_concat(a: Seq<DateCount>, b: Seq<DateCount>, d: Seq<u8>)
    ensures
        date_val(a + b, d) == date_val(a, d) + date_val(b, d),
    decreases a.len(),
{
    if a.len() == 0 {
        assert(a + b =~= b);
    } else {
        assert((a + b).skip(1) =~= a.skip(1) + b);
        lemma_date_val_concat(a.skip(1), b, d);
    }
}

pub proof fn lemma_path_val_concat(a: Seq<PathCounts>, b: Seq<PathCounts>, p: Seq<u8>, d: Seq<u8>)
    ensures
        path_val(a + b, p, d) == path_val(a, p, d) + path_val(b, p, d),
    decreases a.len(),
{
    if a.len() == 0 {
        assert(a + b =~= b);
    } else {
        assert((a + b).skip(1) =~= a.skip(1) + b);
        lemma_path_val_concat(a.skip(1), b, p, d);
    }
}

pub proof fn lemma_date_val_nonneg(ds: Seq<DateCount>, d: Seq<u8>)
    ensures
        date_val(ds, d) >= 0,
    decreases ds.len(),
{
    if ds.len() > 0 {
        lemma_date_val_nonneg(ds.skip(1), d);
    }
}

pub proof fn lemma_path_val_nonneg(es: Seq<PathCounts>, p: Seq<u8>, d: Seq<u8>)
    ensures
        path_val(es, p, d) >= 0,
    decreases es.len(),
{
    if es.len() > 0 {
        lemma_date_val_nonneg(es[0].dates@, d);
        lemma_path_val_nonneg(es.skip(1), p, d);
    }
}

pub proof fn lemma_date_val_singleton(dc: DateCount, d: Seq<u8>)
    ensures
        date_val(seq![dc], d) == (if dc.date@ == d {
            dc.count as int
        } else {
            0
        }),
{
    let s = seq![dc];
    assert(s.skip(1) =~= Seq::<DateCount>::empty());
    assert(date_val(s.skip(1), d) == 0);
    assert(s[0] == dc);
}

pub proof fn lemma_path_val_singleton(pc: PathCounts, p: Seq<u8>, d: Seq<u8>)
    ensures
        path_val(seq![pc], p, d) == (if pc.path@ == p {
            date_val(pc.dates@, d)
        } else {
            0
        }),
{
    let s = seq![pc];
    assert(s.skip(1) =~= Seq::<PathCounts>::empty());
    assert(path_val(s.skip(1), p, d) == 0);
    assert(s[0] == pc);
}

pub proof fn lemma_date_val_absent(ds: Seq<DateCount>, d: Seq<u8>)
    requires
        forall|i: int| 0 <= i < ds.len() ==> (#[trigger] ds[i].date@) != d,
    ensures
        date_val(ds, d) == 0,
    decreases ds.len(),
{
    if ds.len() > 0 {
        assert(forall|i: int| 0 <= i < ds.skip(1).len() ==> (#[trigger] ds.skip(1)[i]) == ds[i + 1]);
        lemma_date_val_absent(ds.skip(1), d);
    }
}

pub proof fn lemma_path_val_absent(es: Seq<PathCounts>, p: Seq<u8>, d: Seq<u8>)
    requires
        forall|i: int| 0 <= i < es.len() ==> (#[trigger] es[i].path@) != p,
    ensures
        path_val(es, p, d) == 0,
    decreases es.len(),
{
    if es.len() > 0 {
        assert(forall|i: int| 0 <= i < es.skip(1).len() ==> (#[trigger] es.skip(1)[i]) == es[i + 1]);
        lemma_path_val_absent(es.skip(1), p, d);
    }
}

pub proof fn lemma_dates_pairwise(ds: Seq<DateCount>, i: int, j: int)
    requires
        dates_sorted(ds),
        0 <= i < j < ds.len(),
    ensures
        lex_lt(ds[i].date@, ds[j].date@),
    decreases j - i,
{
    if j == i + 1 {
    } else {
        lemma_dates_pairwise(ds, i, j - 1);
        assert(lex_lt(ds[j - 1].date@, ds[(j - 1) + 1].date@));
        lemma_lex_lt_trans(ds[i].date@, ds[j - 1].date@, ds[j].date@);
    }
}

pub proof fn lemma_paths_pairwise(es: Seq<PathCounts>, i: int, j: int)
    requires
        paths_sorted(es),
        0 <= i < j < es.len(),
    ensures
        lex_lt(es[i].path@, es[j].path@),
    decreases j - i,
{
    if j == i + 1 {
    } else {
        lemma_paths_pairwise(es, i, j - 1);
        assert(lex_lt(es[j - 1].path@, es[(j - 1) + 1].path@));
        lemma_lex_lt_trans(es[i].path@, es[j - 1].path@, es[j].path@);
    }
}

/// In a sorted date list the count of `ds[j].date` is exactly `ds[j].count`.
pub proof fn lemma_date_val_at(ds: Seq<DateCount>, j: int)
    requires
        dates_sorted(ds),
        0 <= j < ds.len(),
    ensures
        date_val(ds, ds[j].date@) == ds[j].count,
{
    let d = ds[j].date@;
    let a = ds.take(j);
    let b = seq![ds[j]];
    let c = ds.skip(j + 1);
    assert(ds =~= a + b + c);
    lemma_date_val_concat(a + b, c, d);
    lemma_date_val_concat(a, b, d);
    lemma_date_val_singleton(ds[j], d);
    assert forall|i: int| 0 <= i < a.len() implies (#[trigger] a[i].date@) != d by {
        lemma_dates_pairwise(ds, i, j);
        lemma_lex_lt_asym(ds[i].date@, d);
    }
    lemma_date_val_absent(a, d);
    assert forall|i: int| 0 <= i < c.len() implies (#[trigger] c[i].date@) != d by {
        lemma_dates_pairwise(ds, j, j + 1 + i);
        lemma_lex_lt_asym(d, ds[j + 1 + i].date@);
    }
    lemma_date_val_absent(c, d);
}

/// In a sorted table the count under `es[i].path` is held by entry `i` alone.
pub proof fn lemma_path_val_at(es: Seq<PathCounts>, i: int, d: Seq<u8>)
    requires
        paths_sorted(es),
        0 <= i < es.len(),
    ensures
        path_val(es, es[i].path@, d) == date_val(es[i].dates@, d),
{
    let p = es[i].path@;
    let a = es.take(i);
    let b = seq![es[i]];
    let c = es.skip(i + 1);
    assert(es =~= a + b + c);
    lemma_path_val_concat(a + b, c, p, d);
    lemma_path_val_concat(a, b, p, d);
    lemma_path_val_singleton(es[i], p, d);
    assert forall|m: int| 0 <= m < a.len() implies (#[trigger] a[m].path@) != p by {
        lemma_paths_pairwise(es, m, i);
        lemma_lex_lt_asym(es[m].path@, p);
    }
    lemma_path_val_absent(a, p, d);
    assert forall|m: int| 0 <= m < c.len() implies (#[trigger] c[m].path@) != p by {
        lemma_paths_pairwise(es, i, i + 1 + m);
        lemma_lex_lt_asym(p, es[i + 1 + m].path@);
    }
    lemma_path_val_absent(c, p, d);
}

/// Every count of a well-formed table fits a `u64`.
pub proof fn lemma_table_val_bounds(es: Seq<PathCounts>)
    requires
        entries_wf(es),
    ensures
        forall|p: Seq<u8>, d: Seq<u8>| 0 <= #[trigger] path_val(es, p, d) <= u64::MAX,
{
    assert forall|p: Seq<u8>, d: Seq<u8>| 0 <= #[trigger] path_val(es, p, d) <= u64::MAX by {
        lemma_path_val_nonneg(es, p, d);
        if exists|i: int| 0 <= i < es.len() && (#[trigger] es[i].path@) == p {
            let i = choose|i: int| 0 <= i < es.len() && (#[trigger] es[i].path@) == p;
            lemma_path_val_at(es, i, d);
            let ds = es[i].dates@;
            lemma_date_val_nonneg(ds, d);
            if exists|j: int| 0 <= j < ds.len() && (#[trigger] ds[j].date@) == d {
                let j = choose|j: int| 0 <= j < ds.len() && (#[trigger] ds[j].date@) == d;
                lemma_date_val_at(ds, j);
            } else {
                assert(forall|j: int| 0 <= j < ds.len() ==> (#[trigger] ds[j].date@) != d);
                lemma_date_val_absent(ds, d);
            }
        } else {
            assert(forall|i: int| 0 <= i < es.len() ==> (#[trigger] es[i].path@) != p);
            lemma_path_val_absent(es, p, d);
        }
    }
}

/// A nonzero count comes from some entry of the table.
pub proof fn lemma_path_val_nonzero(es: Seq<PathCounts>, p: Seq<u8>, d: Seq<u8>)
    requires
        path_val(es, p, d) != 0,
    ensures
        exists|i: int|
            0 <= i < es.len() && (#[trigger] es[i].path@) == p && date_val(es[i].dates@, d) != 0,
    decreases es.len(),
{
    if es.len() > 0 {
        if es[0].path@ == p && date_val(es[0].dates@, d) != 0 {
            assert(0 <= 0 < es.len() && es[0].path@ == p && date_val(es[0].dates@, d) != 0);
        } else {
            lemma_path_val_nonzero(es.skip(1), p, d);
            let i = choose|i: int|
                0 <= i < es.skip(1).len() && (#[trigger] es.skip(1)[i].path@) == p && date_val(
                    es.skip(1)[i].dates@,
                    d,
                ) != 0;
            assert(es[i + 1] == es.skip(1)[i]);
            assert(0 <= i + 1 < es.len() && es[i + 1].path@ == p && date_val(es[i + 1].dates@, d)
                != 0);
        }
    }
}

pub proof fn lemma_date_val_nonzero(ds: Seq<DateCount>, d: Seq<u8>)
    requires
        date_val(ds, d) != 0,
    ensures
        exists|j: int| 0 <= j < ds.len() && (#[trigger] ds[j].date@) == d,
    decreases ds.len(),
{
    if ds.len() > 0 {
        if ds[0].date@ == d {
            assert(0 <= 0 < ds.len() && ds[0].date@ == d);
        } else {
            lemma_date_val_nonzero(ds.skip(1), d);
            let j = choose|j: int| 0 <= j < ds.skip(1).len() && (#[trigger] ds.skip(1)[j].date@) == d;
            assert(ds[j + 1] == ds.skip(1)[j]);
            assert(0 <= j + 1 < ds.len() && ds[j + 1].date@ == d);
        }
    }
}

/// Well-formed date lists with the same counts are identical entry by
/// entry: sortedness makes the representation canonical.
pub proof fn lemma_dates_val_equal(ds1: Seq<DateCount>, ds2: Seq<DateCount>)
    requires
        dates_wf(ds1),
        dates_wf(ds2),
        forall|d: Seq<u8>| #[trigger] date_val(ds1, d) == date_val(ds2, d),
    ensures
        ds1.len() == ds2.len(),
        forall|j: int|
            0 <= j < ds1.len() ==> (#[trigger] ds1[j].date@) == ds2[j].date@ && ds1[j].count
                == ds2[j].count,
    decreases ds1.len(),
{
    if ds1.len() == 0 {
        if ds2.len() > 0 {
            lemma_date_val_at(ds2, 0);
            assert(date_val(ds1, ds2[0].date@) == 0);
            assert(false);
        }
    } else if ds2.len() == 0 {
        lemma_date_val_at(ds1, 0);
        assert(date_val(ds2, ds1[0].date@) == 0);
        assert(false);
    } else {
        let d1 = ds1[0].date@;
        let d2 = ds2[0].date@;
        lemma_date_val_at(ds1, 0);
        lemma_date_val_at(ds2, 0);
        if d1 != d2 {
            assert(date_val(ds2, d1) != 0);
            lemma_date_val_nonzero(ds2, d1);
            let j2 = choose|j: int| 0 <= j < ds2.len() && (#[trigger] ds2[j].date@) == d1;
            assert(j2 != 0);
            lemma_dates_pairwise(ds2, 0, j2);
            assert(date_val(ds1, d2) != 0);
            lemma_date_val_nonzero(ds1, d2);
            let j1 = choose|j: int| 0 <= j < ds1.len() && (#[trigger] ds1[j].date@) == d2;
            assert(j1 != 0);
            lemma_dates_pairwise(ds1, 0, j1);
            lemma_lex_lt_asym(d1, d2);
            assert(false);
        }
        let t1 = ds1.skip(1);
        let t2 = ds2.skip(1);
        assert(forall|i: int| 0 <= i < t1.len() ==> (#[trigger] t1[i]) == ds1[i + 1]);
        assert(forall|i: int| 0 <= i < t2.len() ==> (#[trigger] t2[i]) == ds2[i + 1]);
        assert(dates_wf(t1));
        assert(dates_wf(t2));
        assert forall|d: Seq<u8>| #[trigger] date_val(t1, d) == date_val(t2, d) by {
            assert(date_val(ds1, d) == (if d1 == d {
                ds1[0].count as int
            } else {
                0
            }) + date_val(t1, d));
            assert(date_val(ds2, d) == (if d2 == d {
                ds2[0].count as int
            } else {
                0
            }) + date_val(t2, d));
        }
        lemma_dates_val_equal(t1, t2);
        assert forall|j: int|
            0 <= j < ds1.len() implies (#[trigger] ds1[j].date@) == ds2[j].date@ && ds1[j].count
            == ds2[j].count by {
            if j > 0 {
                assert(ds1[j] == t1[j - 1]);
                assert(ds2[j] == t2[j - 1]);
            }
        }
    }
}

/// Relates the map view of a table to the structural count `path_val`.
pub proof fn lemma_view_val(t: &VisitTable)
    ensures
        forall|k: (Seq<u8>, Seq<u8>)| #[trigger] map_val(t@, k) == path_val(t.entries@, k.0, k.1),
        forall|k: (Seq<u8>, Seq<u8>)|
            #[trigger] t@.contains_key(k) == (path_val(t.entries@, k.0, k.1) != 0),
{
}

pub proof fn lemma_date_val_insert(ds: Seq<DateCount>, j: int, dc: DateCount, d: Seq<u8>)
    requires
        0 <= j <= ds.len(),
    ensures
        date_val(ds.insert(j, dc), d) == date_val(ds, d) + (if dc.date@ == d {
            dc.count as int
        } else {
            0
        }),
{
    assert(ds.insert(j, dc) =~= ds.take(j) + seq![dc] + ds.skip(j));
    assert(ds =~= ds.take(j) + ds.skip(j));
    lemma_date_val_concat(ds.take(j) + seq![dc], ds.skip(j), d);
    lemma_date_val_concat(ds.take(j), seq![dc], d);
    lemma_date_val_concat(ds.take(j), ds.skip(j), d);
    lemma_date_val_singleton(dc, d);
}

pub proof fn lemma_date_val_update(ds: Seq<DateCount>, j: int, dc: DateCount, d: Seq<u8>)
    requires
        0 <= j < ds.len(),
    ensures
        date_val(ds.update(j, dc), d) == date_val(ds, d) + (if dc.date@ == d {
            dc.count as int
        } else {
            0
        }) - (if ds[j].date@ == d {
            ds[j].count as int
        } else {
            0
        }),
{
    assert(ds.update(j, dc) =~= ds.take(j) + seq![dc] + ds.skip(j + 1));
    assert(ds =~= ds.take(j) + seq![ds[j]] + ds.skip(j + 1));
    lemma_date_val_concat(ds.take(j) + seq![dc], ds.skip(j + 1), d);
    lemma_date_val_concat(ds.take(j), seq![dc], d);
    lemma_date_val_concat(ds.take(j) + seq![ds[j]], ds.skip(j + 1), d);
    lemma_date_val_concat(ds.take(j), seq![ds[j]], d);
    lemma_date_val_singleton(dc, d);
    lemma_date_val_singleton(ds[j], d);
}

pub proof fn lemma_path_val_insert(es: Seq<PathCounts>, i: int, pc: PathCounts, p: Seq<u8>, d: Seq<u8>)
    requires
        0 <= i <= es.len(),
    ensures
        path_val(es.insert(i, pc), p, d) == path_val(es, p, d) + (if pc.path@ == p {
            date_val(pc.dates@, d)
        } else {
            0
        }),
{
    assert(es.insert(i, pc) =~= es.take(i) + seq![pc] + es.skip(i));
    assert(es =~= es.take(i) + es.skip(i));
    lemma_path_val_concat(es.take(i) + seq![pc], es.skip(i), p, d);
    lemma_path_val_concat(es.take(i), seq![pc], p, d);
    lemma_path_val_concat(es.take(i), es.skip(i), p, d);
    lemma_path_val_singleton(pc, p, d);
}

pub proof fn lemma_path_val_update(es: Seq<PathCounts>, i: int, pc: PathCounts, p: Seq<u8>, d: Seq<u8>)
    requires
        0 <= i < es.len(),
    ensures
        path_val(es.update(i, pc), p, d) == path_val(es, p, d) + (if pc.path@ == p {
            date_val(pc.dates@, d)
        } else {
            0
        }) - (if es[i].path@ == p {
            date_val(es[i].dates@, d)
        } else {
            0
        }),
{
    assert(es.update(i, pc) =~= es.take(i) + seq![pc] + es.skip(i + 1));
    assert(es =~= es.take(i) + seq![es[i]] + es.skip(i + 1));
    lemma_path_val_concat(es.take(i) + seq![pc], es.skip(i + 1), p, d);
    lemma_path_val_concat(es.take(i), seq![pc], p, d);
    lemma_path_val_concat(es.take(i) + seq![es[i]], es.skip(i + 1), p, d);
    lemma_path_val_concat(es.take(i), seq![es[i]], p, d);
    lemma_path_val_singleton(pc, p, d);
    lemma_path_val_singleton(es[i], p, d);
}

/// First position whose path is not below `p` in a path-sorted list.
fn lower_bound_path(es: &Vec<PathCounts>, p: &[u8]) -> (i: usize)
    ensures
        i <= es@.len(),
        forall|m: int| 0 <= m < i ==> lex_lt(#[trigger] es@[m].path@, p@),
        i < es@.len() ==> !lex_lt(es@[i as int].path@, p@),
{
    let mut i: usize = 0;
    while i < es.len()
        invariant
            i <= es@.len(),
            forall|m: int| 0 <= m < i ==> lex_lt(#[trigger] es@[m].path@, p@),
        decreases es@.len() - i,
    {
        if bytes::lex_cmp(es[i].path.as_slice(), p) != 0 {
            return i;
        }
        i += 1;
    }
    i
}

/// First position whose date is not below `d` in a date-sorted list.
fn lower_bound_date(ds: &Vec<DateCount>, d: &[u8]) -> (j: usize)
    ensures
        j <= ds@.len(),
        forall|m: int| 0 <= m < j ==> lex_lt(#[trigger] ds@[m].date@, d@),
        j < ds@.len() ==> !lex_lt(ds@[j as int].date@, d@),
{
    let mut j: usize = 0;
    while j < ds.len()
        invariant
            j <= ds@.len(),
            forall|m: int| 0 <= m < j ==> lex_lt(#[trigger] ds@[m].date@, d@),
        decreases ds@.len() - j,
    {
        if bytes::lex_cmp(ds[j].date.as_slice(), d) != 0 {
            return j;
        }
        j += 1;
    }
    j
}

impl VisitTable {
    /// The empty table, the identity of merging.
    pub fn new() -> (r: Self)
        ensures
            r.wf(),
            r@ == Map::<(Seq<u8>, Seq<u8>), int>::empty(),
            r.entries@.len() == 0,
    {
        let r = VisitTable { entries: Vec::new() };
        proof {
            assert(r@ =~= Map::<(Seq<u8>, Seq<u8>), int>::empty());
        }
        r
    }

    /// Number of distinct paths in the table.
    pub fn num_paths(&self) -> (r: usize)
        ensures
            r == self.entries@.len(),
    {
        self.entries.len()
    }

    /// Adds `n` visits for `(path, date)`, inserting the entry if absent.
    #[verifier::loop_isolation(false)]
    pub fn add_count(&mut self, path: &[u8], date: &[u8], n: u64)
        requires
            old(self).wf(),
            map_val(old(self)@, (path@, date@)) + n <= u64::MAX,
        ensures
            final(self).wf(),
            final(self)@ == spec_add(old(self)@, (path@, date@), n as int),
    {
        proof {
            lemma_view_val(old(self));
        }
        let ghost es0 = self.entries@;
        let ghost kk = (path@, date@);
        if n == 0 {
            return;
        }
        let i = lower_bound_path(&self.entries, path);
        let hit = i < self.entries.len() && bytes::lex_cmp(self.entries[i].path.as_slice(), path)
            == 1;
        if hit {
            let mut pc = self.entries.remove(i);
            let ghost ds0 = pc.dates@;
            let j = lower_bound_date(&pc.dates, date);
            let dhit = j < pc.dates.len() && bytes::lex_cmp(pc.dates[j].date.as_slice(), date) == 1;
            if dhit {
                let mut dc = pc.dates.remove(j);
                proof {
                    lemma_path_val_at(es0, i as int, date@);
                    lemma_date_val_at(ds0, j as int);
                }
                dc.count = dc.count + n;
                pc.dates.insert(j, dc);
                self.entries.insert(i, pc);
                proof {
                    let esn = self.entries@;
                    assert(pc.dates@ =~= ds0.update(j as int, dc));
                    assert(esn =~= es0.update(i as int, pc));
                    assert forall|k: (Seq<u8>, Seq<u8>)|
                        #[trigger] path_val(esn, k.0, k.1) == path_val(es0, k.0, k.1) + (if k == kk {
                            n as int
                        } else {
                            0
                        }) by {
                        lemma_path_val_update(es0, i as int, pc, k.0, k.1);
                        lemma_date_val_update(ds0, j as int, dc, k.1);
                    }
                    assert(dates_wf(pc.dates@)) by {
                        assert(forall|m: int|
                            0 <= m < pc.dates@.len() ==> (#[trigger] pc.dates@[m].date@)
                                == ds0[m].date@);
                    }
                    assert(self.wf()) by {
                        assert(forall|m: int|
                            0 <= m < esn.len() ==> (#[trigger] esn[m].path@) == es0[m].path@);
                    }
                    lemma_spec_add_val(old(self)@, kk, n as int);
                    assert(self@ =~= spec_add(old(self)@, kk, n as int)) by {
                        lemma_view_val(self);
                        lemma_table_val_bounds(es0);
                    }
                }
            } else {
                let owned_date = bytes::copy_range(date, 0, date.len());
                let dc = DateCount { date: owned_date, count: n };
                pc.dates.insert(j, dc);
                self.entries.insert(i, pc);
                proof {
                    let esn = self.entries@;
                    assert(dc.date@ =~= date@);
                    assert(pc.dates@ =~= ds0.insert(j as int, dc));
                    assert(esn =~= es0.update(i as int, pc));
                    lemma_path_val_at(es0, i as int, date@);
                    assert forall|m: int| 0 <= m < ds0.len() implies (#[trigger] ds0[m].date@)
                        != date@ by {
                        if m < j {
                            lemma_lex_lt_asym(ds0[m].date@, date@);
                        } else {
                            lemma_lex_lt_total(ds0[j as int].date@, date@);
                            if m > j {
                                lemma_dates_pairwise(ds0, j as int, m);
                                lemma_lex_lt_trans(date@, ds0[j as int].date@, ds0[m].date@);
                            }
                            lemma_lex_lt_asym(date@, ds0[m].date@);
                        }
                    }
                    lemma_date_val_absent(ds0, date@);
                    assert forall|k: (Seq<u8>, Seq<u8>)|
                        #[trigger] path_val(esn, k.0, k.1) == path_val(es0, k.0, k.1) + (if k == kk {
                            n as int
                        } else {
                            0
                        }) by {
                        lemma_path_val_update(es0, i as int, pc, k.0, k.1);
                        lemma_date_val_insert(ds0, j as int, dc, k.1);
                        if k.0 == kk.0 && k.1 != kk.1 {
                        }
                    }
                    assert(dates_wf(pc.dates@)) by {
                        let dsn = pc.dates@;
                        if (j as int) < ds0.len() {
                            lemma_lex_lt_total(ds0[j as int].date@, date@);
                            assert(lex_lt(date@, ds0[j as int].date@));
                        }
                        assert forall|m: int|
                            0 <= m < dsn.len() - 1 implies #[trigger] lex_lt(
                            dsn[m].date@,
                            dsn[m + 1].date@,
                        ) by {
                            if m + 1 < j {
                                assert(dsn[m] == ds0[m] && dsn[m + 1] == ds0[m + 1]);
                            } else if m + 1 == j {
                                assert(dsn[m] == ds0[m] && dsn[m + 1] == dc);
                            } else if m == j {
                                assert(dsn[m] == dc && dsn[m + 1] == ds0[m]);
                            } else {
                                assert(dsn[m] == ds0[m - 1] && dsn[m + 1] == ds0[m]);
                                assert(lex_lt(ds0[m - 1].date@, ds0[(m - 1) + 1].date@));
                            }
                        }
                    }
                    assert(self.wf()) by {
                        assert(forall|m: int|
                            0 <= m < esn.len() ==> (#[trigger] esn[m].path@) == es0[m].path@);
                    }
                    lemma_spec_add_val(old(self)@, kk, n as int);
                    assert(self@ =~= spec_add(old(self)@, kk, n as int)) by {
                        lemma_view_val(self);
                        lemma_table_val_bounds(es0);
                    }
                }
            }
        } else {
            let owned_date = bytes::copy_range(date, 0, date.len());
            let owned_path = bytes::copy_range(path, 0, path.len());
            let dc = DateCount { date: owned_date, count: n };
            let mut dates: Vec<DateCount> = Vec::new();
            dates.push(dc);
            let pc = PathCounts { path: owned_path, dates };
            self.entries.insert(i, pc);
            proof {
                let esn = self.entries@;
                assert(pc.path@ =~= path@);
                assert(dc.date@ =~= date@);
                assert(esn =~= es0.insert(i as int, pc));
                assert forall|m: int| 0 <= m < es0.len() implies (#[trigger] es0[m].path@)
                    != path@ by {
                    if m < i {
                        lemma_lex_lt_asym(es0[m].path@, path@);
                    } else {
                        lemma_lex_lt_total(es0[i as int].path@, path@);
                        if m > i {
                            lemma_paths_pairwise(es0, i as int, m);
                            lemma_lex_lt_trans(path@, es0[i as int].path@, es0[m].path@);
                        }
                        lemma_lex_lt_asym(path@, es0[m].path@);
                    }
                }
                lemma_path_val_absent(es0, path@, date@);
                assert forall|k: (Seq<u8>, Seq<u8>)|
                    #[trigger] path_val(esn, k.0, k.1) == path_val(es0, k.0, k.1) + (if k == kk {
                        n as int
                    } else {
                        0
                    }) by {
                    lemma_path_val_insert(es0, i as int, pc, k.0, k.1);
                    lemma_date_val_singleton(dc, k.1);
                    assert(pc.dates@ =~= seq![dc]);
                }
                assert(self.wf()) by {
                    if (i as int) < es0.len() {
                        lemma_lex_lt_total(es0[i as int].path@, path@);
                        assert(lex_lt(path@, es0[i as int].path@));
                    }
                    assert forall|m: int|
                        0 <= m < esn.len() - 1 implies #[trigger] lex_lt(
                        esn[m].path@,
                        esn[m + 1].path@,
                    ) by {
                        if m + 1 < i {
                            assert(esn[m] == es0[m] && esn[m + 1] == es0[m + 1]);
                        } else if m + 1 == i {
                            assert(esn[m] == es0[m] && esn[m + 1] == pc);
                        } else if m == i {
                            assert(esn[m] == pc && esn[m + 1] == es0[m]);
                        } else {
                            assert(esn[m] == es0[m - 1] && esn[m + 1] == es0[m]);
                            assert(lex_lt(es0[m - 1].path@, es0[(m - 1) + 1].path@));
                        }
                    }
                    assert(pc.dates@ =~= seq![dc]);
                    assert forall|m: int|
                        0 <= m < esn.len() implies (#[trigger] esn[m].dates@).len() >= 1
                        && dates_wf(esn[m].dates@) by {
                        if m < i {
                            assert(esn[m] == es0[m]);
                        } else if m == i {
                            assert(esn[m] == pc);
                            assert(pc.dates@.len() == 1);
                            assert(dates_sorted(pc.dates@));
                        } else {
                            assert(esn[m] == es0[m - 1]);
                        }
                    }
                }
                lemma_spec_add_val(old(self)@, kk, n as int);
                assert(self@ =~= spec_add(old(self)@, kk, n as int)) by {
                    lemma_view_val(self);
                    lemma_table_val_bounds(es0);
                }
            }
        }
    }

    /// The count recorded for `(path, date)`, 0 if absent.
    pub fn get_count(&self, path: &[u8], date: &[u8]) -> (r: u64)
        requires
            self.wf(),
        ensures
            r as int == map_val(self@, (path@, date@)),
    {
        proof {
            lemma_view_val(self);
        }
        let ghost es0 = self.entries@;
        let i = lower_bound_path(&self.entries, path);
        if i < self.entries.len() && bytes::lex_cmp(self.entries[i].path.as_slice(), path) == 1 {
            let ghost ds0 = self.entries@[i as int].dates@;
            let j = lower_bound_date(&self.entries[i].dates, date);
            if j < self.entries[i].dates.len() && bytes::lex_cmp(
                self.entries[i].dates[j].date.as_slice(),
                date,
            ) == 1 {
                proof {
                    lemma_path_val_at(es0, i as int, date@);
                    lemma_date_val_at(ds0, j as int);
                }
                return self.entries[i].dates[j].count;
            }
            proof {
                lemma_path_val_at(es0, i as int, date@);
                assert forall|m: int| 0 <= m < ds0.len() implies (#[trigger] ds0[m].date@)
                    != date@ by {
                    if m < j {
                        lemma_lex_lt_asym(ds0[m].date@, date@);
                    } else {
                        lemma_lex_lt_total(ds0[j as int].date@, date@);
                        if m > j {
                            lemma_dates_pairwise(ds0, j as int, m);
                            lemma_lex_lt_trans(date@, ds0[j as int].date@, ds0[m].date@);
                        }
                        lemma_lex_lt_asym(date@, ds0[m].date@);
                    }
                }
                lemma_date_val_absent(ds0, date@);
            }
            return 0;
        }
        proof {
            assert forall|m: int| 0 <= m < es0.len() implies (#[trigger] es0[m].path@)
                != path@ by {
                if m < i {
                    lemma_lex_lt_asym(es0[m].path@, path@);
                } else {
                    lemma_lex_lt_total(es0[i as int].path@, path@);
                    if m > i {
                        lemma_paths_pairwise(es0, i as int, m);
                        lemma_lex_lt_trans(path@, es0[i as int].path@, es0[m].path@);
                    }
                    lemma_lex_lt_asym(path@, es0[m].path@);
                }
            }
            lemma_path_val_absent(es0, path@, date@);
        }
        0
    }

    /// Checks the table invariant: sorted unique paths, sorted unique dates,
    /// no empty date list, no zero count.
    pub fn is_well_formed(&self) -> (r: bool)
        ensures
            r == self.wf(),
    {
        let ghost es = self.entries@;
        let n = self.entries.len();
        let mut i: usize = 0;
        while i < n
            invariant
                i <= n,
                n == es.len(),
                es == self.entries@,
                forall|m: int|
                    0 <= m < i ==> (#[trigger] es[m].dates@).len() >= 1 && dates_wf(es[m].dates@),
                forall|m: int| 0 <= m < i && m < es.len() - 1 ==> #[trigger] lex_lt(
                    es[m].path@,
                    es[m + 1].path@,
                ),
            decreases n - i,
        {
            let dlen = self.entries[i].dates.len();
            let ghost ds = es[i as int].dates@;
            if dlen == 0 {
                return false;
            }
            let mut j: usize = 0;
            while j < dlen
                invariant
                    j <= dlen,
                    dlen == ds.len(),
                    i < n,
                    n == es.len(),
                    es == self.entries@,
                    ds == es[i as int].dates@,
                    forall|m: int| 0 <= m < j ==> (#[trigger] ds[m].count) >= 1,
                    forall|m: int| 0 <= m < j && m < ds.len() - 1 ==> #[trigger] lex_lt(
                        ds[m].date@,
                        ds[m + 1].date@,
                    ),
                decreases dlen - j,
            {
                if self.entries[i].dates[j].count == 0 {
                    return false;
                }
                if j + 1 < dlen {
                    if bytes::lex_cmp(
                        self.entries[i].dates[j].date.as_slice(),
                        self.entries[i].dates[j + 1].date.as_slice(),
                    ) != 0 {
                        return false;
                    }
                }
                j += 1;
            }
            if i + 1 < n {
                if bytes::lex_cmp(
                    self.entries[i].path.as_slice(),
                    self.entries[i + 1].path.as_slice(),
                ) != 0 {
                    return false;
                }
            }
            i += 1;
        }
        true
    }
}

/// `true` exactly when every merged count of `a` and `b` would fit a `u64`,
/// so that `merge_maps` may be called.
#[verifier::loop_isolation(false)]
pub fn merge_fits(a: &VisitTable, b: &VisitTable) -> (r: bool)
    requires
        a.wf(),
        b.wf(),
    ensures
        r <==> (forall|k: (Seq<u8>, Seq<u8>)|
            map_val(a@, k) + #[trigger] map_val(b@, k) <= u64::MAX),
{
    proof {
        lemma_view_val(a);
        lemma_view_val(b);
        lemma_table_val_bounds(a.entries@);
        lemma_table_val_bounds(b.entries@);
    }
    let ghost bes = b.entries@;
    let mut i: usize = 0;
    while i < b.entries.len()
        invariant
            i <= bes.len(),
            forall|m: int, l: int|
                0 <= m < i && 0 <= l < bes[m].dates@.len() ==> map_val(
                    a@,
                    (bes[m].path@, (#[trigger] bes[m].dates@[l]).date@),
                ) + bes[m].dates@[l].count <= u64::MAX,
        decreases bes.len() - i,
    {
        let dlen = b.entries[i].dates.len();
        let mut j: usize = 0;
        while j < dlen
            invariant
                i < bes.len(),
                j <= dlen,
                dlen == bes[i as int].dates@.len(),
                forall|m: int, l: int|
                    0 <= m < i && 0 <= l < bes[m].dates@.len() ==> map_val(
                        a@,
                        (bes[m].path@, (#[trigger] bes[m].dates@[l]).date@),
                    ) + bes[m].dates@[l].count <= u64::MAX,
                forall|l: int|
                    0 <= l < j ==> map_val(
                        a@,
                        (bes[i as int].path@, (#[trigger] bes[i as int].dates@[l]).date@),
                    ) + bes[i as int].dates@[l].count <= u64::MAX,
            decreases dlen - j,
        {
            let av = a.get_count(
                b.entries[i].path.as_slice(),
                b.entries[i].dates[j].date.as_slice(),
            );
            let bv = b.entries[i].dates[j].count;
            if av > u64::MAX - bv {
                proof {
                    let kk = (bes[i as int].path@, bes[i as int].dates@[j as int].date@);
                    lemma_path_val_at(bes, i as int, kk.1);
                    lemma_date_val_at(bes[i as int].dates@, j as int);
                    assert(map_val(b@, kk) == bv);
                    assert(map_val(a@, kk) + map_val(b@, kk) > u64::MAX);
                }
                return false;
            }
            j += 1;
        }
        i += 1;
    }
    proof {
        assert forall|k: (Seq<u8>, Seq<u8>)|
            map_val(a@, k) + #[trigger] map_val(b@, k) <= u64::MAX by {
            if map_val(b@, k) != 0 {
                lemma_path_val_nonzero(bes, k.0, k.1);
                let m = choose|m: int|
                    0 <= m < bes.len() && (#[trigger] bes[m].path@) == k.0 && date_val(
                        bes[m].dates@,
                        k.1,
                    ) != 0;
                lemma_date_val_nonzero(bes[m].dates@, k.1);
                let l = choose|l: int|
                    0 <= l < bes[m].dates@.len() && (#[trigger] bes[m].dates@[l].date@) == k.1;
                lemma_path_val_at(bes, m, k.1);
                lemma_date_val_at(bes[m].dates@, l);
                assert(map_val(b@, k) == bes[m].dates@[l].count);
                assert(map_val(a@, (bes[m].path@, bes[m].dates@[l].date@)) + bes[m].dates@[l].count
                    <= u64::MAX);
            }
        }
    }
    true
}

/// Combines two visit tables: for every `(path, date)` present in either
/// input the merged count is the sum of both counts, an absent entry
/// counting 0 (`spec_merge` of the two views).
#[verifier::loop_isolation(false)]
pub fn merge_maps(a: VisitTable, b: VisitTable) -> (r: VisitTable)
    requires
        a.wf(),
        forall|k: (Seq<u8>, Seq<u8>)| map_val(a@, k) + #[trigger] map_val(b@, k) <= u64::MAX,
    ensures
        r.wf(),
        r@ == spec_merge(a@, b@),
{
    let ghost a0 = a@;
    let ghost aes = a.entries@;
    let ghost bes = b.entries@;
    proof {
        lemma_view_val(&a);
        lemma_view_val(&b);
        lemma_table_val_bounds(a.entries@);
        assert(forall|k: (Seq<u8>, Seq<u8>)|
            #[trigger] a0.contains_key(k) == (path_val(aes, k.0, k.1) != 0));
        assert(forall|k: (Seq<u8>, Seq<u8>)| #[trigger] map_val(a0, k) == path_val(aes, k.0, k.1));
    }
    let mut r = a;
    let mut i: usize = 0;
    while i < b.entries.len()
        invariant
            r.wf(),
            i <= bes.len(),
            forall|k: (Seq<u8>, Seq<u8>)| #[trigger] map_val(r@, k) == map_val(a0, k) + path_val(
                bes.take(i as int),
                k.0,
                k.1,
            ),
        decreases bes.len() - i,
    {
        let ghost ei = bes[i as int];
        let dlen = b.entries[i].dates.len();
        let mut j: usize = 0;
        while j < dlen
            invariant
                r.wf(),
                i < bes.len(),
                j <= dlen,
                ei == bes[i as int],
                dlen == ei.dates@.len(),
                forall|k: (Seq<u8>, Seq<u8>)| #[trigger] map_val(r@, k) == map_val(a0, k)
                    + path_val(bes.take(i as int), k.0, k.1) + (if ei.path@ == k.0 {
                    date_val(ei.dates@.take(j as int), k.1)
                } else {
                    0
                }),
            decreases dlen - j,
        {
            let ghost kk = (ei.path@, ei.dates@[j as int].date@);
            let cnt = b.entries[i].dates[j].count;
            proof {
                lemma_view_val(&r);
                // The part of `b` not yet folded in is nonnegative, so the
                // already-accumulated count stays below the bound.
                assert(bes =~= bes.take(i as int) + seq![ei] + bes.skip(i as int + 1));
                lemma_path_val_concat(bes.take(i as int) + seq![ei], bes.skip(i as int + 1), kk.0, kk.1);
                lemma_path_val_concat(bes.take(i as int), seq![ei], kk.0, kk.1);
                lemma_path_val_singleton(ei, kk.0, kk.1);
                lemma_path_val_nonneg(bes.skip(i as int + 1), kk.0, kk.1);
                assert(ei.dates@ =~= ei.dates@.take(j as int) + seq![ei.dates@[j as int]]
                    + ei.dates@.skip(j as int + 1));
                lemma_date_val_concat(
                    ei.dates@.take(j as int) + seq![ei.dates@[j as int]],
                    ei.dates@.skip(j as int + 1),
                    kk.1,
                );
                lemma_date_val_concat(ei.dates@.take(j as int), seq![ei.dates@[j as int]], kk.1);
                lemma_date_val_singleton(ei.dates@[j as int], kk.1);
                lemma_date_val_nonneg(ei.dates@.skip(j as int + 1), kk.1);
                lemma_date_val_nonneg(ei.dates@.take(j as int), kk.1);
                lemma_path_val_nonneg(bes.take(i as int), kk.0, kk.1);
                assert(map_val(r@, kk) + cnt <= map_val(a0, kk) + path_val(bes, kk.0, kk.1));
                assert(map_val(b@, kk) == path_val(bes, kk.0, kk.1));
                assert(map_val(a0, kk) + map_val(b@, kk) <= u64::MAX);
            }
            let ghost r0 = r@;
            r.add_count(
                b.entries[i].path.as_slice(),
                b.entries[i].dates[j].date.as_slice(),
                cnt,
            );
            proof {
                lemma_spec_add_val(r0, kk, cnt as int);
                assert(ei.dates@.take(j as int + 1) =~= ei.dates@.take(j as int)
                    + seq![ei.dates@[j as int]]);
                assert forall|k: (Seq<u8>, Seq<u8>)| #[trigger] map_val(r@, k) == map_val(a0, k)
                    + path_val(bes.take(i as int), k.0, k.1) + (if ei.path@ == k.0 {
                    date_val(ei.dates@.take(j as int + 1), k.1)
                } else {
                    0
                }) by {
                    lemma_date_val_concat(ei.dates@.take(j as int), seq![ei.dates@[j as int]], k.1);
                    lemma_date_val_singleton(ei.dates@[j as int], k.1);
                }
            }
            j += 1;
        }
        i += 1;
        proof {
            assert(bes.take(i as int) =~= bes.take(i as int - 1) + seq![ei]);
            assert(ei.dates@.take(dlen as int) =~= ei.dates@);
            assert forall|k: (Seq<u8>, Seq<u8>)| #[trigger] map_val(r@, k) == map_val(a0, k)
                + path_val(bes.take(i as int), k.0, k.1) by {
                lemma_path_val_concat(bes.take(i as int - 1), seq![ei], k.0, k.1);
                lemma_path_val_singleton(ei, k.0, k.1);
            }
        }
    }
    proof {
        assert(bes.take(bes.len() as int) =~= bes);
        lemma_view_val(&r);
        lemma_merge_val(a0, b@);
        assert forall|k: (Seq<u8>, Seq<u8>)| #[trigger] map_val(r@, k) == map_val(a0, k) + map_val(
            b@,
            k,
        ) by {
            assert(map_val(b@, k) == path_val(bes, k.0, k.1));
        }
        assert forall|k: (Seq<u8>, Seq<u8>)|
            r@.contains_key(k) == #[trigger] spec_merge(a0, b@).contains_key(k) by {
            lemma_path_val_nonneg(r.entries@, k.0, k.1);
            lemma_path_val_nonneg(bes, k.0, k.1);
            lemma_path_val_nonneg(aes, k.0, k.1);
            assert(map_val(r@, k) == map_val(a0, k) + map_val(b@, k));
            assert(map_val(b@, k) == path_val(bes, k.0, k.1));
            assert(map_val(a0, k) == path_val(aes, k.0, k.1));
            assert(r@.contains_key(k) == (path_val(r.entries@, k.0, k.1) != 0));
            assert(path_val(r.entries@, k.0, k.1) == map_val(r@, k));
        }
        assert forall|k: (Seq<u8>, Seq<u8>)| r@.contains_key(k) implies r@[k] == spec_merge(
            a0,
            b@,
        )[k] by {
            assert(map_val(r@, k) == map_val(a0, k) + map_val(b@, k));
            assert(spec_merge(a0, b@).contains_key(k));
            assert(spec_merge(a0, b@)[k] == map_val(a0, k) + map_val(b@, k));
        }
        assert(r@ =~= spec_merge(a0, b@));
    }
    r
}

} // verus!
