//! Chunk splitter and aggregator: divides the input into record-aligned
//! byte ranges, counts the records of each range, and folds the partial
//! tables into one.
//!
//! The reference meaning of a byte range is `chunk_counts`: the count map
//! obtained by splitting on newlines and parsing every line. The central
//! theorem (`lemma_chunk_counts_split`) says that cutting the input after
//! any newline splits its counts into a merge of the two parts' counts, so
//! aggregation yields the same table for every splitter degree.

use vstd::prelude::*;

use crate::bytes;
use crate::bytes::{find_byte, NL};
use crate::parser;
use crate::parser::spec_parse_line;
use crate::table;
use crate::table::{
    map_val, spec_add, spec_merge, lemma_merge_empty, lemma_merge_val, lemma_spec_add_val,
    VisitTable,
};

verus! {

/// Folds one parse result into a count map.
pub open spec fn add_record(
    m: Map<(Seq<u8>, Seq<u8>), int>,
    r: Option<(Seq<u8>, Seq<u8>)>,
) -> Map<(Seq<u8>, Seq<u8>), int> {
    match r {
        Option::None => m,
        Option::Some(k) => spec_add(m, k, 1),
    }
}

/// The count map of a byte range: the number of well-formed records for
/// each `(path, date)` pair among its newline-separated lines (a final
/// partial line counts as a line).
pub open spec fn chunk_counts(s: Seq<u8>) -> Map<(Seq<u8>, Seq<u8>), int>
    decreases s.len(),
    via chunk_counts_decreases
{
    if s.len() == 0 {
        Map::empty()
    } else {
        let p = find_byte(s, NL);
        let rest = if p < s.len() {
            s.skip(p + 1)
        } else {
            Seq::<u8>::empty()
        };
        add_record(chunk_counts(rest), spec_parse_line(s.take(p)))
    }
}

#[via_fn]
proof fn chunk_counts_decreases(s: Seq<u8>) {
    bytes::lemma_find_byte_bounds(s, NL);
}

/// Adding a record commutes with merging on either side.
pub proof fn lemma_merge_add(
    x: Map<(Seq<u8>, Seq<u8>), int>,
    y: Map<(Seq<u8>, Seq<u8>), int>,
    k: (Seq<u8>, Seq<u8>),
    n: int,
)
    ensures
        spec_merge(spec_add(x, k, n), y) == spec_add(spec_merge(x, y), k, n),
        spec_merge(x, spec_add(y, k, n)) == spec_add(spec_merge(x, y), k, n),
{
    lemma_merge_val(x, y);
    lemma_merge_val(spec_add(x, k, n), y);
    lemma_merge_val(x, spec_add(y, k, n));
    lemma_spec_add_val(x, k, n);
    lemma_spec_add_val(y, k, n);
    lemma_spec_add_val(spec_merge(x, y), k, n);
    assert(spec_merge(spec_add(x, k, n), y) =~= spec_add(spec_merge(x, y), k, n)) by {
        assert forall|k2: (Seq<u8>, Seq<u8>)|
            spec_merge(spec_add(x, k, n), y).contains_key(k2) == #[trigger] spec_add(
                spec_merge(x, y),
                k,
                n,
            ).contains_key(k2) by {}
        assert forall|k2: (Seq<u8>, Seq<u8>)|
            #[trigger] spec_merge(spec_add(x, k, n), y).contains_key(k2) implies spec_merge(
            spec_add(x, k, n),
            y,
        )[k2] == spec_add(spec_merge(x, y), k, n)[k2] by {
            assert(map_val(spec_merge(spec_add(x, k, n), y), k2) == map_val(
                spec_add(spec_merge(x, y), k, n),
                k2,
            ));
        }
    }
    assert(spec_merge(x, spec_add(y, k, n)) =~= spec_add(spec_merge(x, y), k, n)) by {
        assert forall|k2: (Seq<u8>, Seq<u8>)|
            spec_merge(x, spec_add(y, k, n)).contains_key(k2) == #[trigger] spec_add(
                spec_merge(x, y),
                k,
                n,
            ).contains_key(k2) by {}
        assert forall|k2: (Seq<u8>, Seq<u8>)|
            #[trigger] spec_merge(x, spec_add(y, k, n)).contains_key(k2) implies spec_merge(
            x,
            spec_add(y, k, n),
        )[k2] == spec_add(spec_merge(x, y), k, n)[k2] by {
            assert(map_val(spec_merge(x, spec_add(y, k, n)), k2) == map_val(
                spec_add(spec_merge(x, y), k, n),
                k2,
            ));
        }
    }
}

/// Every count of a byte range is between 0 and the range's length.
pub proof fn lemma_chunk_counts_bound(s: Seq<u8>)
    ensures
        forall|k: (Seq<u8>, Seq<u8>)| 0 <= #[trigger] map_val(chunk_counts(s), k) <= s.len(),
    decreases s.len(),
{
    if s.len() == 0 {
    } else {
        bytes::lemma_find_byte_bounds(s, NL);
        let p = find_byte(s, NL);
        let rest = if p < s.len() {
            s.skip(p + 1)
        } else {
            Seq::<u8>::empty()
        };
        lemma_chunk_counts_bound(rest);
        let r = spec_parse_line(s.take(p));
        assert forall|k: (Seq<u8>, Seq<u8>)|
            0 <= #[trigger] map_val(chunk_counts(s), k) <= s.len() by {
            match r {
                Option::None => {
                    assert(map_val(chunk_counts(s), k) == map_val(chunk_counts(rest), k));
                    assert(0 <= map_val(chunk_counts(rest), k) <= rest.len());
                },
                Option::Some(kr) => {
                    lemma_spec_add_val(chunk_counts(rest), kr, 1);
                    assert(map_val(chunk_counts(s), k) == map_val(chunk_counts(rest), k) + (if k
                        == kr {
                        1int
                    } else {
                        0int
                    }));
                    assert(0 <= map_val(chunk_counts(rest), k) <= rest.len());
                    assert(p >= 1) by {
                        if p == 0 {
                            assert(s.take(0).len() == 0);
                            assert(spec_parse_line(s.take(0)) is None);
                        }
                    }
                },
            }
        }
    }
}

/// Chunk-boundary correctness: cutting a byte range after any newline (or
/// anywhere when the first part is empty) splits its counts into the merge
/// of the two parts' counts — no record is lost or double-counted.
pub proof fn lemma_chunk_counts_split(a: Seq<u8>, b: Seq<u8>)
    requires
        a.len() == 0 || a[a.len() - 1] == NL,
    ensures
        chunk_counts(a + b) == spec_merge(chunk_counts(a), chunk_counts(b)),
    decreases a.len(),
{
    if a.len() == 0 {
        assert(a + b =~= b);
        lemma_merge_empty(chunk_counts(b));
    } else {
        let s = a + b;
        bytes::lemma_find_byte_bounds(a, NL);
        let p = find_byte(a, NL);
        assert(p < a.len()) by {
            if p == a.len() {
                assert(a[a.len() - 1] != NL);
            }
        }
        assert(forall|i: int| 0 <= i < p ==> s[i] == a[i]);
        bytes::lemma_find_byte_is(s, NL, p);
        assert(find_byte(s, NL) == p);
        assert(s.take(p) =~= a.take(p));
        let a1 = a.skip(p + 1);
        assert(s.skip(p + 1) =~= a1 + b);
        if a1.len() > 0 {
            assert(a1[a1.len() - 1] == a[a.len() - 1]);
        }
        lemma_chunk_counts_split(a1, b);
        let line = spec_parse_line(a.take(p));
        assert(chunk_counts(a) == add_record(chunk_counts(a1), line));
        assert(chunk_counts(s) == add_record(spec_merge(chunk_counts(a1), chunk_counts(b)), line));
        match line {
            Option::None => {}
            Option::Some(k) => {
                lemma_merge_add(chunk_counts(a1), chunk_counts(b), k, 1);
            }
        }
    }
}

/// Scans one chunk line by line and counts each well-formed record; lines
/// the parser rejects are skipped and count nothing.
#[verifier::loop_isolation(false)]
pub fn process_chunk(chunk: &[u8]) -> (r: VisitTable)
    ensures
        r.wf(),
        r@ == chunk_counts(chunk@),
{
    let mut table = VisitTable::new();
    let mut start: usize = 0;
    proof {
        assert(chunk@.skip(0) =~= chunk@);
        lemma_merge_empty(chunk_counts(chunk@));
    }
    while start < chunk.len()
        invariant
            start <= chunk@.len(),
            table.wf(),
            chunk_counts(chunk@) == spec_merge(table@, chunk_counts(chunk@.skip(start as int))),
        decreases chunk@.len() - start,
    {
        let end = bytes::find_byte_from(chunk, start, NL);
        let line = vstd::slice::slice_subrange(chunk, start, end);
        let ghost rem = chunk@.skip(start as int);
        proof {
            assert(forall|i: int| 0 <= i < rem.len() ==> rem[i] == chunk@[start + i]);
            assert(find_byte(rem, NL) == end - start) by {
                bytes::lemma_find_byte_is(rem, NL, end as int - start as int);
            }
            assert(line@ =~= rem.take(end as int - start as int));
        }
        let ghost rest = if end < chunk@.len() {
            chunk@.skip(end as int + 1)
        } else {
            Seq::<u8>::empty()
        };
        proof {
            if end < chunk@.len() {
                assert(rem.skip((end - start) as int + 1) =~= chunk@.skip(end as int + 1));
            }
            assert(chunk_counts(rem) == add_record(chunk_counts(rest), spec_parse_line(line@)));
        }
        match parser::parse_line(line) {
            Option::Some(pd) => {
                let ghost kk = (pd.0@, pd.1@);
                proof {
                    table::lemma_view_val(&table);
                    lemma_merge_val(table@, chunk_counts(rem));
                    lemma_chunk_counts_bound(chunk@);
                    lemma_chunk_counts_bound(rest);
                    lemma_spec_add_val(chunk_counts(rest), kk, 1);
                    assert(map_val(chunk_counts(rem), kk) >= 1);
                    assert(map_val(table@, kk) + map_val(chunk_counts(rem), kk) == map_val(
                        chunk_counts(chunk@),
                        kk,
                    ));
                    assert(map_val(chunk_counts(chunk@), kk) <= chunk@.len());
                    assert(chunk@.len() <= usize::MAX);
                    assert(map_val(table@, kk) + 1 <= u64::MAX);
                }
                let ghost t0 = table@;
                table.add_count(pd.0.as_slice(), pd.1.as_slice(), 1);
                proof {
                    lemma_merge_add(t0, chunk_counts(rest), kk, 1);
                    assert(spec_merge(table@, chunk_counts(rest)) == spec_add(
                        spec_merge(t0, chunk_counts(rest)),
                        kk,
                        1,
                    ));
                    assert(chunk_counts(rem) == spec_add(chunk_counts(rest), kk, 1));
                    assert(spec_merge(t0, chunk_counts(rem)) == spec_add(
                        spec_merge(t0, chunk_counts(rest)),
                        kk,
                        1,
                    ));
                    assert(chunk_counts(chunk@) == spec_merge(table@, chunk_counts(rest)));
                }
            },
            Option::None => {
                proof {
                    assert(chunk_counts(rem) == chunk_counts(rest));
                }
            },
        }
        if end < chunk.len() {
            start = end + 1;
        } else {
            start = chunk.len();
            proof {
                assert(rest =~= chunk@.skip(start as int));
            }
        }
    }
    proof {
        assert(chunk@.skip(start as int) =~= Seq::<u8>::empty());
        assert(chunk_counts(chunk@.skip(start as int)) == Map::<(Seq<u8>, Seq<u8>), int>::empty());
        lemma_merge_empty(table@);
    }
    table
}

/// Where a boundary scan starting at `start` ends: just past the first
/// newline at or after `start`, or at the end of the input if none is left.
pub open spec fn boundary_spec(data: Seq<u8>, start: int) -> int {
    let rel = find_byte(data.skip(start), NL);
    if start + rel < data.len() {
        start + rel + 1
    } else {
        data.len() as int
    }
}

/// Splits the input into `n` record-aligned byte ranges: boundary `i` is
/// found by scanning forward from `i * (len / n)` to just past the next
/// newline (or to the end of the input). Every internal boundary sits right
/// after a newline or at the end, so no record is ever cut in two. For
/// `n <= 1` or an empty input a single range covers the whole input.
#[verifier::loop_isolation(false)]
pub fn compute_boundaries(data: &[u8], n: usize) -> (r: Vec<usize>)
    ensures
        r@.len() >= 2,
        r@.len() == (if n <= 1 || data@.len() == 0 {
            2int
        } else {
            n + 1
        }),
        r@[0] == 0,
        r@[r@.len() - 1] == data@.len(),
        forall|m: int| 0 <= m < r@.len() ==> #[trigger] r@[m] <= data@.len(),
        forall|m: int| 0 <= m < r@.len() - 1 ==> #[trigger] r@[m] <= r@[m + 1],
        forall|m: int|
            0 < m < r@.len() - 1 ==> (#[trigger] r@[m] == data@.len() || (0 < r@[m]
                && data@[r@[m] - 1] == NL)),
        forall|m: int|
            0 < m < r@.len() - 1 ==> #[trigger] r@[m] == boundary_spec(
                data@,
                m * ((data@.len() as int) / (n as int)),
            ),
{
    let len = data.len();
    let mut bounds: Vec<usize> = Vec::new();
    bounds.push(0);
    if n <= 1 || len == 0 {
        bounds.push(len);
        return bounds;
    }
    let stride = len / n;
    let mut base: usize = 0;
    let mut i: usize = 1;
    proof {
        vstd::arithmetic::div_mod::lemma_fundamental_div_mod(len as int, n as int);
        vstd::arithmetic::div_mod::lemma_mod_bound(len as int, n as int);
        assert(n * stride <= len);
    }
    while i < n
        invariant
            1 <= i <= n,
            base == (i - 1) * (stride as int),
            base <= len,
            bounds@.len() == i,
            bounds@[0] == 0,
            forall|m: int| 0 <= m < i ==> #[trigger] bounds@[m] <= len,
            forall|m: int| 0 <= m < i - 1 ==> #[trigger] bounds@[m] <= bounds@[m + 1],
            forall|m: int|
                0 < m < i ==> (#[trigger] bounds@[m] == len || (0 < bounds@[m]
                    && data@[bounds@[m] - 1] == NL)),
            bounds@[i - 1] <= base || (forall|m: int|
                base <= m < bounds@[i - 1] - 1 ==> data@[m] != NL),
            forall|m: int|
                0 < m < i ==> #[trigger] bounds@[m] == boundary_spec(data@, m * (stride as int)),
        decreases n - i,
    {
        let ghost old_base = base as int;
        proof {
            vstd::arithmetic::mul::lemma_mul_inequality(i as int, n as int, stride as int);
            vstd::arithmetic::mul::lemma_mul_is_distributive_sub(stride as int, i as int, 1);
            vstd::arithmetic::mul::lemma_mul_is_commutative(stride as int, i as int);
            vstd::arithmetic::mul::lemma_mul_is_commutative(stride as int, i as int - 1);
            assert((i - 1) * (stride as int) + stride == i * (stride as int));
            assert(i * (stride as int) <= n * (stride as int));
        }
        base = base + stride;
        let pos = bytes::find_byte_from(data, base, NL);
        let b = if pos < len {
            pos + 1
        } else {
            len
        };
        proof {
            let prev = bounds@[i - 1];
            if base < prev {
                assert(forall|m: int| old_base <= m < prev - 1 ==> data@[m] != NL);
                assert(old_base <= base);
                assert(pos >= prev - 1) by {
                    if pos < prev - 1 {
                        assert(data@[pos as int] == NL);
                        assert(data@[pos as int] != NL);
                    }
                }
                assert(prev <= b);
            } else {
                assert(prev <= b);
            }
        }
        proof {
            assert(pos - base == find_byte(data@.skip(base as int), NL));
            assert(b == boundary_spec(data@, i * (stride as int)));
        }
        bounds.push(b);
        i += 1;
        proof {
            assert(bounds@[i - 1] == b);
            assert forall|m: int| base <= m < bounds@[i - 1] - 1 implies data@[m] != NL by {
                assert(m < pos);
            }
        }
    }
    bounds.push(len);
    bounds
}

/// Builds the full visit table of the input: splits it into `n` chunks,
/// counts each chunk, and merges the partial tables. The result is
/// `chunk_counts` of the whole input, whatever the splitter degree `n`.
#[verifier::loop_isolation(false)]
pub fn aggregate(data: &[u8], n: usize) -> (r: VisitTable)
    ensures
        r.wf(),
        r@ == chunk_counts(data@),
{
    let bounds = compute_boundaries(data, n);
    let mut acc = VisitTable::new();
    proof {
        assert(data@.take(0) =~= Seq::<u8>::empty());
    }
    let mut i: usize = 0;
    while i + 1 < bounds.len()
        invariant
            i < bounds@.len(),
            acc.wf(),
            acc@ == chunk_counts(data@.take(bounds@[i as int] as int)),
        decreases bounds@.len() - i,
    {
        let a = bounds[i];
        let b = bounds[i + 1];
        let chunk = vstd::slice::slice_subrange(data, a, b);
        let t = process_chunk(chunk);
        let ghost pre = data@.take(a as int);
        let ghost mid = data@.subrange(a as int, b as int);
        proof {
            assert(chunk@ == mid);
            lemma_chunk_counts_bound(pre);
            lemma_chunk_counts_bound(mid);
            assert forall|k: (Seq<u8>, Seq<u8>)|
                map_val(acc@, k) + #[trigger] map_val(t@, k) <= u64::MAX by {
                assert(0 <= map_val(chunk_counts(pre), k) <= pre.len());
                assert(0 <= map_val(chunk_counts(mid), k) <= mid.len());
            }
        }
        let ghost acc0 = acc@;
        acc = table::merge_maps(acc, t);
        proof {
            if a == b {
                assert(mid =~= Seq::<u8>::empty());
                assert(chunk_counts(mid) == Map::<(Seq<u8>, Seq<u8>), int>::empty());
                lemma_merge_empty(acc0);
                assert(data@.take(b as int) == data@.take(a as int));
            } else {
                assert(a < b);
                assert(pre.len() == 0 || pre[pre.len() - 1] == NL) by {
                    if i == 0 {
                        assert(bounds@[0] == 0);
                    } else if a as int == data@.len() {
                        assert(b <= data@.len());
                        assert(false);
                    } else {
                        assert(0 < a as int && data@[a as int - 1] == NL);
                        assert(pre[a as int - 1] == data@[a as int - 1]);
                    }
                }
                lemma_chunk_counts_split(pre, mid);
                assert(pre + mid =~= data@.take(b as int));
            }
        }
        i += 1;
    }
    proof {
        assert(i as int == bounds@.len() - 1);
        assert(bounds@[i as int] == data@.len());
        assert(data@.take(data@.len() as int) =~= data@);
    }
    acc
}

} // verus!
