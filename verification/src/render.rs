//! Report writer: serializes a visit table to JSON with 4-space indentation
//! at two nesting levels, `/` escaped as `\/` in keys, counts as unsigned
//! decimal integers, and entries in the table's sorted order, so the output
//! is byte-for-byte reproducible.

use vstd::prelude::*;

use crate::bytes::{lemma_lex_lt_asym, BACKSLASH, COLON, COMMA, LBRACE, NL, QUOTE, RBRACE, SLASH, SPACE};
use crate::chunks::{aggregate, chunk_counts};
use crate::table::{
    date_val, entries_wf, lemma_date_val_at, lemma_dates_val_equal, lemma_path_val_at,
    lemma_path_val_nonzero, lemma_paths_pairwise, lemma_view_val, map_val, path_val, DateCount,
    PathCounts, VisitTable,
};

verus! {

/// JSON key escaping of a path: every `/` becomes `\/`, all other bytes
/// stay as they are.
pub open spec fn escape(s: Seq<u8>) -> Seq<u8>
    decreases s.len(),
{
    if s.len() == 0 {
        Seq::empty()
    } else {
        (if s[0] == SLASH {
            seq![BACKSLASH, SLASH]
        } else {
            seq![s[0]]
        }) + escape(s.skip(1))
    }
}

/// Escaping a concatenation escapes the parts.
pub proof fn lemma_escape_concat(a: Seq<u8>, b: Seq<u8>)
    ensures
        escape(a + b) == escape(a) + escape(b),
    decreases a.len(),
{
    if a.len() == 0 {
        assert(a + b =~= b);
        assert(escape(a) + escape(b) =~= escape(b));
    } else {
        assert((a + b).skip(1) =~= a.skip(1) + b);
        lemma_escape_concat(a.skip(1), b);
        assert(escape(a + b) =~= escape(a) + escape(b));
    }
}

/// Every `/` of an escaped path is preceded by a `\`: the escaping really
/// escapes each slash.
pub proof fn lemma_escape_slash_escaped(s: Seq<u8>)
    ensures
        forall|i: int|
            0 <= i < escape(s).len() && #[trigger] escape(s)[i] == SLASH ==> i >= 1 && escape(
                s,
            )[i - 1] == BACKSLASH,
    decreases s.len(),
{
    if s.len() > 0 {
        lemma_escape_slash_escaped(s.skip(1));
        let h = if s[0] == SLASH {
            seq![BACKSLASH, SLASH]
        } else {
            seq![s[0]]
        };
        let t = escape(s.skip(1));
        assert(escape(s) == h + t);
        if t.len() > 0 {
            assert(t[0] != SLASH) by {
                if s.skip(1).len() > 0 {
                    let h2 = if s.skip(1)[0] == SLASH {
                        seq![BACKSLASH, SLASH]
                    } else {
                        seq![s.skip(1)[0]]
                    };
                    assert(t == h2 + escape(s.skip(1).skip(1)));
                    assert(t[0] == h2[0]);
                }
            }
        }
        assert forall|i: int|
            0 <= i < escape(s).len() && #[trigger] escape(s)[i] == SLASH implies i >= 1 && escape(
            s,
        )[i - 1] == BACKSLASH by {
            if i < h.len() {
                assert(escape(s)[i] == h[i]);
                if s[0] == SLASH {
                    assert(i == 1);
                    assert(escape(s)[0] == BACKSLASH);
                }
            } else {
                assert(escape(s)[i] == t[i - h.len()]);
                assert(i - h.len() >= 1);
                assert(escape(s)[i - 1] == t[i - h.len() - 1]);
            }
        }
    }
}

/// Decimal digits of `n`, most significant first, no leading zeros.
pub open spec fn dec_repr(n: int) -> Seq<u8>
    decreases n,
{
    if n < 10 {
        seq![(48 + n) as u8]
    } else {
        dec_repr(n / 10) + seq![(48 + n % 10) as u8]
    }
}

/// One `"<date>": <count>` line at 8-space indentation, a comma after it
/// unless it is the last of its object.
pub open spec fn render_date_entry(dc: DateCount, more: bool) -> Seq<u8> {
    seq![SPACE, SPACE, SPACE, SPACE, SPACE, SPACE, SPACE, SPACE, QUOTE] + dc.date@ + seq![
        QUOTE,
        COLON,
        SPACE,
    ] + dec_repr(dc.count as int) + (if more {
        seq![COMMA, NL]
    } else {
        seq![NL]
    })
}

pub open spec fn render_dates(ds: Seq<DateCount>) -> Seq<u8>
    decreases ds.len(),
{
    if ds.len() == 0 {
        Seq::empty()
    } else {
        render_date_entry(ds[0], ds.len() > 1) + render_dates(ds.skip(1))
    }
}

/// One `"<path>": { ... }` object at 4-space indentation, a comma after it
/// unless it is the last of the report.
pub open spec fn render_path_entry(pc: PathCounts, more: bool) -> Seq<u8> {
    seq![SPACE, SPACE, SPACE, SPACE, QUOTE] + escape(pc.path@) + seq![QUOTE, COLON, SPACE, LBRACE, NL]
        + render_dates(pc.dates@) + seq![SPACE, SPACE, SPACE, SPACE, RBRACE] + (if more {
        seq![COMMA, NL]
    } else {
        seq![NL]
    })
}

pub open spec fn render_entries(es: Seq<PathCounts>) -> Seq<u8>
    decreases es.len(),
{
    if es.len() == 0 {
        Seq::empty()
    } else {
        render_path_entry(es[0], es.len() > 1) + render_entries(es.skip(1))
    }
}

/// The whole report: a JSON object whose keys appear in the table's order.
pub open spec fn render_table(es: Seq<PathCounts>) -> Seq<u8> {
    seq![LBRACE, NL] + render_entries(es) + seq![RBRACE]
}

/// Appends all of `s` to `out`.
fn push_slice(out: &mut Vec<u8>, s: &[u8])
    ensures
        final(out)@ == old(out)@ + s@,
{
    let mut i: usize = 0;
    while i < s.len()
        invariant
            i <= s@.len(),
            out@ == old(out)@ + s@.take(i as int),
        decreases s@.len() - i,
    {
        out.push(s[i]);
        proof {
            assert(s@.take(i + 1) =~= s@.take(i as int) + seq![s@[i as int]]);
            assert(out@ =~= old(out)@ + s@.take(i + 1));
        }
        i += 1;
    }
    proof {
        assert(s@.take(s@.len() as int) =~= s@);
    }
}

/// Appends the escaped form of `s` to `out`.
fn push_escaped(out: &mut Vec<u8>, s: &[u8])
    ensures
        final(out)@ == old(out)@ + escape(s@),
{
    let mut i: usize = 0;
    while i < s.len()
        invariant
            i <= s@.len(),
            out@ == old(out)@ + escape(s@.take(i as int)),
        decreases s@.len() - i,
    {
        let ghost pre = s@.take(i as int);
        let b = s[i];
        if b == SLASH {
            out.push(BACKSLASH);
            out.push(SLASH);
        } else {
            out.push(b);
        }
        proof {
            assert(s@.take(i + 1) =~= pre + seq![s@[i as int]]);
            lemma_escape_concat(pre, seq![s@[i as int]]);
            assert(seq![s@[i as int]].skip(1) =~= Seq::<u8>::empty());
            assert(escape(seq![s@[i as int]]) == (if s@[i as int] == SLASH {
                seq![BACKSLASH, SLASH]
            } else {
                seq![s@[i as int]]
            }) + escape(Seq::<u8>::empty()));
            if b == SLASH {
                assert(out@ =~= old(out)@ + escape(s@.take(i + 1)));
            } else {
                assert(out@ =~= old(out)@ + escape(s@.take(i + 1)));
            }
        }
        i += 1;
    }
    proof {
        assert(s@.take(s@.len() as int) =~= s@);
    }
}

/// Appends the decimal digits of `n` to `out`.
fn push_decimal(out: &mut Vec<u8>, n: u64)
    ensures
        final(out)@ == old(out)@ + dec_repr(n as int),
    decreases n,
{
    if n >= 10 {
        push_decimal(out, n / 10);
    }
    out.push(48 + (n % 10) as u8);
    proof {
        if n < 10 {
            assert(dec_repr(n as int) =~= seq![(48 + n as int) as u8]);
            assert(out@ =~= old(out)@ + dec_repr(n as int));
        } else {
            assert(out@ =~= old(out)@ + dec_repr(n as int / 10) + seq![(48 + n as int % 10) as u8]);
            assert(out@ =~= old(out)@ + dec_repr(n as int));
        }
    }
}

/// Renders the visit table as the report's JSON bytes, exactly
/// `render_table` of its entries: sorted paths, then sorted dates, each
/// with its decimal count.
#[verifier::loop_isolation(false)]
#[verifier::rlimit(60)]
pub fn render_json(t: &VisitTable) -> (r: Vec<u8>)
    requires
        t.wf(),
    ensures
        r@ == render_table(t.entries@),
{
    let ghost es = t.entries@;
    let mut out: Vec<u8> = Vec::new();
    out.push(LBRACE);
    out.push(NL);
    proof {
        assert(out@ =~= seq![LBRACE, NL]);
    }
    let n = t.entries.len();
    let mut i: usize = 0;
    proof {
        assert(es.skip(0) =~= es);
    }
    while i < n
        invariant
            i <= n,
            n == es.len(),
            es == t.entries@,
            out@ + render_entries(es.skip(i as int)) + seq![RBRACE] == render_table(es),
        decreases n - i,
    {
        let ghost out0 = out@;
        push_slice(&mut out, &[SPACE, SPACE, SPACE, SPACE, QUOTE]);
        push_escaped(&mut out, t.entries[i].path.as_slice());
        push_slice(&mut out, &[QUOTE, COLON, SPACE, LBRACE, NL]);
        let ghost ds = es[i as int].dates@;
        let ghost header = out0 + seq![SPACE, SPACE, SPACE, SPACE, QUOTE] + escape(
            es[i as int].path@,
        ) + seq![QUOTE, COLON, SPACE, LBRACE, NL];
        let dn = t.entries[i].dates.len();
        let mut j: usize = 0;
        proof {
            assert(ds.skip(0) =~= ds);
            assert(out@ =~= header);
        }
        while j < dn
            invariant
                j <= dn,
                i < n,
                n == es.len(),
                es == t.entries@,
                dn == ds.len(),
                ds == es[i as int].dates@,
                out@ + render_dates(ds.skip(j as int)) == header + render_dates(ds),
            decreases dn - j,
        {
            let ghost dout0 = out@;
            push_slice(
                &mut out,
                &[SPACE, SPACE, SPACE, SPACE, SPACE, SPACE, SPACE, SPACE, QUOTE],
            );
            push_slice(&mut out, t.entries[i].dates[j].date.as_slice());
            push_slice(&mut out, &[QUOTE, COLON, SPACE]);
            push_decimal(&mut out, t.entries[i].dates[j].count);
            if j + 1 < dn {
                out.push(COMMA);
            }
            out.push(NL);
            proof {
                assert(ds.skip(j as int)[0] == ds[j as int]);
                assert(ds.skip(j as int).skip(1) =~= ds.skip(j + 1));
                assert(ds.skip(j as int).len() > 1 <==> j + 1 < dn);
                assert(render_dates(ds.skip(j as int)) == render_date_entry(
                    ds[j as int],
                    j + 1 < dn,
                ) + render_dates(ds.skip(j + 1)));
                assert(out@ =~= dout0 + render_date_entry(ds[j as int], j + 1 < dn));
                assert(out@ + render_dates(ds.skip(j + 1)) =~= dout0 + render_dates(
                    ds.skip(j as int),
                ));
            }
            j += 1;
        }
        push_slice(&mut out, &[SPACE, SPACE, SPACE, SPACE, RBRACE]);
        if i + 1 < n {
            out.push(COMMA);
        }
        out.push(NL);
        proof {
            assert(ds.skip(dn as int) =~= Seq::<DateCount>::empty());
            assert(render_dates(ds.skip(dn as int)) =~= Seq::<u8>::empty());
            assert(es.skip(i as int)[0] == es[i as int]);
            assert(es.skip(i as int).skip(1) =~= es.skip(i + 1));
            assert(es.skip(i as int).len() > 1 <==> i + 1 < n);
            assert(render_entries(es.skip(i as int)) == render_path_entry(es[i as int], i + 1 < n)
                + render_entries(es.skip(i + 1)));
            assert(out@ =~= out0 + render_path_entry(es[i as int], i + 1 < n));
            assert(out@ + render_entries(es.skip(i + 1)) + seq![RBRACE] =~= out0 + render_entries(
                es.skip(i as int),
            ) + seq![RBRACE]);
        }
        i += 1;
    }
    out.push(RBRACE);
    proof {
        assert(es.skip(n as int) =~= Seq::<PathCounts>::empty());
        assert(render_entries(es.skip(n as int)) =~= Seq::<u8>::empty());
        assert(out@ =~= render_table(es));
    }
    out
}

/// Entry-by-entry equal date lists render to the same bytes.
proof fn lemma_render_dates_congr(ds1: Seq<DateCount>, ds2: Seq<DateCount>)
    requires
        ds1.len() == ds2.len(),
        forall|j: int|
            0 <= j < ds1.len() ==> (#[trigger] ds1[j].date@) == ds2[j].date@ && ds1[j].count
                == ds2[j].count,
    ensures
        render_dates(ds1) == render_dates(ds2),
    decreases ds1.len(),
{
    if ds1.len() > 0 {
        assert(render_date_entry(ds1[0], ds1.len() > 1) == render_date_entry(
            ds2[0],
            ds2.len() > 1,
        ));
        let t1 = ds1.skip(1);
        let t2 = ds2.skip(1);
        assert(forall|i: int| 0 <= i < t1.len() ==> (#[trigger] t1[i]) == ds1[i + 1]);
        assert(forall|i: int| 0 <= i < t2.len() ==> (#[trigger] t2[i]) == ds2[i + 1]);
        lemma_render_dates_congr(t1, t2);
    }
}

/// Well-formed tables with the same counts render to the same bytes.
proof fn lemma_render_entries_deterministic(es1: Seq<PathCounts>, es2: Seq<PathCounts>)
    requires
        entries_wf(es1),
        entries_wf(es2),
        forall|p: Seq<u8>, d: Seq<u8>| #[trigger] path_val(es1, p, d) == path_val(es2, p, d),
    ensures
        es1.len() == es2.len(),
        render_entries(es1) == render_entries(es2),
    decreases es1.len(),
{
    if es1.len() == 0 {
        if es2.len() > 0 {
            let d0 = es2[0].dates@[0].date@;
            lemma_path_val_at(es2, 0, d0);
            lemma_date_val_at(es2[0].dates@, 0);
            assert(path_val(es1, es2[0].path@, d0) == 0);
            assert(false);
        }
    } else if es2.len() == 0 {
        let d0 = es1[0].dates@[0].date@;
        lemma_path_val_at(es1, 0, d0);
        lemma_date_val_at(es1[0].dates@, 0);
        assert(path_val(es2, es1[0].path@, d0) == 0);
        assert(false);
    } else {
        let p1 = es1[0].path@;
        let p2 = es2[0].path@;
        if p1 != p2 {
            let d1 = es1[0].dates@[0].date@;
            lemma_path_val_at(es1, 0, d1);
            lemma_date_val_at(es1[0].dates@, 0);
            assert(path_val(es2, p1, d1) != 0);
            lemma_path_val_nonzero(es2, p1, d1);
            let j2 = choose|j: int|
                0 <= j < es2.len() && (#[trigger] es2[j].path@) == p1 && date_val(
                    es2[j].dates@,
                    d1,
                ) != 0;
            assert(j2 != 0);
            lemma_paths_pairwise(es2, 0, j2);
            let d2 = es2[0].dates@[0].date@;
            lemma_path_val_at(es2, 0, d2);
            lemma_date_val_at(es2[0].dates@, 0);
            assert(path_val(es1, p2, d2) != 0);
            lemma_path_val_nonzero(es1, p2, d2);
            let j1 = choose|j: int|
                0 <= j < es1.len() && (#[trigger] es1[j].path@) == p2 && date_val(
                    es1[j].dates@,
                    d2,
                ) != 0;
            assert(j1 != 0);
            lemma_paths_pairwise(es1, 0, j1);
            lemma_lex_lt_asym(p1, p2);
            assert(false);
        }
        assert forall|d: Seq<u8>| #[trigger] date_val(es1[0].dates@, d) == date_val(
            es2[0].dates@,
            d,
        ) by {
            lemma_path_val_at(es1, 0, d);
            lemma_path_val_at(es2, 0, d);
        }
        lemma_dates_val_equal(es1[0].dates@, es2[0].dates@);
        let t1 = es1.skip(1);
        let t2 = es2.skip(1);
        assert(forall|i: int| 0 <= i < t1.len() ==> (#[trigger] t1[i]) == es1[i + 1]);
        assert(forall|i: int| 0 <= i < t2.len() ==> (#[trigger] t2[i]) == es2[i + 1]);
        assert(entries_wf(t1));
        assert(entries_wf(t2));
        assert forall|p: Seq<u8>, d: Seq<u8>| #[trigger] path_val(t1, p, d) == path_val(
            t2,
            p,
            d,
        ) by {
            assert(path_val(es1, p, d) == (if p1 == p {
                date_val(es1[0].dates@, d)
            } else {
                0
            }) + path_val(t1, p, d));
            assert(path_val(es2, p, d) == (if p2 == p {
                date_val(es2[0].dates@, d)
            } else {
                0
            }) + path_val(t2, p, d));
        }
        lemma_render_entries_deterministic(t1, t2);
        lemma_render_dates_congr(es1[0].dates@, es2[0].dates@);
        assert(render_path_entry(es1[0], es1.len() > 1) == render_path_entry(
            es2[0],
            es2.len() > 1,
        ));
    }
}

/// Sorted, deterministic output: two well-formed tables holding the same
/// counts render to the same report, whatever order their entries were
/// inserted in — the sorted representation is canonical.
pub proof fn lemma_report_deterministic(t1: VisitTable, t2: VisitTable)
    requires
        t1.wf(),
        t2.wf(),
        t1@ == t2@,
    ensures
        render_table(t1.entries@) == render_table(t2.entries@),
{
    lemma_view_val(&t1);
    lemma_view_val(&t2);
    assert forall|p: Seq<u8>, d: Seq<u8>| #[trigger] path_val(t1.entries@, p, d) == path_val(
        t2.entries@,
        p,
        d,
    ) by {
        assert(map_val(t1@, (p, d)) == path_val(t1.entries@, p, d));
        assert(map_val(t2@, (p, d)) == path_val(t2.entries@, p, d));
    }
    lemma_render_entries_deterministic(t1.entries@, t2.entries@);
}

/// The whole pipeline: splits the input into `degree` chunks, aggregates
/// them, and renders the report. The bytes produced are those of any (and
/// by `lemma_report_deterministic` the unique) well-formed table holding
/// the input's counts, whatever the degree.
pub fn build_report(data: &[u8], degree: usize) -> (r: Vec<u8>)
    ensures
        forall|t: VisitTable|
            t.wf() && t@ == chunk_counts(data@) ==> r@ == render_table(t.entries@),
{
    let table = aggregate(data, degree);
    let r = render_json(&table);
    proof {
        assert forall|t: VisitTable|
            t.wf() && t@ == chunk_counts(data@) implies r@ == render_table(t.entries@) by {
            lemma_report_deterministic(t, table);
        }
    }
    r
}

} // verus!
