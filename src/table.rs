//! The report: the aggregate's rows in the chosen order, each with its
//! running totals, restricted to the names the filter accepts.
//!
//! Rows that the filter hides still count in the grand totals; the running
//! totals advance only over the rows that are shown.

use vstd::prelude::*;
use vstd::utf8::encode_utf8_decode_utf8;
use crate::aggregate::{
    copies_of, lemma_ascending_no_duplicates, lemma_same_contents_same_entries, lemma_sum_concat, lemma_sum_insert, lines_of,
    name_order_key, sum_of, tally_of, Aggregate,
};
use crate::filter::{pattern_matches, NameFilter};
use crate::text::{
    compare_bytes, decimal_len, decimal_width, lemma_lex_asymmetric, lemma_lex_irreflexive,
    lemma_lex_total, lemma_lex_transitive, lex_lt,
};

verus! {

/// The column by which the report is ordered.
#[derive(Clone, Copy, Debug, PartialEq, Eq, Structural)]
pub enum SortOrder {
    Lines,
    Copies,
    Name,
}

/// A row as the ordering sees it: the name, and (copies, total lines).
pub open spec fn row_before(
    order: SortOrder,
    a: (Seq<char>, (nat, nat)),
    b: (Seq<char>, (nat, nat)),
) -> bool {
    let by_name = lex_lt(name_order_key(a.0), name_order_key(b.0));
    match order {
        SortOrder::Lines => a.1.1 > b.1.1 || (a.1.1 == b.1.1 && (a.1.0 > b.1.0 || (a.1.0 == b.1.0
            && by_name))),
        SortOrder::Copies => a.1.0 > b.1.0 || (a.1.0 == b.1.0 && (a.1.1 > b.1.1 || (a.1.1 == b.1.1
            && by_name))),
        SortOrder::Name => by_name,
    }
}

/// Each ordering of rows is a strict total order on rows with distinct
/// names: no row precedes itself, no two rows precede each other, it is
/// transitive, and of two rows with different names one comes first.
pub proof fn lemma_row_order_is_total(
    order: SortOrder,
    a: (Seq<char>, (nat, nat)),
    b: (Seq<char>, (nat, nat)),
    c: (Seq<char>, (nat, nat)),
)
    ensures
        !row_before(order, a, a),
        !(row_before(order, a, b) && row_before(order, b, a)),
        row_before(order, a, b) && row_before(order, b, c) ==> row_before(order, a, c),
        a.0 != b.0 ==> row_before(order, a, b) || row_before(order, b, a),
{
    let ka = name_order_key(a.0);
    let kb = name_order_key(b.0);
    let kc = name_order_key(c.0);
    lemma_lex_irreflexive(ka);
    lemma_lex_asymmetric(ka, kb);
    if lex_lt(ka, kb) && lex_lt(kb, kc) {
        lemma_lex_transitive(ka, kb, kc);
    }
    if a.0 != b.0 {
        encode_utf8_decode_utf8(a.0);
        encode_utf8_decode_utf8(b.0);
        lemma_lex_total(ka, kb);
    }
}

/// The `k`-th entry of the aggregate, as the ordering sees it.
pub open spec fn entry_of(agg: &Aggregate, k: int) -> (Seq<char>, (nat, nat)) {
    (agg.names()[k], tally_of(agg.records()[k]))
}

/// `ranking` lists every entry of the aggregate once, in `order`.
pub open spec fn is_ranking(agg: &Aggregate, order: SortOrder, ranking: Seq<usize>) -> bool {
    &&& ranking.len() == agg.names().len()
    &&& ranking.no_duplicates()
    &&& forall|k: usize| k < agg.names().len() ==> ranking.contains(k)
    &&& forall|i: int| 0 <= i < ranking.len() ==> #[trigger] ranking[i] < agg.names().len()
    &&& forall|i: int, j: int|
        0 <= i < j < ranking.len() ==> row_before(
            order,
            entry_of(agg, #[trigger] ranking[i] as int),
            entry_of(agg, #[trigger] ranking[j] as int),
        )
}

/// The line counts of the entries listed in `ks`.
pub open spec fn lines_at(agg: &Aggregate, ks: Seq<usize>) -> Seq<nat> {
    ks.map_values(|k: usize| agg.records()[k as int].total_lines as nat)
}

/// The copy counts of the entries listed in `ks`.
pub open spec fn copies_at(agg: &Aggregate, ks: Seq<usize>) -> Seq<nat> {
    ks.map_values(|k: usize| agg.records()[k as int].copies as nat)
}

/// A ranking of a well-formed aggregate is unique: two rankings in the same
/// order are equal, so the report's row order is fully determined.
pub proof fn lemma_ranking_is_unique(agg: &Aggregate, order: SortOrder, r1: Seq<usize>, r2: Seq<usize>)
    requires
        agg.wf(),
        is_ranking(agg, order, r1),
        is_ranking(agg, order, r2),
    ensures
        r1 == r2,
{
    lemma_ascending_no_duplicates(agg.names());
    if r1 != r2 {
        assert(exists|i: int| 0 <= i < r1.len() && r1[i] != r2[i]) by {
            if forall|i: int| 0 <= i < r1.len() ==> r1[i] == r2[i] {
                assert(r1 =~= r2);
            }
        }
        let i0 = choose|i: int| 0 <= i < r1.len() && r1[i] != r2[i];
        let i = first_difference(r1, r2, i0);
        let x = r1[i];
        let y = r2[i];
        assert(r2.contains(x));
        let j = choose|j: int| 0 <= j < r2.len() && r2[j] == x;
        assert(r1.contains(y));
        let k = choose|k: int| 0 <= k < r1.len() && r1[k] == y;
        assert(j > i) by {
            if j < i {
                assert(r1[j] == r2[j]);
            }
        }
        assert(k > i) by {
            if k < i {
                assert(r2[k] == r1[k]);
            }
        }
        assert(row_before(order, entry_of(agg, x as int), entry_of(agg, y as int)));
        assert(row_before(order, entry_of(agg, y as int), entry_of(agg, x as int)));
        lemma_row_order_is_total(order, entry_of(agg, x as int), entry_of(agg, y as int), entry_of(agg, y as int));
    }
}

/// The first index at or below `i` where `a` and `b` differ.
proof fn first_difference(a: Seq<usize>, b: Seq<usize>, i: int) -> (r: int)
    requires
        0 <= i < a.len(),
        i < b.len(),
        a[i] != b[i],
    ensures
        0 <= r <= i,
        a[r] != b[r],
        forall|j: int| 0 <= j < r ==> a[j] == b[j],
    decreases i,
{
    if exists|j: int| 0 <= j < i && a[j] != b[j] {
        let j = choose|j: int| 0 <= j < i && a[j] != b[j];
        first_difference(a, b, j)
    } else {
        i
    }
}

/// Two aggregates with the same contents rank alike: the ranking depends on
/// the contents alone, not on the order in which copies were counted.
pub proof fn lemma_same_contents_same_ranking(
    a: &Aggregate,
    b: &Aggregate,
    order: SortOrder,
    ra: Seq<usize>,
    rb: Seq<usize>,
)
    requires
        a.wf(),
        b.wf(),
        a@ == b@,
        is_ranking(a, order, ra),
        is_ranking(b, order, rb),
    ensures
        ra == rb,
        forall|i: int| 0 <= i < ra.len() ==> entry_of(a, #[trigger] ra[i] as int) == entry_of(b, rb[i] as int),
{
    lemma_same_contents_same_entries(a, b);
    assert(is_ranking(a, order, rb));
    lemma_ranking_is_unique(a, order, ra, rb);
}

/// Whether entry `a` comes before entry `b` in `order`.
fn precedes(agg: &Aggregate, order: SortOrder, a: usize, b: usize) -> (r: bool)
    requires
        agg.wf(),
        a < agg.names().len(),
        b < agg.names().len(),
    ensures
        r == row_before(order, entry_of(agg, a as int), entry_of(agg, b as int)),
{
    let ra = agg.record(a);
    let rb = agg.record(b);
    let by_name = match compare_bytes(agg.name(a).as_str().as_bytes(), agg.name(b).as_str().as_bytes()) {
        core::cmp::Ordering::Less => true,
        _ => false,
    };
    match order {
        SortOrder::Lines => ra.total_lines > rb.total_lines || (ra.total_lines == rb.total_lines && (
        ra.copies > rb.copies || (ra.copies == rb.copies && by_name))),
        SortOrder::Copies => ra.copies > rb.copies || (ra.copies == rb.copies && (ra.total_lines
            > rb.total_lines || (ra.total_lines == rb.total_lines && by_name))),
        SortOrder::Name => by_name,
    }
}

/// The entries of `agg` listed in `order`, as indices into its names.
pub fn rank(agg: &Aggregate, order: SortOrder) -> (r: Vec<usize>)
    requires
        agg.wf(),
    ensures
        is_ranking(agg, order, r@),
        sum_of(lines_at(agg, r@)) == agg.spec_total_lines(),
        sum_of(copies_at(agg, r@)) == agg.spec_total_copies(),
{
    let n = agg.len();
    let mut r: Vec<usize> = Vec::new();
    let mut i: usize = 0;
    proof {
        lemma_ascending_no_duplicates(agg.names());
    }
    assert(lines_at(agg, r@) =~= lines_of(agg.records().subrange(0, 0)));
    assert(copies_at(agg, r@) =~= copies_of(agg.records().subrange(0, 0)));
    while i < n
        invariant
            agg.wf(),
            agg.names().no_duplicates(),
            n == agg.names().len(),
            i <= n,
            r@.len() == i,
            r@.no_duplicates(),
            forall|k: usize| r@.contains(k) <==> k < i,
            forall|x: int| 0 <= x < r@.len() ==> #[trigger] r@[x] < i,
            forall|x: int, y: int|
                0 <= x < y < r@.len() ==> row_before(
                    order,
                    entry_of(agg, #[trigger] r@[x] as int),
                    entry_of(agg, #[trigger] r@[y] as int),
                ),
            sum_of(lines_at(agg, r@)) == sum_of(lines_of(agg.records().subrange(0, i as int))),
            sum_of(copies_at(agg, r@)) == sum_of(copies_of(agg.records().subrange(0, i as int))),
        decreases n - i,
    {
        let mut lo: usize = 0;
        let mut hi: usize = r.len();
        while lo < hi
            invariant
                agg.wf(),
                agg.names().no_duplicates(),
                n == agg.names().len(),
                i < n,
                r@.len() == i,
                lo <= hi <= r@.len(),
                forall|x: int| 0 <= x < r@.len() ==> #[trigger] r@[x] < i,
                forall|x: int, y: int|
                    0 <= x < y < r@.len() ==> row_before(
                        order,
                        entry_of(agg, #[trigger] r@[x] as int),
                        entry_of(agg, #[trigger] r@[y] as int),
                    ),
                forall|x: int| 0 <= x < lo ==> row_before(order, entry_of(agg, #[trigger] r@[x] as int), entry_of(agg, i as int)),
                forall|x: int| hi <= x < r@.len() ==> row_before(order, entry_of(agg, i as int), entry_of(agg, #[trigger] r@[x] as int)),
            decreases hi - lo,
        {
            let mid = lo + (hi - lo) / 2;
            let m = r[mid];
            if precedes(agg, order, m, i) {
                assert forall|x: int| 0 <= x < mid + 1 implies row_before(order, entry_of(agg, #[trigger] r@[x] as int), entry_of(agg, i as int)) by {
                    lemma_row_order_is_total(order, entry_of(agg, r@[x] as int), entry_of(agg, m as int), entry_of(agg, i as int));
                }
                lo = mid + 1;
            } else {
                proof {
                    lemma_row_order_is_total(order, entry_of(agg, i as int), entry_of(agg, m as int), entry_of(agg, m as int));
                }
                assert forall|x: int| mid <= x < r@.len() implies row_before(order, entry_of(agg, i as int), entry_of(agg, #[trigger] r@[x] as int)) by {
                    lemma_row_order_is_total(order, entry_of(agg, i as int), entry_of(agg, m as int), entry_of(agg, r@[x] as int));
                }
                hi = mid;
            }
        }
        let ghost old_r = r@;
        r.insert(lo, i);
        proof {
            old_r.insert_ensures(lo as int, i);
            assert forall|x: int, y: int| 0 <= x < y < r@.len() implies row_before(
                order,
                entry_of(agg, #[trigger] r@[x] as int),
                entry_of(agg, #[trigger] r@[y] as int),
            ) by {
                if y < lo {
                } else if x < lo && y == lo {
                } else if x < lo && y > lo {
                    assert(r@[y] == old_r[y - 1]);
                } else if x == lo {
                    assert(r@[y] == old_r[y - 1]);
                } else {
                    assert(r@[x] == old_r[x - 1]);
                    assert(r@[y] == old_r[y - 1]);
                }
            }
            assert forall|k: usize| r@.contains(k) <==> k < i + 1 by {
                if r@.contains(k) {
                    let x = choose|x: int| 0 <= x < r@.len() && r@[x] == k;
                    if x < lo {
                    } else if x > lo {
                        assert(r@[x] == old_r[x - 1]);
                    }
                }
                if k < i {
                    assert(old_r.contains(k));
                    let x = choose|x: int| 0 <= x < old_r.len() && old_r[x] == k;
                    if x < lo {
                        assert(r@[x] == k);
                    } else {
                        assert(r@[x + 1] == k);
                    }
                } else if k == i {
                    assert(r@[lo as int] == k);
                }
            }
            assert forall|x: int, y: int| 0 <= x < r@.len() && 0 <= y < r@.len() && x != y implies r@[x] != r@[y] by {
                if x != lo && y != lo {
                    let x0 = if x < lo { x } else { x - 1 };
                    let y0 = if y < lo { y } else { y - 1 };
                    assert(r@[x] == old_r[x0]);
                    assert(r@[y] == old_r[y0]);
                } else if x == lo {
                    let y0 = if y < lo { y } else { y - 1 };
                    assert(r@[y] == old_r[y0]);
                } else {
                    let x0 = if x < lo { x } else { x - 1 };
                    assert(r@[x] == old_r[x0]);
                }
            }
            let rec = agg.records()[i as int];
            assert(lines_at(agg, r@) =~= lines_at(agg, old_r).insert(lo as int, rec.total_lines as nat));
            assert(copies_at(agg, r@) =~= copies_at(agg, old_r).insert(lo as int, rec.copies as nat));
            lemma_sum_insert(lines_at(agg, old_r), lo as int, rec.total_lines as nat);
            lemma_sum_insert(copies_at(agg, old_r), lo as int, rec.copies as nat);
            let s = agg.records().subrange(0, i as int);
            let s1 = agg.records().subrange(0, i + 1);
            assert(lines_of(s1).drop_last() =~= lines_of(s));
            assert(copies_of(s1).drop_last() =~= copies_of(s));
        }
        i = i + 1;
    }
    assert(agg.records().subrange(0, n as int) =~= agg.records());
    r
}

/// Whether a row named `name` is shown under `filter`.
pub open spec fn keeps(filter: Option<&NameFilter>, name: Seq<char>) -> bool {
    match filter {
        None => true,
        Some(f) => pattern_matches(f@, name),
    }
}

/// For each entry of `agg`, whether `filter` shows it.
pub open spec fn filter_flags(agg: &Aggregate, filter: Option<&NameFilter>) -> Seq<bool> {
    Seq::new(agg.names().len(), |k: int| keeps(filter, agg.names()[k]))
}

/// The entries of `ranking` whose flag in `keep` is set, in order.
pub open spec fn shown(ranking: Seq<usize>, keep: Seq<bool>) -> Seq<usize>
    decreases ranking.len(),
{
    if ranking.len() == 0 {
        seq![]
    } else {
        let prev = shown(ranking.drop_last(), keep);
        if keep[ranking.last() as int] {
            prev.push(ranking.last())
        } else {
            prev
        }
    }
}

/// One shown row of the report.
pub struct ReportRow {
    pub name: String,
    pub lines: usize,
    /// Lines of this row and of the shown rows above it.
    pub lines_cumulative: usize,
    pub copies: usize,
    /// Copies of this row and of the shown rows above it.
    pub copies_cumulative: usize,
}

/// The report: grand totals over all entries, the widths of the numeric
/// columns, and the shown rows in order.
pub struct Report {
    pub total_lines: usize,
    pub total_copies: usize,
    /// Decimal digits of `total_lines`.
    pub lines_width: usize,
    /// Decimal digits of `total_copies`.
    pub copies_width: usize,
    pub rows: Vec<ReportRow>,
}

/// `row` shows the `i`-th of the entries listed in `ks`.
pub open spec fn row_shows(row: ReportRow, agg: &Aggregate, ks: Seq<usize>, i: int) -> bool {
    let k = ks[i] as int;
    &&& row.name@ == agg.names()[k]
    &&& row.lines == agg.records()[k].total_lines
    &&& row.copies == agg.records()[k].copies
    &&& row.lines_cumulative == sum_of(lines_at(agg, ks.subrange(0, i + 1)))
    &&& row.copies_cumulative == sum_of(copies_at(agg, ks.subrange(0, i + 1)))
}

/// `rows` show, in order, exactly the entries listed in `ks`.
pub open spec fn rows_show(rows: Seq<ReportRow>, agg: &Aggregate, ks: Seq<usize>) -> bool {
    &&& rows.len() == ks.len()
    &&& forall|i: int| 0 <= i < rows.len() ==> row_shows(#[trigger] rows[i], agg, ks, i)
}

/// `r` is the report of `agg` in `order` that shows the entries whose flag
/// in `keep` is set.
pub open spec fn is_report_of(r: Report, agg: &Aggregate, order: SortOrder, keep: Seq<bool>) -> bool {
    &&& r.total_lines == agg.spec_total_lines()
    &&& r.total_copies == agg.spec_total_copies()
    &&& r.lines_width == decimal_len(r.total_lines as nat)
    &&& r.copies_width == decimal_len(r.total_copies as nat)
    &&& exists|ranking: Seq<usize>|
        is_ranking(agg, order, ranking) && rows_show(r.rows@, agg, shown(ranking, keep))
}

/// When every entry is shown, the rows add up to the grand totals, and so
/// does the running total of the last row.
pub open spec fn sums_to_totals(r: Report, n: nat) -> bool {
    &&& r.rows@.len() == n
    &&& sum_of(r.rows@.map_values(|row: ReportRow| row.lines as nat)) == r.total_lines
    &&& sum_of(r.rows@.map_values(|row: ReportRow| row.copies as nat)) == r.total_copies
    &&& r.rows@.len() > 0 ==> r.rows@.last().lines_cumulative == r.total_lines
        && r.rows@.last().copies_cumulative == r.total_copies
}

proof fn lemma_shown_sum_le(agg: &Aggregate, ks: Seq<usize>, keep: Seq<bool>)
    ensures
        sum_of(lines_at(agg, shown(ks, keep))) <= sum_of(lines_at(agg, ks)),
        sum_of(copies_at(agg, shown(ks, keep))) <= sum_of(copies_at(agg, ks)),
    decreases ks.len(),
{
    if ks.len() > 0 {
        let prev = shown(ks.drop_last(), keep);
        lemma_shown_sum_le(agg, ks.drop_last(), keep);
        assert(lines_at(agg, ks).drop_last() =~= lines_at(agg, ks.drop_last()));
        assert(copies_at(agg, ks).drop_last() =~= copies_at(agg, ks.drop_last()));
        assert(lines_at(agg, prev.push(ks.last())).drop_last() =~= lines_at(agg, prev));
        assert(copies_at(agg, prev.push(ks.last())).drop_last() =~= copies_at(agg, prev));
    }
}

proof fn lemma_shown_all(ks: Seq<usize>, keep: Seq<bool>)
    requires
        forall|i: int| 0 <= i < ks.len() ==> keep[#[trigger] ks[i] as int],
    ensures
        shown(ks, keep) == ks,
    decreases ks.len(),
{
    if ks.len() > 0 {
        lemma_shown_all(ks.drop_last(), keep);
        assert(ks.drop_last().push(ks.last()) =~= ks);
    }
}

proof fn lemma_prefix_sum_le(s: Seq<nat>, t: int)
    requires
        0 <= t <= s.len(),
    ensures
        sum_of(s.subrange(0, t)) <= sum_of(s),
{
    assert(s =~= s.subrange(0, t) + s.subrange(t, s.len() as int));
    lemma_sum_concat(s.subrange(0, t), s.subrange(t, s.len() as int));
}

/// The report of `agg` in `order`, showing the entries whose flag in `keep`
/// is set (`keep` is indexed like the names, in ascending order).
pub fn tabulate(agg: &Aggregate, order: SortOrder, keep: &Vec<bool>) -> (r: Report)
    requires
        agg.wf(),
        keep@.len() == agg.names().len(),
    ensures
        is_report_of(r, agg, order, keep@),
        (forall|k: int| 0 <= k < keep@.len() ==> #[trigger] keep@[k]) ==> sums_to_totals(
            r,
            agg.names().len(),
        ),
{
    let ranking = rank(agg, order);
    let n = ranking.len();
    let total_lines = agg.total_lines();
    let total_copies = agg.total_copies();
    let mut rows: Vec<ReportRow> = Vec::new();
    let mut lines_cumulative: usize = 0;
    let mut copies_cumulative: usize = 0;
    let mut t: usize = 0;
    assert(ranking@.subrange(0, 0) =~= Seq::<usize>::empty());
    assert(lines_at(agg, Seq::<usize>::empty()) =~= Seq::<nat>::empty());
    assert(copies_at(agg, Seq::<usize>::empty()) =~= Seq::<nat>::empty());
    while t < n
        invariant
            agg.wf(),
            keep@.len() == agg.names().len(),
            is_ranking(agg, order, ranking@),
            n == ranking@.len(),
            t <= n,
            total_lines == agg.spec_total_lines(),
            total_copies == agg.spec_total_copies(),
            sum_of(lines_at(agg, ranking@)) == total_lines,
            sum_of(copies_at(agg, ranking@)) == total_copies,
            rows_show(rows@, agg, shown(ranking@.subrange(0, t as int), keep@)),
            lines_cumulative == sum_of(lines_at(agg, shown(ranking@.subrange(0, t as int), keep@))),
            copies_cumulative == sum_of(copies_at(agg, shown(ranking@.subrange(0, t as int), keep@))),
        decreases n - t,
    {
        let k = ranking[t];
        let ghost pre = ranking@.subrange(0, t as int);
        let ghost cur = ranking@.subrange(0, t + 1);
        let ghost prev = shown(pre, keep@);
        assert(cur.drop_last() =~= pre);
        assert(cur.last() == k);
        if keep[k] {
            let rec = agg.record(k);
            proof {
                lemma_shown_sum_le(agg, cur, keep@);
                lemma_prefix_sum_le(lines_at(agg, ranking@), t + 1);
                lemma_prefix_sum_le(copies_at(agg, ranking@), t + 1);
                assert(lines_at(agg, ranking@).subrange(0, t + 1) =~= lines_at(agg, cur));
                assert(copies_at(agg, ranking@).subrange(0, t + 1) =~= copies_at(agg, cur));
                assert(lines_at(agg, prev.push(k)).drop_last() =~= lines_at(agg, prev));
                assert(copies_at(agg, prev.push(k)).drop_last() =~= copies_at(agg, prev));
            }
            lines_cumulative = lines_cumulative + rec.total_lines;
            copies_cumulative = copies_cumulative + rec.copies;
            let ghost old_rows = rows@;
            rows.push(
                ReportRow {
                    name: agg.name(k).clone(),
                    lines: rec.total_lines,
                    lines_cumulative,
                    copies: rec.copies,
                    copies_cumulative,
                },
            );
            proof {
                let ks = prev.push(k);
                assert(ks.subrange(0, ks.len() as int) =~= ks);
                assert forall|i: int| 0 <= i < rows@.len() implies row_shows(#[trigger] rows@[i], agg, ks, i) by {
                    if i < old_rows.len() {
                        assert(ks.subrange(0, i + 1) =~= prev.subrange(0, i + 1));
                        assert(row_shows(old_rows[i], agg, prev, i));
                    }
                }
            }
        }
        t = t + 1;
    }
    assert(ranking@.subrange(0, n as int) =~= ranking@);
    proof {
        if forall|k: int| 0 <= k < keep@.len() ==> #[trigger] keep@[k] {
            lemma_shown_all(ranking@, keep@);
            let ks = ranking@;
            assert(rows@.map_values(|row: ReportRow| row.lines as nat) =~= lines_at(agg, ks));
            assert(rows@.map_values(|row: ReportRow| row.copies as nat) =~= copies_at(agg, ks));
            if rows@.len() > 0 {
                assert(row_shows(rows@[rows@.len() - 1], agg, ks, rows@.len() - 1));
                assert(ks.subrange(0, ks.len() as int) =~= ks);
            }
        }
    }
    let lines_width = decimal_width(total_lines);
    let copies_width = decimal_width(total_copies);
    Report { total_lines, total_copies, lines_width, copies_width, rows }
}

/// The report is reproducible: two aggregates with the same contents, in the
/// same order and under the same filter, give the same totals, widths and
/// rows, row for row.
pub proof fn lemma_same_contents_same_report(
    a: &Aggregate,
    b: &Aggregate,
    order: SortOrder,
    filter: Option<&NameFilter>,
    ra: Report,
    rb: Report,
)
    requires
        a.wf(),
        b.wf(),
        a@ == b@,
        is_report_of(ra, a, order, filter_flags(a, filter)),
        is_report_of(rb, b, order, filter_flags(b, filter)),
    ensures
        ra.total_lines == rb.total_lines,
        ra.total_copies == rb.total_copies,
        ra.lines_width == rb.lines_width,
        ra.copies_width == rb.copies_width,
        ra.rows@.len() == rb.rows@.len(),
        forall|i: int|
            0 <= i < ra.rows@.len() ==> {
                &&& (#[trigger] ra.rows@[i]).name@ == rb.rows@[i].name@
                &&& ra.rows@[i].lines == rb.rows@[i].lines
                &&& ra.rows@[i].lines_cumulative == rb.rows@[i].lines_cumulative
                &&& ra.rows@[i].copies == rb.rows@[i].copies
                &&& ra.rows@[i].copies_cumulative == rb.rows@[i].copies_cumulative
            },
{
    lemma_same_contents_same_entries(a, b);
    let keep = filter_flags(a, filter);
    assert(filter_flags(b, filter) =~= keep);
    let ka = choose|ranking: Seq<usize>|
        is_ranking(a, order, ranking) && rows_show(ra.rows@, a, shown(ranking, keep));
    let kb = choose|ranking: Seq<usize>|
        is_ranking(b, order, ranking) && rows_show(rb.rows@, b, shown(ranking, keep));
    lemma_same_contents_same_ranking(a, b, order, ka, kb);
    let ks = shown(ka, keep);
    assert(lines_at(a, ks) =~= lines_at(b, ks));
    assert(copies_at(a, ks) =~= copies_at(b, ks));
    assert forall|i: int| 0 <= i < ra.rows@.len() implies {
        &&& (#[trigger] ra.rows@[i]).name@ == rb.rows@[i].name@
        &&& ra.rows@[i].lines == rb.rows@[i].lines
        &&& ra.rows@[i].lines_cumulative == rb.rows@[i].lines_cumulative
        &&& ra.rows@[i].copies == rb.rows@[i].copies
        &&& ra.rows@[i].copies_cumulative == rb.rows@[i].copies_cumulative
    } by {
        assert(row_shows(ra.rows@[i], a, ks, i));
        assert(row_shows(rb.rows@[i], b, ks, i));
        assert(lines_at(a, ks.subrange(0, i + 1)) =~= lines_at(b, ks.subrange(0, i + 1)));
        assert(copies_at(a, ks.subrange(0, i + 1)) =~= copies_at(b, ks.subrange(0, i + 1)));
    }
}

/// The report of `agg` in `order`, showing the rows whose names `filter`
/// accepts (all rows when there is no filter).
pub fn build_report(agg: &Aggregate, order: SortOrder, filter: Option<&NameFilter>) -> (r: Report)
    requires
        agg.wf(),
    ensures
        is_report_of(r, agg, order, filter_flags(agg, filter)),
        (forall|k: int| 0 <= k < agg.names().len() ==> keeps(filter, #[trigger] agg.names()[k]))
            ==> sums_to_totals(r, agg.names().len()),
{
    let n = agg.len();
    let mut keep: Vec<bool> = Vec::new();
    let mut k: usize = 0;
    while k < n
        invariant
            agg.wf(),
            n == agg.names().len(),
            k <= n,
            keep@ == filter_flags(agg, filter).subrange(0, k as int),
        decreases n - k,
    {
        let shown = match filter {
            None => true,
            Some(f) => f.is_match(agg.name(k).as_str()),
        };
        keep.push(shown);
        assert(keep@ =~= filter_flags(agg, filter).subrange(0, k + 1));
        k = k + 1;
    }
    assert(keep@ =~= filter_flags(agg, filter));
    tabulate(agg, order, &keep)
}

} // verus!
