//! Offline re-aggregation: recorded summaries are bucketed under every
//! ancestor prefix up to a depth, then ranked and cut to a limit.
use vstd::prelude::*;

use crate::directory_stat::{merge_totals, DirectoryStat};
use crate::path::{
    clone_path, has_prefix, lemma_path_lt_strict_total, path_less, path_lt,
    path_order, path_slice, path_view, paths_equal, starts_with,
};
use crate::state::{group_keys, group_of, no_duplicates, sum_file_counts, Group};

verus! {

/// How rollup rows are ranked.
#[derive(Clone, Copy, Debug, PartialEq, Eq, Structural)]
pub enum SortType {
    /// By path, in component order.
    Name,
    /// By file count, largest first.
    Files,
    /// By total size, largest first.
    Size,
}

/// The groups that a sequence of summaries stands for.
pub open spec fn stats_view(v: Seq<DirectoryStat>) -> Seq<Group> {
    v.map_values(|s: DirectoryStat| group_of(s))
}

/// The sum of the total sizes of `gs`.
pub open spec fn sum_total_sizes(gs: Seq<Group>) -> nat
    decreases gs.len(),
{
    if gs.len() == 0 {
        0
    } else {
        sum_total_sizes(gs.drop_last()) + gs.last().totals.total_size
    }
}

/// The ancestor chain of a relative path: its first component, its first two,
/// and so on up to `depth` components or all of them.
pub open spec fn ancestors(rel: Seq<Seq<char>>, depth: nat) -> Seq<Seq<Seq<char>>> {
    let n = if depth < rel.len() {
        depth as int
    } else {
        rel.len() as int
    };
    Seq::new(n as nat, |j: int| rel.take(j + 1))
}

/// What one recorded summary adds to the buckets: its totals, once under each
/// ancestor of its path relative to `prefix`, or nothing when its path lies
/// outside `prefix`.
pub open spec fn contributions(g: Group, prefix: Seq<Seq<char>>, depth: nat) -> Seq<Group> {
    if has_prefix(g.key, prefix) {
        ancestors(g.key.subrange(prefix.len() as int, g.key.len() as int), depth).map_values(
            |a: Seq<Seq<char>>| Group { key: a, totals: g.totals },
        )
    } else {
        seq![]
    }
}

/// Adds `g` to the bucket with its key, or appends a new bucket for it.
pub open spec fn bucket_insert(bs: Seq<Group>, g: Group) -> Seq<Group> {
    if exists|i: int| 0 <= i < bs.len() && #[trigger] bs[i].key == g.key {
        let i = choose|i: int| 0 <= i < bs.len() && #[trigger] bs[i].key == g.key;
        bs.update(i, Group { key: g.key, totals: merge_totals(bs[i].totals, g.totals) })
    } else {
        bs.push(g)
    }
}

pub open spec fn insert_all(bs: Seq<Group>, cs: Seq<Group>) -> Seq<Group>
    decreases cs.len(),
{
    if cs.len() == 0 {
        bs
    } else {
        bucket_insert(insert_all(bs, cs.drop_last()), cs.last())
    }
}

/// The buckets of `stats`, in the order in which their keys first appear.
pub open spec fn buckets(stats: Seq<Group>, prefix: Seq<Seq<char>>, depth: nat) -> Seq<Group>
    decreases stats.len(),
{
    if stats.len() == 0 {
        seq![]
    } else {
        insert_all(buckets(stats.drop_last(), prefix, depth), contributions(stats.last(), prefix, depth))
    }
}

/// Row `a` ranks strictly ahead of row `b` by the sort key alone.
pub open spec fn key_before(a: Group, b: Group, mode: SortType) -> bool {
    match mode {
        SortType::Name => path_lt(a.key, b.key),
        SortType::Files => a.totals.file_count > b.totals.file_count,
        SortType::Size => a.totals.total_size > b.totals.total_size,
    }
}

/// Rows `a` and `b` tie on the sort key.
pub open spec fn key_tie(a: Group, b: Group, mode: SortType) -> bool {
    match mode {
        SortType::Name => a.key == b.key,
        SortType::Files => a.totals.file_count == b.totals.file_count,
        SortType::Size => a.totals.total_size == b.totals.total_size,
    }
}

/// Row `i` comes before row `j`: ahead by the sort key, or tied and earlier.
pub open spec fn row_before(rows: Seq<Group>, mode: SortType, i: int, j: int) -> bool {
    key_before(rows[i], rows[j], mode) || (key_tie(rows[i], rows[j], mode) && i < j)
}

/// `order` lists every row position once, ranked by the sort key, ties kept
/// in their input order.
pub open spec fn is_sorted_order(rows: Seq<Group>, mode: SortType, order: Seq<usize>) -> bool {
    &&& order.len() == rows.len()
    &&& forall|k: int| 0 <= k < order.len() ==> #[trigger] order[k] < rows.len()
    &&& forall|k: int, l: int|
        0 <= k < l < order.len() ==> row_before(rows, mode, #[trigger] order[k] as int, #[trigger] order[l] as int)
}

/// The number of rows left of `n` by a limit.
pub open spec fn limited(n: nat, limit: Option<usize>) -> nat {
    match limit {
        Some(l) => if l < n {
            l as nat
        } else {
            n
        },
        None => n,
    }
}

/// The row order is a strict total order on row positions.
proof fn lemma_row_order(rows: Seq<Group>, mode: SortType)
    ensures
        forall|i: int, j: int, k: int|
            0 <= i < rows.len() && 0 <= j < rows.len() && 0 <= k < rows.len() && #[trigger] row_before(
                rows,
                mode,
                i,
                j,
            ) && #[trigger] row_before(rows, mode, j, k) ==> row_before(rows, mode, i, k),
        forall|i: int, j: int|
            0 <= i < rows.len() && 0 <= j < rows.len() && i != j ==> #[trigger] row_before(rows, mode, i, j)
                || #[trigger] row_before(rows, mode, j, i),
        forall|i: int| 0 <= i < rows.len() ==> !#[trigger] row_before(rows, mode, i, i),
{
    if mode == SortType::Name {
        lemma_path_lt_strict_total();
        let po = path_order();
        assert forall|i: int, j: int, k: int|
            0 <= i < rows.len() && 0 <= j < rows.len() && 0 <= k < rows.len() && #[trigger] row_before(
                rows,
                mode,
                i,
                j,
            ) && #[trigger] row_before(rows, mode, j, k) implies row_before(rows, mode, i, k) by {
            assert(path_lt(rows[i].key, rows[j].key) == po(rows[i].key, rows[j].key));
            assert(path_lt(rows[j].key, rows[k].key) == po(rows[j].key, rows[k].key));
            assert(path_lt(rows[i].key, rows[k].key) == po(rows[i].key, rows[k].key));
        }
        assert forall|i: int, j: int|
            0 <= i < rows.len() && 0 <= j < rows.len() && i != j implies #[trigger] row_before(rows, mode, i, j)
                || #[trigger] row_before(rows, mode, j, i) by {
            assert(path_lt(rows[i].key, rows[j].key) == po(rows[i].key, rows[j].key));
            assert(path_lt(rows[j].key, rows[i].key) == po(rows[j].key, rows[i].key));
        }
        assert forall|i: int| 0 <= i < rows.len() implies !#[trigger] row_before(rows, mode, i, i) by {
            assert(path_lt(rows[i].key, rows[i].key) == po(rows[i].key, rows[i].key));
        }
    }
}

/// Whether row `i` comes before row `j`.
fn row_comes_before(rows: &Vec<DirectoryStat>, mode: SortType, i: usize, j: usize) -> (r: bool)
    requires
        i < rows@.len(),
        j < rows@.len(),
    ensures
        r == row_before(stats_view(rows@), mode, i as int, j as int),
{
    let a = &rows[i];
    let b = &rows[j];
    match mode {
        SortType::Name => {
            path_less(&a.path, &b.path) || (paths_equal(&a.path, &b.path) && i < j)
        },
        SortType::Files => a.file_count > b.file_count || (a.file_count == b.file_count && i < j),
        SortType::Size => a.total_size > b.total_size || (a.total_size == b.total_size && i < j),
    }
}

/// The positions of `rows` in ranked order: by the sort key, ties in their
/// input order (a stable sort).
pub fn sorted_order(rows: &Vec<DirectoryStat>, mode: SortType) -> (r: Vec<usize>)
    ensures
        is_sorted_order(stats_view(rows@), mode, r@),
{
    let ghost rv = stats_view(rows@);
    proof {
        lemma_row_order(rv, mode);
    }
    let mut order: Vec<usize> = Vec::new();
    let mut i: usize = 0;
    while i < rows.len()
        invariant
            i <= rows@.len(),
            rv == stats_view(rows@),
            order@.len() == i,
            forall|k: int| 0 <= k < order@.len() ==> #[trigger] order@[k] < i,
            forall|k: int, l: int|
                0 <= k < l < order@.len() ==> row_before(rv, mode, #[trigger] order@[k] as int, #[trigger] order@[l] as int),
            forall|i: int, j: int, k: int|
                0 <= i < rv.len() && 0 <= j < rv.len() && 0 <= k < rv.len() && #[trigger] row_before(
                    rv,
                    mode,
                    i,
                    j,
                ) && #[trigger] row_before(rv, mode, j, k) ==> row_before(rv, mode, i, k),
            forall|i: int, j: int|
                0 <= i < rv.len() && 0 <= j < rv.len() && i != j ==> #[trigger] row_before(rv, mode, i, j)
                    || #[trigger] row_before(rv, mode, j, i),
        decreases rows@.len() - i,
    {
        let mut p: usize = 0;
        while p < order.len() && !row_comes_before(rows, mode, i, order[p])
            invariant
                i < rows@.len(),
                rv == stats_view(rows@),
                p <= order@.len(),
                order@.len() == i,
                forall|k: int| 0 <= k < order@.len() ==> #[trigger] order@[k] < i,
                forall|k: int| 0 <= k < p ==> row_before(rv, mode, #[trigger] order@[k] as int, i as int),
                forall|i: int, j: int|
                    0 <= i < rv.len() && 0 <= j < rv.len() && i != j ==> #[trigger] row_before(rv, mode, i, j)
                        || #[trigger] row_before(rv, mode, j, i),
            decreases order@.len() - p,
        {
            p += 1;
        }
        let ghost old_order = order@;
        order.insert(p, i);
        proof {
            assert(order@ == old_order.insert(p as int, i));
            assert forall|k: int, l: int| 0 <= k < l < order@.len() implies row_before(
                rv,
                mode,
                #[trigger] order@[k] as int,
                #[trigger] order@[l] as int,
            ) by {
                if l == p {
                    assert(order@[k] == old_order[k]);
                } else if k == p {
                    assert(order@[l] == old_order[l - 1]);
                    if l - 1 > p {
                        assert(row_before(rv, mode, old_order[p as int] as int, old_order[l - 1] as int));
                    }
                } else if l < p {
                    assert(order@[k] == old_order[k] && order@[l] == old_order[l]);
                } else if k < p {
                    assert(order@[k] == old_order[k] && order@[l] == old_order[l - 1]);
                } else {
                    assert(order@[k] == old_order[k - 1] && order@[l] == old_order[l - 1]);
                }
            }
        }
        i += 1;
    }
    order
}

/// The position of the bucket keyed `key`, if there is one.
fn find_bucket(bs: &Vec<DirectoryStat>, key: &Vec<String>) -> (r: Option<usize>)
    ensures
        match r {
            Some(i) => i < bs@.len() && stats_view(bs@)[i as int].key == path_view(key@),
            None => forall|i: int|
                0 <= i < bs@.len() ==> #[trigger] stats_view(bs@)[i].key != path_view(key@),
        },
{
    let mut i: usize = 0;
    while i < bs.len()
        invariant
            i <= bs@.len(),
            forall|j: int| 0 <= j < i ==> #[trigger] stats_view(bs@)[j].key != path_view(key@),
        decreases bs@.len() - i,
    {
        if paths_equal(&bs[i].path, key) {
            return Some(i);
        }
        i += 1;
    }
    None
}

proof fn lemma_sums_prefix(gs: Seq<Group>, i: int)
    requires
        0 <= i < gs.len(),
    ensures
        sum_file_counts(gs.take(i + 1)) == sum_file_counts(gs.take(i)) + gs[i].totals.file_count,
        sum_total_sizes(gs.take(i + 1)) == sum_total_sizes(gs.take(i)) + gs[i].totals.total_size,
        sum_file_counts(gs.take(i + 1)) <= sum_file_counts(gs),
        sum_total_sizes(gs.take(i + 1)) <= sum_total_sizes(gs),
    decreases gs.len(),
{
    assert(gs.take(i + 1).drop_last() =~= gs.take(i));
    if i + 1 < gs.len() {
        lemma_sums_prefix(gs.drop_last(), i);
        assert(gs.drop_last().take(i + 1) =~= gs.take(i + 1));
        assert(gs.drop_last().take(i) =~= gs.take(i));
    } else {
        assert(gs.take(i + 1) =~= gs);
    }
}

/// Every key among the buckets is unique.
pub open spec fn keys_unique(bs: Seq<Group>) -> bool {
    no_duplicates(group_keys(bs))
}

/// Buckets every summary under `prefix` by each ancestor of its relative path
/// up to `depth` components; the buckets stand in the order in which their
/// keys first appear.
pub fn bucket_stats(stats: &Vec<DirectoryStat>, prefix: &Vec<String>, depth: usize) -> (r: Vec<
    DirectoryStat,
>)
    requires
        sum_file_counts(stats_view(stats@)) <= u64::MAX,
        sum_total_sizes(stats_view(stats@)) <= u64::MAX,
    ensures
        stats_view(r@) == buckets(stats_view(stats@), path_view(prefix@), depth as nat),
        keys_unique(stats_view(r@)),
{
    let ghost sv = stats_view(stats@);
    let ghost pv = path_view(prefix@);
    let mut bs: Vec<DirectoryStat> = Vec::new();
    let mut i: usize = 0;
    assert(sv.take(0) =~= Seq::<Group>::empty());
    assert(stats_view(bs@) =~= Seq::<Group>::empty());
    while i < stats.len()
        invariant
            i <= stats@.len(),
            sv == stats_view(stats@),
            pv == path_view(prefix@),
            sum_file_counts(sv) <= u64::MAX,
            sum_total_sizes(sv) <= u64::MAX,
            stats_view(bs@) == buckets(sv.take(i as int), pv, depth as nat),
            keys_unique(stats_view(bs@)),
            forall|b: int|
                0 <= b < bs@.len() ==> #[trigger] bs@[b].file_count <= sum_file_counts(sv.take(i as int))
                    && bs@[b].total_size <= sum_total_sizes(sv.take(i as int)),
        decreases stats@.len() - i,
    {
        let stat = &stats[i];
        let ghost g = sv[i as int];
        let ghost base = stats_view(bs@);
        let ghost cs = contributions(g, pv, depth as nat);
        proof {
            lemma_sums_prefix(sv, i as int);
            assert(sv.take(i + 1).drop_last() =~= sv.take(i as int));
            assert(sv.take(i + 1).last() == g);
            assert(buckets(sv.take(i + 1), pv, depth as nat) == insert_all(base, cs));
            assert(cs.take(0) =~= Seq::<Group>::empty());
        }
        if starts_with(&stat.path, prefix) {
            let rel = path_slice(&stat.path, prefix.len(), stat.path.len());
            let ghost relv = path_view(rel@);
            let n: usize = if depth < rel.len() {
                depth
            } else {
                rel.len()
            };
            assert(cs.len() == n);
            let mut j: usize = 0;
            while j < n
                invariant
                    i < stats@.len(),
                    stat == &stats@[i as int],
                    g == group_of(*stat),
                    n <= rel@.len(),
                    relv == path_view(rel@),
                    cs.len() == n,
                    forall|q: int| 0 <= q < n ==> #[trigger] cs[q] == (Group { key: relv.take(q + 1), totals: g.totals }),
                    j <= n,
                    stats_view(bs@) == insert_all(base, cs.take(j as int)),
                    keys_unique(stats_view(bs@)),
                    sum_file_counts(sv.take(i as int)) + g.totals.file_count <= u64::MAX,
                    sum_total_sizes(sv.take(i as int)) + g.totals.total_size <= u64::MAX,
                    forall|b: int|
                        0 <= b < bs@.len() ==> #[trigger] bs@[b].file_count <= sum_file_counts(sv.take(i as int))
                            + g.totals.file_count && bs@[b].total_size <= sum_total_sizes(sv.take(i as int))
                            + g.totals.total_size,
                    forall|b: int|
                        0 <= b < bs@.len() ==> {
                            let k = #[trigger] path_view(bs@[b].path@);
                            (1 <= k.len() <= j && k == relv.take(k.len() as int)) || (
                            bs@[b].file_count <= sum_file_counts(sv.take(i as int))
                                && bs@[b].total_size <= sum_total_sizes(sv.take(i as int)))
                        },
                decreases n - j,
            {
                let key = path_slice(&rel, 0, j + 1);
                let ghost before = stats_view(bs@);
                proof {
                    assert(cs.take(j + 1).drop_last() =~= cs.take(j as int));
                    assert(cs.take(j + 1).last() == cs[j as int]);
                    assert(path_view(key@) =~= relv.take(j + 1));
                }
                match find_bucket(&bs, &key) {
                    Some(b) => {
                        proof {
                            let c = choose|c: int| 0 <= c < before.len() && #[trigger] before[c].key == cs[j as int].key;
                            if c != b {
                                if c < b {
                                    assert(group_keys(before)[c] == group_keys(before)[b as int]);
                                } else {
                                    assert(group_keys(before)[b as int] == group_keys(before)[c]);
                                }
                            }
                        }
                        bs[b].merge(stat);
                        proof {
                            assert(stats_view(bs@) =~= bucket_insert(before, cs[j as int]));
                            assert(group_keys(stats_view(bs@)) =~= group_keys(before));
                        }
                    },
                    None => {
                        let fresh = stat.relabeled(key);
                        bs.push(fresh);
                        proof {
                            assert(stats_view(bs@) =~= bucket_insert(before, cs[j as int]));
                            assert(group_keys(stats_view(bs@)) =~= group_keys(before).push(relv.take(j + 1)));
                        }
                    },
                }
                j += 1;
            }
            assert(cs.take(n as int) =~= cs);
        } else {
            assert(cs =~= Seq::<Group>::empty());
        }
        assert forall|b: int| 0 <= b < bs@.len() implies #[trigger] bs@[b].file_count <= sum_file_counts(
            sv.take(i + 1),
        ) && bs@[b].total_size <= sum_total_sizes(sv.take(i + 1)) by {
            assert(bs@[b].file_count <= sum_file_counts(sv.take(i as int)) + g.totals.file_count);
            assert(bs@[b].total_size <= sum_total_sizes(sv.take(i as int)) + g.totals.total_size);
            assert(sum_file_counts(sv.take(i + 1)) == sum_file_counts(sv.take(i as int)) + g.totals.file_count);
            assert(sum_total_sizes(sv.take(i + 1)) == sum_total_sizes(sv.take(i as int)) + g.totals.total_size);
        }
        i += 1;
    }
    assert(sv.take(stats@.len() as int) =~= sv);
    bs
}

/// Re-aggregates recorded summaries: those under `prefix` are bucketed by
/// each ancestor of their relative path up to `depth` components, the buckets
/// are ranked by `sort` (ties in first-seen order), and the first `limit` of
/// them are kept. Each row's path is its key relative to `prefix`.
pub fn rollup(
    stats: &Vec<DirectoryStat>,
    prefix: &Vec<String>,
    depth: usize,
    sort: SortType,
    limit: Option<usize>,
) -> (r: Vec<DirectoryStat>)
    requires
        sum_file_counts(stats_view(stats@)) <= u64::MAX,
        sum_total_sizes(stats_view(stats@)) <= u64::MAX,
    ensures
        ({
            let bs = buckets(stats_view(stats@), path_view(prefix@), depth as nat);
            &&& r@.len() == limited(bs.len(), limit)
            &&& exists|order: Seq<usize>|
                is_sorted_order(bs, sort, order) && forall|k: int|
                    0 <= k < r@.len() ==> #[trigger] stats_view(r@)[k] == bs[order[k] as int]
        }),
{
    let bs = bucket_stats(stats, prefix, depth);
    let order = sorted_order(&bs, sort);
    let n: usize = match limit {
        Some(l) if l < bs.len() => l,
        _ => bs.len(),
    };
    let mut out: Vec<DirectoryStat> = Vec::new();
    let mut k: usize = 0;
    while k < n
        invariant
            n <= bs@.len(),
            is_sorted_order(stats_view(bs@), sort, order@),
            k <= n,
            out@.len() == k,
            forall|q: int| 0 <= q < k ==> #[trigger] stats_view(out@)[q] == stats_view(bs@)[order@[q] as int],
        decreases n - k,
    {
        let row = &bs[order[k]];
        let copy = row.relabeled(clone_path(&row.path));
        let ghost prev = out@;
        assert(group_of(copy) == stats_view(bs@)[order@[k as int] as int]);
        out.push(copy);
        k += 1;
        proof {
            assert(out@ == prev.push(copy));
            assert forall|q: int| 0 <= q < k implies #[trigger] stats_view(out@)[q] == stats_view(bs@)[order@[q] as int] by {
                if q < k - 1 {
                    assert(out@[q] == prev[q]);
                    assert(stats_view(prev)[q] == group_of(prev[q]));
                }
            }
        }
    }
    out
}

/// The sum of the file counts of the rows of `bs` whose key satisfies `p`.
pub open spec fn sum_counts_where(bs: Seq<Group>, p: spec_fn(Seq<Seq<char>>) -> bool) -> nat
    decreases bs.len(),
{
    if bs.len() == 0 {
        0
    } else {
        sum_counts_where(bs.drop_last(), p) + if p(bs.last().key) {
            bs.last().totals.file_count
        } else {
            0
        }
    }
}

pub open spec fn count_if(g: Group, p: spec_fn(Seq<Seq<char>>) -> bool) -> nat {
    if p(g.key) {
        g.totals.file_count
    } else {
        0
    }
}

proof fn lemma_sum_push(bs: Seq<Group>, g: Group, p: spec_fn(Seq<Seq<char>>) -> bool)
    ensures
        sum_counts_where(bs.push(g), p) == sum_counts_where(bs, p) + count_if(g, p),
{
    assert(bs.push(g).drop_last() =~= bs);
}

proof fn lemma_sum_update(bs: Seq<Group>, i: int, g: Group, p: spec_fn(Seq<Seq<char>>) -> bool)
    requires
        0 <= i < bs.len(),
    ensures
        sum_counts_where(bs.update(i, g), p) + count_if(bs[i], p) == sum_counts_where(bs, p) + count_if(g, p),
    decreases bs.len(),
{
    if i == bs.len() - 1 {
        assert(bs.update(i, g).drop_last() =~= bs.drop_last());
    } else {
        lemma_sum_update(bs.drop_last(), i, g, p);
        assert(bs.update(i, g).drop_last() =~= bs.drop_last().update(i, g));
    }
}

proof fn lemma_sum_insert_all(bs: Seq<Group>, cs: Seq<Group>, p: spec_fn(Seq<Seq<char>>) -> bool)
    ensures
        sum_counts_where(insert_all(bs, cs), p) == sum_counts_where(bs, p) + sum_counts_where(cs, p),
    decreases cs.len(),
{
    if cs.len() > 0 {
        lemma_sum_insert_all(bs, cs.drop_last(), p);
        let mid = insert_all(bs, cs.drop_last());
        let g = cs.last();
        if exists|i: int| 0 <= i < mid.len() && #[trigger] mid[i].key == g.key {
            let i = choose|i: int| 0 <= i < mid.len() && #[trigger] mid[i].key == g.key;
            let ng = Group { key: g.key, totals: merge_totals(mid[i].totals, g.totals) };
            lemma_sum_update(mid, i, ng, p);
        } else {
            lemma_sum_push(mid, g, p);
        }
    }
}

proof fn lemma_sum_single(cs: Seq<Group>, j0: int, p: spec_fn(Seq<Seq<char>>) -> bool)
    requires
        0 <= j0 < cs.len(),
        forall|j: int| 0 <= j < cs.len() && j != j0 ==> !p(#[trigger] cs[j].key),
    ensures
        sum_counts_where(cs, p) == count_if(cs[j0], p),
    decreases cs.len(),
{
    let pre = cs.drop_last();
    if j0 == cs.len() - 1 {
        assert forall|j: int| 0 <= j < pre.len() implies !p(#[trigger] pre[j].key) by {
            assert(pre[j] == cs[j]);
        }
        lemma_sum_none(pre, p);
    } else {
        assert forall|j: int| 0 <= j < pre.len() && j != j0 implies !p(#[trigger] pre[j].key) by {
            assert(pre[j] == cs[j]);
        }
        lemma_sum_single(pre, j0, p);
    }
}

proof fn lemma_sum_none(cs: Seq<Group>, p: spec_fn(Seq<Seq<char>>) -> bool)
    requires
        forall|j: int| 0 <= j < cs.len() ==> !p(#[trigger] cs[j].key),
    ensures
        sum_counts_where(cs, p) == 0,
    decreases cs.len(),
{
    if cs.len() > 0 {
        let pre = cs.drop_last();
        assert forall|j: int| 0 <= j < pre.len() implies !p(#[trigger] pre[j].key) by {
            assert(pre[j] == cs[j]);
        }
        lemma_sum_none(pre, p);
    }
}

/// Every recorded summary under `prefix` lies at least `depth` components
/// below it.
pub open spec fn deep_enough(stats: Seq<Group>, prefix: Seq<Seq<char>>, depth: nat) -> bool {
    forall|i: int|
        0 <= i < stats.len() && has_prefix(#[trigger] stats[i].key, prefix) ==> stats[i].key.len()
            >= prefix.len() + depth
}

/// The rows keyed by the single component `a`.
pub open spec fn top_row(a: Seq<char>) -> spec_fn(Seq<Seq<char>>) -> bool {
    |k: Seq<Seq<char>>| k == seq![a]
}

/// The rows `depth` components deep whose first component is `a`.
pub open spec fn deep_rows_under(a: Seq<char>, depth: nat) -> spec_fn(Seq<Seq<char>>) -> bool {
    |k: Seq<Seq<char>>| k.len() == depth && k[0] == a
}

/// Each summary counts under every ancestor of its path, so when every
/// summary lies at least `depth` components below `prefix`, the files of the
/// depth-one row `a` are exactly the files of the rows `depth` components deep
/// that begin with `a`.
pub proof fn lemma_rollup_levels(stats: Seq<Group>, prefix: Seq<Seq<char>>, depth: nat, a: Seq<char>)
    requires
        depth >= 1,
        deep_enough(stats, prefix, depth),
    ensures
        sum_counts_where(buckets(stats, prefix, depth), top_row(a)) == sum_counts_where(
            buckets(stats, prefix, depth),
            deep_rows_under(a, depth),
        ),
    decreases stats.len(),
{
    if stats.len() > 0 {
        let pre = stats.drop_last();
        assert forall|i: int| 0 <= i < pre.len() && has_prefix(#[trigger] pre[i].key, prefix) implies pre[i].key.len()
            >= prefix.len() + depth by {
            assert(pre[i] == stats[i]);
        }
        lemma_rollup_levels(pre, prefix, depth, a);
        let g = stats.last();
        let cs = contributions(g, prefix, depth);
        let base = buckets(pre, prefix, depth);
        lemma_sum_insert_all(base, cs, top_row(a));
        lemma_sum_insert_all(base, cs, deep_rows_under(a, depth));
        if has_prefix(g.key, prefix) {
            assert(stats[stats.len() - 1] == g);
            let rel = g.key.subrange(prefix.len() as int, g.key.len() as int);
            assert(rel.len() >= depth);
            assert(cs.len() == depth);
            assert forall|j: int| 0 <= j < cs.len() implies #[trigger] cs[j] == (Group { key: rel.take(j + 1), totals: g.totals }) by {}
            assert forall|j: int| 0 <= j < cs.len() && j != 0 implies !top_row(a)(#[trigger] cs[j].key) by {
                assert(cs[j].key.len() == j + 1);
            }
            lemma_sum_single(cs, 0, top_row(a));
            assert forall|j: int| 0 <= j < cs.len() && j != depth - 1 implies !deep_rows_under(a, depth)(#[trigger] cs[j].key) by {
                assert(cs[j].key.len() == j + 1);
            }
            lemma_sum_single(cs, depth - 1, deep_rows_under(a, depth));
            assert(cs[0].key =~= seq![rel[0]]);
            assert(cs[depth - 1].key[0] == rel[0]);
            if rel[0] == a {
                assert(top_row(a)(cs[0].key));
            } else {
                assert(cs[0].key[0] != a);
            }
        } else {
            assert(cs =~= Seq::<Group>::empty());
        }
    }
}

} // verus!
