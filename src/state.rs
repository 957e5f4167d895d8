//! The streaming grouper: folds an ordered stream of walk entries into one
//! summary per run of entries that share a group key.
use vstd::prelude::*;

use crate::directory_stat::{
    can_merge, file_totals, merge_totals, seed_totals, DirectoryStat, MetadataWithSize, StatTotals,
};
use crate::path::{is_equivalent_path, path_view, truncate_path, truncated};

verus! {

/// An open or emitted group: its key and what has been summed under it.
pub struct Group {
    pub key: Seq<Seq<char>>,
    pub totals: StatTotals,
}

/// One entry of the walk: the directory it is counted under, and its metadata.
pub type EntryView = (Seq<Seq<char>>, MetadataWithSize);

/// The group that a summary stands for.
pub open spec fn group_of(s: DirectoryStat) -> Group {
    Group { key: path_view(s.path@), totals: s.totals() }
}

pub open spec fn opt_group(s: Option<DirectoryStat>) -> Option<Group> {
    match s {
        None => None,
        Some(s) => Some(group_of(s)),
    }
}

pub open spec fn opt_seq(g: Option<Group>) -> Seq<Group> {
    match g {
        None => seq![],
        Some(g) => seq![g],
    }
}

/// One step of the grouper on an entry: the group left open, and the group
/// emitted, if the entry crossed a boundary.
pub open spec fn step(
    current: Option<Group>,
    path: Seq<Seq<char>>,
    m: MetadataWithSize,
    depth: Option<usize>,
) -> (Option<Group>, Option<Group>) {
    let key = truncated(path, depth);
    let fresh = Group { key, totals: seed_totals(m) };
    match current {
        None => (Some(fresh), None),
        Some(g) => if g.key == key {
            if m.is_dir {
                (Some(g), None)
            } else {
                (Some(Group { key: g.key, totals: merge_totals(g.totals, file_totals(m)) }), None)
            }
        } else {
            (Some(fresh), Some(g))
        },
    }
}

/// The step on `path` and `m` keeps every sum within `u64`.
pub open spec fn step_fits(current: Option<Group>, path: Seq<Seq<char>>, m: MetadataWithSize, depth: Option<usize>) -> bool {
    match current {
        Some(g) => g.key == truncated(path, depth) && !m.is_dir ==> can_merge(g.totals, file_totals(m)),
        None => true,
    }
}

/// The groups emitted so far, and the group left open, after the grouper has
/// consumed `entries` in order.
pub open spec fn run(entries: Seq<EntryView>, depth: Option<usize>) -> (Seq<Group>, Option<Group>)
    decreases entries.len(),
{
    if entries.len() == 0 {
        (seq![], None)
    } else {
        let (emitted, current) = run(entries.drop_last(), depth);
        let (next, out) = step(current, entries.last().0, entries.last().1, depth);
        (emitted + opt_seq(out), next)
    }
}

/// Everything the grouper emits for `entries`, the final flush included.
pub open spec fn grouped(entries: Seq<EntryView>, depth: Option<usize>) -> Seq<Group> {
    run(entries, depth).0 + opt_seq(run(entries, depth).1)
}

/// The group key of each entry.
pub open spec fn entry_keys(entries: Seq<EntryView>, depth: Option<usize>) -> Seq<Seq<Seq<char>>> {
    entries.map_values(|e: EntryView| truncated(e.0, depth))
}

/// `s` with each run of equal adjacent elements reduced to one element.
pub open spec fn compress<K>(s: Seq<K>) -> Seq<K>
    decreases s.len(),
{
    if s.len() == 0 {
        seq![]
    } else {
        let c = compress(s.drop_last());
        if c.len() > 0 && c.last() == s.last() {
            c
        } else {
            c.push(s.last())
        }
    }
}

pub open spec fn group_keys(gs: Seq<Group>) -> Seq<Seq<Seq<char>>> {
    gs.map_values(|g: Group| g.key)
}

/// The number of file entries (not directories) in `entries`.
pub open spec fn count_files(entries: Seq<EntryView>) -> nat
    decreases entries.len(),
{
    if entries.len() == 0 {
        0
    } else {
        count_files(entries.drop_last()) + if entries.last().1.is_dir {
            0nat
        } else {
            1nat
        }
    }
}

/// The sum of the file counts of `gs`.
pub open spec fn sum_file_counts(gs: Seq<Group>) -> nat
    decreases gs.len(),
{
    if gs.len() == 0 {
        0
    } else {
        sum_file_counts(gs.drop_last()) + gs.last().totals.file_count
    }
}

/// Entries that share a group key stand next to each other.
pub open spec fn contiguous<K>(s: Seq<K>) -> bool {
    forall|i: int, j: int, k: int|
        0 <= i < j < k < s.len() && #[trigger] s[i] == #[trigger] s[k] ==> #[trigger] s[j] == s[i]
}

pub open spec fn no_duplicates<K>(s: Seq<K>) -> bool {
    forall|i: int, j: int| 0 <= i < j < s.len() ==> #[trigger] s[i] != #[trigger] s[j]
}

/// Groups the entries of a depth-first walk into one summary per directory
/// (or per leading `depth` components of it), holding at most one group open.
pub struct WalkState {
    current: Option<DirectoryStat>,
    depth: Option<usize>,
}

impl WalkState {
    /// The group held open.
    pub closed spec fn open_group(&self) -> Option<Group> {
        opt_group(self.current)
    }

    pub closed spec fn group_depth(&self) -> Option<usize> {
        self.depth
    }

    /// A grouper with no group open.
    pub fn new(depth: Option<usize>) -> (r: WalkState)
        ensures
            r.wf(),
            r.open_group() == None::<Group>,
            r.group_depth() == depth,
    {
        WalkState { current: None, depth }
    }

    /// Whether consuming this entry keeps every sum within `u64`.
    pub fn can_add(&self, path: &Vec<String>, metadata: &MetadataWithSize) -> (r: bool)
        requires
            self.wf(),
        ensures
            r == step_fits(self.open_group(), path_view(path@), *metadata, self.group_depth()),
    {
        match &self.current {
            None => true,
            Some(stat) => {
                if metadata.is_dir || !self.same_key(&stat.path, path) {
                    true
                } else {
                    stat.file_count < u64::MAX && metadata.size <= u64::MAX - stat.total_size
                }
            },
        }
    }

    /// Whether `path` falls in the group keyed `key`.
    fn same_key(&self, key: &Vec<String>, path: &Vec<String>) -> (r: bool)
        requires
            truncated(path_view(key@), self.depth) == path_view(key@),
        ensures
            r == (path_view(key@) == truncated(path_view(path@), self.depth)),
    {
        is_equivalent_path(key, path, self.depth)
    }

    /// Consumes one entry. An entry under the open group's key adds to it
    /// (files only); an entry under another key emits the open group and
    /// opens a new one.
    pub fn add_path(&mut self, path: Vec<String>, metadata: &MetadataWithSize) -> (r: Option<
        DirectoryStat,
    >)
        requires
            old(self).wf(),
            step_fits(old(self).open_group(), path_view(path@), *metadata, old(self).group_depth()),
        ensures
            final(self).wf(),
            final(self).group_depth() == old(self).group_depth(),
            (final(self).open_group(), opt_group(r)) == step(
                old(self).open_group(),
                path_view(path@),
                *metadata,
                old(self).group_depth(),
            ),
    {
        let depth = self.depth;
        match self.current.take() {
            None => {
                let key = truncate_path(&path, depth);
                self.current = Some(DirectoryStat::from_metadata(key, metadata));
                None
            },
            Some(mut stat) => {
                if self.same_key(&stat.path, &path) {
                    if !metadata.is_dir {
                        stat.accumulate_file(metadata);
                    }
                    self.current = Some(stat);
                    None
                } else {
                    let key = truncate_path(&path, depth);
                    self.current = Some(DirectoryStat::from_metadata(key, metadata));
                    Some(stat)
                }
            },
        }
    }

    /// Ends the stream: the open group, if any, is emitted.
    pub fn finish(self) -> (r: Option<DirectoryStat>)
        ensures
            opt_group(r) == self.open_group(),
    {
        self.current
    }

    /// The open group's key is a truncated path.
    pub closed spec fn wf(&self) -> bool {
        match self.current {
            None => true,
            Some(s) => truncated(path_view(s.path@), self.depth) == path_view(s.path@),
        }
    }
}

proof fn lemma_sum_push(gs: Seq<Group>, g: Group)
    ensures
        sum_file_counts(gs.push(g)) == sum_file_counts(gs) + g.totals.file_count,
{
    assert(gs.push(g).drop_last() =~= gs);
}

proof fn lemma_keys_drop_last(entries: Seq<EntryView>, depth: Option<usize>)
    requires
        entries.len() > 0,
    ensures
        entry_keys(entries, depth).drop_last() == entry_keys(entries.drop_last(), depth),
        entry_keys(entries, depth).last() == truncated(entries.last().0, depth),
{
    assert(entry_keys(entries, depth).drop_last() =~= entry_keys(entries.drop_last(), depth));
}

/// What the run has emitted and holds open, by induction over the entries.
proof fn lemma_run_shape(entries: Seq<EntryView>, depth: Option<usize>)
    ensures
        (entries.len() == 0) == (run(entries, depth).1 is None),
        run(entries, depth).1 is None ==> run(entries, depth).0.len() == 0,
        run(entries, depth).1 matches Some(g) ==> g.key == entry_keys(entries, depth).last(),
        group_keys(grouped(entries, depth)) == compress(entry_keys(entries, depth)),
        sum_file_counts(grouped(entries, depth)) == count_files(entries),
    decreases entries.len(),
{
    if entries.len() == 0 {
        assert(compress(entry_keys(entries, depth)) =~= seq![]);
        assert(grouped(entries, depth) =~= seq![]);
        assert(group_keys(grouped(entries, depth)) =~= seq![]);
    } else {
        let pre = entries.drop_last();
        lemma_run_shape(pre, depth);
        lemma_keys_drop_last(entries, depth);
        let (e0, c0) = run(pre, depth);
        let (path, m) = entries.last();
        let k = truncated(path, depth);
        let keys = entry_keys(entries, depth);
        let (next, out) = step(c0, path, m, depth);
        let e = e0 + opt_seq(out);
        assert(run(entries, depth) == (e, next));
        assert(keys.drop_last() == entry_keys(pre, depth));
        match c0 {
            None => {
                assert(e =~= seq![]);
                assert(grouped(entries, depth) =~= seq![next.unwrap()]);
                assert(compress(keys.drop_last()) =~= seq![]);
                assert(compress(keys) =~= seq![k]);
                assert(group_keys(grouped(entries, depth)) =~= seq![k]);
                assert(count_files(pre) == 0);
                lemma_sum_push(seq![], next.unwrap());
                assert(seq![next.unwrap()] =~= Seq::<Group>::empty().push(next.unwrap()));
            },
            Some(g) => {
                assert(grouped(pre, depth) =~= e0.push(g));
                assert(group_keys(e0.push(g)) =~= group_keys(e0).push(g.key));
                lemma_sum_push(e0, g);
                let ng = next.unwrap();
                if g.key == k {
                    assert(e =~= e0);
                    assert(grouped(entries, depth) =~= e0.push(ng));
                    assert(group_keys(e0.push(ng)) =~= group_keys(e0).push(ng.key));
                    assert(compress(keys) == compress(keys.drop_last()));
                    lemma_sum_push(e0, ng);
                } else {
                    assert(e =~= e0.push(g));
                    assert(grouped(entries, depth) =~= e0.push(g).push(ng));
                    assert(group_keys(e0.push(g).push(ng)) =~= group_keys(e0.push(g)).push(k));
                    assert(compress(keys) == compress(keys.drop_last()).push(k));
                    lemma_sum_push(e0.push(g), ng);
                }
            },
        }
    }
}

/// Facts about `compress`: it keeps exactly the elements of `s`, ends with
/// `s`'s last element, and repeats none when equal elements of `s` are
/// contiguous.
proof fn lemma_compress<K>(s: Seq<K>)
    ensures
        forall|x: K| compress(s).contains(x) <==> s.contains(x),
        s.len() > 0 ==> compress(s).len() > 0 && compress(s).last() == s.last(),
        contiguous(s) ==> no_duplicates(compress(s)),
    decreases s.len(),
{
    if s.len() > 0 {
        let pre = s.drop_last();
        let x = s.last();
        lemma_compress(pre);
        let c = compress(pre);
        assert forall|y: K| compress(s).contains(y) <==> s.contains(y) by {
            if s.contains(y) {
                let j = choose|j: int| 0 <= j < s.len() && s[j] == y;
                if j < s.len() - 1 {
                    assert(pre[j] == y);
                    assert(pre.contains(y));
                    assert(c.contains(y));
                    let i = choose|i: int| 0 <= i < c.len() && c[i] == y;
                    if !(c.len() > 0 && c.last() == x) {
                        assert(compress(s) == c.push(x));
                        assert(compress(s)[i] == y);
                    } else {
                        assert(compress(s) == c);
                    }
                } else {
                    if c.len() > 0 && c.last() == x {
                        assert(compress(s) == c);
                        assert(compress(s)[c.len() - 1] == y);
                    } else {
                        assert(compress(s) == c.push(x));
                        assert(compress(s)[c.len() as int] == y);
                    }
                }
            }
            if compress(s).contains(y) {
                let i = choose|i: int| 0 <= i < compress(s).len() && compress(s)[i] == y;
                if c.len() > 0 && c.last() == x {
                    assert(compress(s) == c);
                } else {
                    assert(compress(s) == c.push(x));
                }
                if i < c.len() {
                    assert(c[i] == y);
                    assert(c.contains(y));
                    assert(pre.contains(y));
                    let j = choose|j: int| 0 <= j < pre.len() && pre[j] == y;
                    assert(s[j] == y);
                } else {
                    assert(s[s.len() - 1] == y);
                }
            }
        }
        if contiguous(s) {
            assert(contiguous(pre)) by {
                assert forall|i: int, j: int, k: int|
                    0 <= i < j < k < pre.len() && #[trigger] pre[i] == #[trigger] pre[k] implies #[trigger] pre[j]
                        == pre[i] by {
                    assert(s[i] == s[k]);
                }
            }
            if !(c.len() > 0 && c.last() == x) {
                let cs = compress(s);
                assert(cs == c.push(x));
                assert forall|i: int, j: int| 0 <= i < j < cs.len() implies #[trigger] cs[i]
                    != #[trigger] cs[j] by {
                    if j == c.len() {
                        if cs[i] == x {
                            assert(c[i] == x);
                            assert(c.contains(x));
                            assert(pre.contains(x));
                            let q = choose|q: int| 0 <= q < pre.len() && pre[q] == x;
                            let n = s.len() - 1;
                            assert(s[q] == x);
                            assert(s[n] == x);
                            assert(pre.last() == s[n - 1]);
                            if q < n - 1 {
                                assert(s[q] == s[n]);
                                assert(s[n - 1] == s[q]);
                            }
                        }
                    } else {
                        assert(cs[i] == c[i] && cs[j] == c[j]);
                    }
                }
            }
        }
    }
}

/// The grouper emits one record per run of equal adjacent keys: an entry
/// whose key differs from the one before it always starts a new record, so a
/// key that comes back after another key yields a second record rather than
/// being merged into the first. Every file entry is counted once.
pub proof fn lemma_grouped_keys(entries: Seq<EntryView>, depth: Option<usize>)
    ensures
        group_keys(grouped(entries, depth)) == compress(entry_keys(entries, depth)),
        sum_file_counts(grouped(entries, depth)) == count_files(entries),
{
    lemma_run_shape(entries, depth);
}

/// On a stream in which entries that share a key are contiguous, the grouper
/// emits exactly one record per distinct key, and the file counts of the
/// records add up to the number of file entries.
pub proof fn lemma_sorted_stream_one_record_per_key(entries: Seq<EntryView>, depth: Option<usize>)
    requires
        contiguous(entry_keys(entries, depth)),
    ensures
        no_duplicates(group_keys(grouped(entries, depth))),
        forall|k: Seq<Seq<char>>|
            group_keys(grouped(entries, depth)).contains(k) <==> entry_keys(entries, depth).contains(k),
        sum_file_counts(grouped(entries, depth)) == count_files(entries),
{
    lemma_run_shape(entries, depth);
    lemma_compress(entry_keys(entries, depth));
}

/// A stream of a single entry still yields exactly one record.
pub proof fn lemma_single_entry_flushed(entries: Seq<EntryView>, depth: Option<usize>)
    requires
        entries.len() == 1,
    ensures
        grouped(entries, depth).len() == 1,
        grouped(entries, depth)[0].key == truncated(entries[0].0, depth),
        grouped(entries, depth)[0].totals == seed_totals(entries[0].1),
{
    assert(entries.drop_last() =~= Seq::<EntryView>::empty());
    assert(run(entries.drop_last(), depth) == (Seq::<Group>::empty(), None::<Group>));
    assert(entries.last() == entries[0]);
    assert(grouped(entries, depth) =~= seq![Group { key: truncated(entries[0].0, depth), totals: seed_totals(entries[0].1) }]);
}

} // verus!
