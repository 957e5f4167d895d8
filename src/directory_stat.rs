//! The mergeable per-directory summary and the operations that combine them.
use vstd::prelude::*;

use crate::timestamp::{max_option, max_timestamp, update_latest, Timestamp};

verus! {

/// What the walk knows of one entry: its size (zero for a directory), whether
/// it is a directory, and each timestamp that could be read.
#[derive(Clone, Copy, Debug)]
pub struct MetadataWithSize {
    pub size: u64,
    pub is_dir: bool,
    pub created: Option<Timestamp>,
    pub accessed: Option<Timestamp>,
    pub modified: Option<Timestamp>,
}

impl MetadataWithSize {
    pub fn new(
        size: u64,
        is_dir: bool,
        created: Option<Timestamp>,
        accessed: Option<Timestamp>,
        modified: Option<Timestamp>,
    ) -> (r: MetadataWithSize)
        ensures
            r == (MetadataWithSize { size, is_dir, created, accessed, modified }),
    {
        MetadataWithSize { size, is_dir, created, accessed, modified }
    }
}

/// The summary of the files under one path.
#[derive(Clone, Debug)]
pub struct DirectoryStat {
    pub total_size: u64,
    pub file_count: u64,
    pub largest_file_size: u64,
    pub path: Vec<String>,
    pub latest_created: Option<Timestamp>,
    pub latest_accessed: Option<Timestamp>,
    pub latest_modified: Option<Timestamp>,
}

/// The mergeable content of a summary, everything but its path.
pub struct StatTotals {
    pub file_count: nat,
    pub total_size: nat,
    pub largest_file_size: nat,
    pub latest_created: Option<Timestamp>,
    pub latest_accessed: Option<Timestamp>,
    pub latest_modified: Option<Timestamp>,
}

/// The summary of no files at all.
pub open spec fn empty_totals() -> StatTotals {
    StatTotals {
        file_count: 0,
        total_size: 0,
        largest_file_size: 0,
        latest_created: None,
        latest_accessed: None,
        latest_modified: None,
    }
}

/// Counts and sizes add up, the largest size and the timestamps take the maximum.
pub open spec fn merge_totals(a: StatTotals, b: StatTotals) -> StatTotals {
    StatTotals {
        file_count: a.file_count + b.file_count,
        total_size: a.total_size + b.total_size,
        largest_file_size: if a.largest_file_size < b.largest_file_size {
            b.largest_file_size
        } else {
            a.largest_file_size
        },
        latest_created: max_option(a.latest_created, b.latest_created),
        latest_accessed: max_option(a.latest_accessed, b.latest_accessed),
        latest_modified: max_option(a.latest_modified, b.latest_modified),
    }
}

/// The summary of a single file.
pub open spec fn file_totals(m: MetadataWithSize) -> StatTotals {
    StatTotals {
        file_count: 1,
        total_size: m.size as nat,
        largest_file_size: m.size as nat,
        latest_created: m.created,
        latest_accessed: m.accessed,
        latest_modified: m.modified,
    }
}

/// What an entry opens a group with: a file counts, a directory does not.
pub open spec fn seed_totals(m: MetadataWithSize) -> StatTotals {
    if m.is_dir {
        empty_totals()
    } else {
        file_totals(m)
    }
}

/// Two summaries can be merged without their sums leaving `u64`.
pub open spec fn can_merge(a: StatTotals, b: StatTotals) -> bool {
    a.file_count + b.file_count <= u64::MAX && a.total_size + b.total_size <= u64::MAX
}

impl DirectoryStat {
    pub open spec fn totals(&self) -> StatTotals {
        StatTotals {
            file_count: self.file_count as nat,
            total_size: self.total_size as nat,
            largest_file_size: self.largest_file_size as nat,
            latest_created: self.latest_created,
            latest_accessed: self.latest_accessed,
            latest_modified: self.latest_modified,
        }
    }

    /// An empty summary for `path`.
    pub fn new(path: Vec<String>) -> (r: DirectoryStat)
        ensures
            r.path@ == path@,
            r.totals() == empty_totals(),
    {
        DirectoryStat {
            total_size: 0,
            file_count: 0,
            largest_file_size: 0,
            path,
            latest_created: None,
            latest_accessed: None,
            latest_modified: None,
        }
    }

    /// The summary that an entry opens a group with: a file's size and
    /// timestamps, or nothing for a directory.
    pub fn from_metadata(path: Vec<String>, metadata: &MetadataWithSize) -> (r: DirectoryStat)
        ensures
            r.path@ == path@,
            r.totals() == seed_totals(*metadata),
    {
        if metadata.is_dir {
            DirectoryStat::new(path)
        } else {
            DirectoryStat {
                total_size: metadata.size,
                file_count: 1,
                largest_file_size: metadata.size,
                path,
                latest_created: metadata.created,
                latest_accessed: metadata.accessed,
                latest_modified: metadata.modified,
            }
        }
    }

    /// The same totals under another path.
    pub fn relabeled(&self, path: Vec<String>) -> (r: DirectoryStat)
        ensures
            r.path@ == path@,
            r.totals() == self.totals(),
    {
        DirectoryStat {
            total_size: self.total_size,
            file_count: self.file_count,
            largest_file_size: self.largest_file_size,
            path,
            latest_created: self.latest_created,
            latest_accessed: self.latest_accessed,
            latest_modified: self.latest_modified,
        }
    }

    /// Adds `other`'s totals to this summary; the path stays.
    pub fn merge(&mut self, other: &DirectoryStat)
        requires
            can_merge(old(self).totals(), other.totals()),
        ensures
            final(self).path@ == old(self).path@,
            final(self).totals() == merge_totals(old(self).totals(), other.totals()),
    {
        self.total_size = self.total_size + other.total_size;
        self.file_count = self.file_count + other.file_count;
        if self.largest_file_size < other.largest_file_size {
            self.largest_file_size = other.largest_file_size;
        }
        self.latest_created = max_timestamp(self.latest_created, other.latest_created);
        self.latest_accessed = max_timestamp(self.latest_accessed, other.latest_accessed);
        self.latest_modified = max_timestamp(self.latest_modified, other.latest_modified);
    }

    /// Counts one more file: its size and each timestamp that could be read.
    pub fn accumulate_file(&mut self, metadata: &MetadataWithSize)
        requires
            can_merge(old(self).totals(), file_totals(*metadata)),
        ensures
            final(self).path@ == old(self).path@,
            final(self).totals() == merge_totals(old(self).totals(), file_totals(*metadata)),
    {
        self.total_size = self.total_size + metadata.size;
        self.file_count = self.file_count + 1;
        if self.largest_file_size < metadata.size {
            self.largest_file_size = metadata.size;
        }
        if let Some(created) = metadata.created {
            self.update_latest_created(created);
        }
        if let Some(accessed) = metadata.accessed {
            self.update_latest_accessed(accessed);
        }
        if let Some(modified) = metadata.modified {
            self.update_latest_modified(modified);
        }
    }

    /// Raises the latest creation time to `created`.
    pub fn update_latest_created(&mut self, created: Timestamp)
        ensures
            final(self).latest_created == max_option(old(self).latest_created, Some(created)),
            final(self).latest_accessed == old(self).latest_accessed,
            final(self).latest_modified == old(self).latest_modified,
            final(self).total_size == old(self).total_size,
            final(self).file_count == old(self).file_count,
            final(self).largest_file_size == old(self).largest_file_size,
            final(self).path@ == old(self).path@,
    {
        update_latest(&mut self.latest_created, created);
    }

    /// Raises the latest access time to `accessed`.
    pub fn update_latest_accessed(&mut self, accessed: Timestamp)
        ensures
            final(self).latest_accessed == max_option(old(self).latest_accessed, Some(accessed)),
            final(self).latest_created == old(self).latest_created,
            final(self).latest_modified == old(self).latest_modified,
            final(self).total_size == old(self).total_size,
            final(self).file_count == old(self).file_count,
            final(self).largest_file_size == old(self).largest_file_size,
            final(self).path@ == old(self).path@,
    {
        update_latest(&mut self.latest_accessed, accessed);
    }

    /// Raises the latest modification time to `modified`.
    pub fn update_latest_modified(&mut self, modified: Timestamp)
        ensures
            final(self).latest_modified == max_option(old(self).latest_modified, Some(modified)),
            final(self).latest_created == old(self).latest_created,
            final(self).latest_accessed == old(self).latest_accessed,
            final(self).total_size == old(self).total_size,
            final(self).file_count == old(self).file_count,
            final(self).largest_file_size == old(self).largest_file_size,
            final(self).path@ == old(self).path@,
    {
        update_latest(&mut self.latest_modified, modified);
    }
}

/// Merging summaries is commutative and associative, and the empty summary is
/// its identity.
pub proof fn lemma_merge_laws(a: StatTotals, b: StatTotals, c: StatTotals)
    ensures
        merge_totals(a, b) == merge_totals(b, a),
        merge_totals(merge_totals(a, b), c) == merge_totals(a, merge_totals(b, c)),
        merge_totals(a, empty_totals()) == a,
        merge_totals(empty_totals(), a) == a,
{
    crate::timestamp::lemma_max_option_laws(a.latest_created, b.latest_created, c.latest_created);
    crate::timestamp::lemma_max_option_laws(a.latest_accessed, b.latest_accessed, c.latest_accessed);
    crate::timestamp::lemma_max_option_laws(a.latest_modified, b.latest_modified, c.latest_modified);
    crate::timestamp::lemma_max_option_laws(b.latest_created, a.latest_created, c.latest_created);
    crate::timestamp::lemma_max_option_laws(b.latest_accessed, a.latest_accessed, c.latest_accessed);
    crate::timestamp::lemma_max_option_laws(b.latest_modified, a.latest_modified, c.latest_modified);
}

} // verus!
