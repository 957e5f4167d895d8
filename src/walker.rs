//! The walk's settings, and what it decides per entry.
use vstd::prelude::*;

verus! {

pub struct Walker {
    pub threads: usize,
    pub actual_size: bool,
    pub ignore_hidden: bool,
    pub with_size: bool,
    pub sorted: bool,
}

/// The positions `i < n` with `flags[i] == want`, in increasing order.
pub open spec fn positions_where(flags: Seq<bool>, want: bool, n: int) -> Seq<usize>
    decreases n,
{
    if n <= 0 {
        seq![]
    } else if flags[n - 1] == want {
        positions_where(flags, want, n - 1).push((n - 1) as usize)
    } else {
        positions_where(flags, want, n - 1)
    }
}

impl Walker {
    pub fn new(
        threads: usize,
        actual_size: bool,
        ignore_hidden: bool,
        with_size: bool,
        sorted: bool,
    ) -> (r: Walker)
        ensures
            r == (Walker { threads, actual_size, ignore_hidden, with_size, sorted }),
    {
        Walker { threads, actual_size, ignore_hidden, with_size, sorted }
    }

    /// The size counted for an entry: zero for a directory; for a file its
    /// size on disk when that is asked for and could be read, else its length.
    pub fn entry_size(&self, is_dir: bool, len: u64, on_disk: Option<u64>) -> (r: u64)
        ensures
            r == if is_dir {
                0
            } else if self.actual_size && on_disk is Some {
                on_disk.unwrap()
            } else {
                len
            },
    {
        if is_dir {
            0
        } else if self.actual_size {
            match on_disk {
                Some(size) => size,
                None => len,
            }
        } else {
            len
        }
    }

    /// The order in which a directory's entries are handed on when sorting is
    /// asked for: files first, then directories, each in the order given.
    /// Without sorting the order is kept.
    pub fn entry_order(&self, is_dir: &Vec<bool>) -> (r: Vec<usize>)
        ensures
            self.sorted ==> r@ == positions_where(is_dir@, false, is_dir@.len() as int)
                + positions_where(is_dir@, true, is_dir@.len() as int),
            !self.sorted ==> r@ == Seq::new(is_dir@.len(), |i: int| i as usize),
    {
        let mut r: Vec<usize> = Vec::new();
        if !self.sorted {
            let mut i: usize = 0;
            while i < is_dir.len()
                invariant
                    i <= is_dir@.len(),
                    r@ == Seq::new(i as nat, |k: int| k as usize),
                decreases is_dir@.len() - i,
            {
                r.push(i);
                i += 1;
                assert(r@ =~= Seq::new(i as nat, |k: int| k as usize));
            }
            return r;
        }
        let mut pass: usize = 0;
        while pass < 2
            invariant
                pass <= 2,
                pass == 0 ==> r@ == Seq::<usize>::empty(),
                pass == 1 ==> r@ == positions_where(is_dir@, false, is_dir@.len() as int),
                pass == 2 ==> r@ == positions_where(is_dir@, false, is_dir@.len() as int)
                    + positions_where(is_dir@, true, is_dir@.len() as int),
            decreases 2 - pass,
        {
            let want = pass == 1;
            let ghost base = r@;
            let mut i: usize = 0;
            assert(base =~= base + positions_where(is_dir@, want, 0));
            while i < is_dir.len()
                invariant
                    i <= is_dir@.len(),
                    r@ == base + positions_where(is_dir@, want, i as int),
                decreases is_dir@.len() - i,
            {
                if is_dir[i] == want {
                    r.push(i);
                }
                i += 1;
                assert(r@ =~= base + positions_where(is_dir@, want, i as int));
            }
            pass += 1;
        }
        r
    }
}

} // verus!
