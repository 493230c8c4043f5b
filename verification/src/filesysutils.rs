//! The queue behind a breadth-first walk of the file system. The walk itself
//! reads directories, which this library does not do: a caller takes the next
//! path, lists what is under it, and hands the entries back.

use std::collections::VecDeque;
use std::path::PathBuf;
use vstd::prelude::*;

verus! {

/// The paths that a breadth-first walk has found and not yet visited, in the
/// order in which it will visit them.
pub struct FileSystemIterator {
    path_queue: VecDeque<PathBuf>,
}

impl View for FileSystemIterator {
    type V = Seq<PathBuf>;

    closed spec fn view(&self) -> Seq<PathBuf> {
        self.path_queue@
    }
}

impl FileSystemIterator {
    /// A walk that starts at `path`.
    pub fn new(path: PathBuf) -> (walk: Self)
        ensures
            walk@ == seq![path],
    {
        let mut path_queue: VecDeque<PathBuf> = VecDeque::new();
        path_queue.push_back(path);
        assert(path_queue@ =~= seq![path]);
        FileSystemIterator { path_queue }
    }

    /// The next path to visit, taken off the front of the queue; nothing when
    /// the walk is over.
    pub fn next(&mut self) -> (path: Option<PathBuf>)
        ensures
            old(self)@.len() == 0 ==> path is None && final(self)@ == old(self)@,
            old(self)@.len() > 0 ==> path == Some(old(self)@[0]) && final(self)@ == old(
                self,
            )@.drop_first(),
    {
        let path = self.path_queue.pop_front();
        proof {
            if old(self)@.len() > 0 {
                assert(self.path_queue@ =~= old(self)@.drop_first());
            }
        }
        path
    }

    /// Puts what was found under the path last visited at the back of the
    /// queue, in the order given.
    pub fn push_entries(&mut self, entries: Vec<PathBuf>)
        ensures
            final(self)@ == old(self)@ + entries@,
    {
        let mut entries = entries;
        let ghost all = entries@;
        let mut rest: Vec<PathBuf> = Vec::new();
        // take the entries from the back into `rest`, then from the back of
        // `rest` into the queue: twice reversed is the order given
        while entries.len() > 0
            invariant
                all =~= entries@ + rest@.reverse(),
            decreases entries@.len(),
        {
            let ghost before = entries@;
            let last = entries.pop();
            match last {
                Some(path) => {
                    let ghost had = rest@;
                    rest.push(path);
                    assert(rest@.reverse() =~= seq![path] + had.reverse());
                    assert(before =~= entries@.push(path));
                },
                None => {},
            }
        }
        assert(all =~= rest@.reverse());
        let ghost start = self.path_queue@;
        while rest.len() > 0
            invariant
                start == old(self)@,
                self.path_queue@ + rest@.reverse() =~= start + all,
            decreases rest@.len(),
        {
            let ghost before = rest@;
            let ghost queue = self.path_queue@;
            let last = rest.pop();
            match last {
                Some(path) => {
                    self.path_queue.push_back(path);
                    assert(before =~= rest@.push(path));
                    assert(before.reverse() =~= seq![path] + rest@.reverse());
                    assert(self.path_queue@ + rest@.reverse() =~= queue + before.reverse());
                },
                None => {},
            }
        }
        assert(rest@.reverse() =~= Seq::<PathBuf>::empty());
    }

    /// How many paths wait in the queue.
    pub fn pending(&self) -> (n: usize)
        ensures
            n == self@.len(),
    {
        self.path_queue.len()
    }
}

} // verus!
