//! The decisions of a traversal that yields every entry below a directory.

use crate::walker::WalkRequest;
use vstd::prelude::*;
use vstd::slice::slice_to_vec;

verus! {

/// There is no directory waiting to be entered.
#[derive(Debug, Clone, Copy, PartialEq, Eq, Structural)]
pub struct NoIncomingDir;

/// Decides which directory a recursive traversal reads next. Every entry is
/// yielded by the driver; a directory is entered right after it was yielded, unless
/// it is skipped first.
#[derive(Debug)]
pub struct FsWalker {
    queue: Vec<Vec<u8>>,
    going_into_dir: Option<Vec<u8>>,
}

/// The state of such a traversal.
pub ghost struct FsWalkerView {
    /// The paths of the directories that are open, the innermost last.
    pub open_dirs: Seq<Seq<u8>>,
    /// The path of the directory to open next.
    pub going_into_dir: Option<Seq<u8>>,
}

impl View for FsWalker {
    type V = FsWalkerView;

    closed spec fn view(&self) -> FsWalkerView {
        FsWalkerView {
            open_dirs: self.queue.deep_view(),
            going_into_dir: match self.going_into_dir {
                Some(dir) => Some(dir@),
                None => None,
            },
        }
    }
}

impl FsWalker {
    /// A traversal that starts by entering `dir`.
    pub fn new(dir: Vec<u8>) -> (r: FsWalker)
        ensures
            r@ == (FsWalkerView { open_dirs: Seq::empty(), going_into_dir: Some(dir@) }),
    {
        let queue: Vec<Vec<u8>> = Vec::new();
        assert(queue.deep_view() =~= Seq::empty());
        FsWalker { queue, going_into_dir: Some(dir) }
    }

    /// Gives up the directory that waits to be entered, and returns its path.
    pub fn skip_incoming_dir(&mut self) -> (r: Result<Vec<u8>, NoIncomingDir>)
        ensures
            match old(self)@.going_into_dir {
                Some(dir) => r matches Ok(skipped) && skipped@ == dir,
                None => r is Err,
            },
            final(self)@ == (FsWalkerView { going_into_dir: None, ..old(self)@ }),
    {
        match self.going_into_dir.take() {
            Some(dir) => Ok(dir),
            None => Err(NoIncomingDir),
        }
    }

    /// What the driver is to do next: open the directory that waits to be entered,
    /// else read on in the innermost open directory, else stop.
    pub fn request(&self) -> (r: WalkRequest)
        ensures
            match self@.going_into_dir {
                Some(dir) => r matches WalkRequest::OpenDir(path) && path@ == dir,
                None => if self@.open_dirs.len() == 0 {
                    r is Stop
                } else {
                    r is ReadEntry
                },
            },
    {
        match &self.going_into_dir {
            Some(dir) => WalkRequest::OpenDir(slice_to_vec(dir.as_slice())),
            None => if self.queue.len() == 0 {
                WalkRequest::Stop
            } else {
                WalkRequest::ReadEntry
            },
        }
    }

    /// The directory that was to be opened is open: it becomes the innermost open
    /// directory.
    pub fn dir_opened(&mut self)
        ensures
            final(self)@ == match old(self)@.going_into_dir {
                Some(dir) => FsWalkerView {
                    open_dirs: old(self)@.open_dirs.push(dir),
                    going_into_dir: None,
                },
                None => old(self)@,
            },
    {
        let ghost before = self.queue.deep_view();
        match self.going_into_dir.take() {
            Some(dir) => {
                let ghost path = dir@;
                assert(dir.deep_view() =~= path);
                self.queue.push(dir);
                assert(self.queue.deep_view() =~= before.push(path));
            },
            None => {},
        }
    }

    /// The directory that was to be opened could not be opened: it is given up.
    pub fn dir_failed(&mut self)
        ensures
            final(self)@ == (FsWalkerView { going_into_dir: None, ..old(self)@ }),
    {
        self.going_into_dir = None;
    }

    /// The innermost open directory has no further entry: it is closed. Nothing
    /// changes while a directory waits to be opened.
    pub fn dir_exhausted(&mut self)
        ensures
            final(self)@ == if old(self)@.going_into_dir is None && old(self)@.open_dirs.len() > 0 {
                FsWalkerView { open_dirs: old(self)@.open_dirs.drop_last(), ..old(self)@ }
            } else {
                old(self)@
            },
    {
        let ghost before = self.queue.deep_view();
        if self.going_into_dir.is_none() && self.queue.len() > 0 {
            self.queue.pop();
            assert(self.queue.deep_view() =~= before.drop_last());
        }
    }

    /// The innermost open directory has an entry with the path `path`. A directory
    /// is the next one to enter. Nothing changes while a directory waits to be
    /// opened, or while no directory is open.
    pub fn entry(&mut self, path: &[u8], is_dir: bool)
        ensures
            final(self)@ == if old(self)@.going_into_dir is None && old(self)@.open_dirs.len() > 0
                && is_dir {
                FsWalkerView { going_into_dir: Some(path@), ..old(self)@ }
            } else {
                old(self)@
            },
    {
        if self.going_into_dir.is_none() && self.queue.len() > 0 && is_dir {
            self.going_into_dir = Some(slice_to_vec(path));
        }
    }
}

} // verus!
