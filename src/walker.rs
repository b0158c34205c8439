//! The settings of a directory walk, and the decisions the walk takes from
//! them for each entry it meets.

use vstd::prelude::*;
use vstd::string::*;

verus! {

/// What a directory entry is.
#[derive(Debug, Clone, Copy, PartialEq, Eq, Structural)]
pub enum FileKind {
    Dir,
    File,
    Symlink,
    Fifo,
    Socket,
    BlockDevice,
    CharDevice,
    Other,
}

/// How a directory tree is walked.
pub struct Walker {
    root: String,
    max_depth: Option<usize>,
    follow_symbolic: bool,
    hide_ignore: bool,
    sort_by_name: bool,
}

impl Walker {
    pub closed spec fn spec_root(&self) -> Seq<char> {
        self.root@
    }

    pub closed spec fn spec_max_depth(&self) -> Option<usize> {
        self.max_depth
    }

    pub closed spec fn spec_follow_symbolic(&self) -> bool {
        self.follow_symbolic
    }

    pub closed spec fn spec_hide_ignore(&self) -> bool {
        self.hide_ignore
    }

    pub closed spec fn spec_sort_by_name(&self) -> bool {
        self.sort_by_name
    }

    /// A walk from `root`, to any depth, that does not follow symbolic
    /// links, hides hidden and ignored entries, and takes entries by name.
    pub fn new(root: &str) -> (r: Self)
        ensures
            r.spec_root() == root@,
            r.spec_max_depth() is None,
            !r.spec_follow_symbolic(),
            r.spec_hide_ignore(),
            r.spec_sort_by_name(),
    {
        Walker {
            root: root.to_owned(),
            max_depth: None,
            follow_symbolic: false,
            hide_ignore: true,
            sort_by_name: true,
        }
    }

    /// Sets how deep the walk goes; `None` is no limit.
    pub fn max_depth(&mut self, depth: Option<usize>) -> (r: &mut Self)
        ensures
            r.spec_max_depth() == depth,
            r.spec_root() == old(self).spec_root(),
            r.spec_follow_symbolic() == old(self).spec_follow_symbolic(),
            r.spec_hide_ignore() == old(self).spec_hide_ignore(),
            r.spec_sort_by_name() == old(self).spec_sort_by_name(),
            *final(self) == *final(r),
    {
        self.max_depth = depth;
        self
    }

    /// Sets whether hidden entries and those `.gitignore` names are left out.
    pub fn hide_ignore(&mut self, hidden: bool) -> (r: &mut Self)
        ensures
            r.spec_hide_ignore() == hidden,
            r.spec_root() == old(self).spec_root(),
            r.spec_max_depth() == old(self).spec_max_depth(),
            r.spec_follow_symbolic() == old(self).spec_follow_symbolic(),
            r.spec_sort_by_name() == old(self).spec_sort_by_name(),
            *final(self) == *final(r),
    {
        self.hide_ignore = hidden;
        self
    }

    /// Sets whether the walk goes on into symbolic links.
    pub fn follow_symbolic(&mut self, follow: bool) -> (r: &mut Self)
        ensures
            r.spec_follow_symbolic() == follow,
            r.spec_root() == old(self).spec_root(),
            r.spec_max_depth() == old(self).spec_max_depth(),
            r.spec_hide_ignore() == old(self).spec_hide_ignore(),
            r.spec_sort_by_name() == old(self).spec_sort_by_name(),
            *final(self) == *final(r),
    {
        self.follow_symbolic = follow;
        self
    }

    /// Where the walk starts.
    pub fn root(&self) -> (r: &str)
        ensures
            r@ == self.spec_root(),
    {
        self.root.as_str()
    }

    /// Whether hidden and ignored entries are left out.
    pub fn hides_ignored(&self) -> (r: bool)
        ensures
            r == self.spec_hide_ignore(),
    {
        self.hide_ignore
    }

    /// Whether the entries of a directory are taken in the order of their
    /// paths.
    pub fn sorts_by_name(&self) -> (r: bool)
        ensures
            r == self.spec_sort_by_name(),
    {
        self.sort_by_name
    }

    /// Whether the walk lists the entries of a directory at `depth`, the
    /// root's entries being at depth 1.
    pub fn within_depth(&self, depth: usize) -> (r: bool)
        ensures
            r == match self.spec_max_depth() {
                Some(m) => depth <= m,
                None => true,
            },
    {
        match self.max_depth {
            Some(m) => depth <= m,
            None => true,
        }
    }

    /// Whether the entry called `file_name` is shown; `ignored` says whether
    /// `.gitignore` names it.  Hidden entries are those whose name starts
    /// with a dot.
    pub fn shows_entry(&self, file_name: &str, ignored: bool) -> (r: bool)
        ensures
            r == (!self.spec_hide_ignore() || (!(file_name@.len() > 0 && file_name@[0] == '.')
                && !ignored)),
    {
        if !self.hide_ignore {
            return true;
        }
        if file_name.unicode_len() > 0 && file_name.get_char(0) == '.' {
            return false;
        }
        !ignored
    }

    /// Whether the walk goes on into an entry of kind `kind`.
    pub fn enters(&self, kind: FileKind) -> (r: bool)
        ensures
            r == (kind == FileKind::Dir || (kind == FileKind::Symlink && self.spec_follow_symbolic())),
    {
        match kind {
            FileKind::Dir => true,
            FileKind::Symlink => self.follow_symbolic,
            _ => false,
        }
    }
}

} // verus!
