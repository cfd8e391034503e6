//! The walk through a folder tree that collects the files in it: which
//! entry is looked at next and what becomes of it. Reading folders and
//! entries is left to the caller.

use vstd::prelude::*;

verus! {

/// What a folder entry is.
#[derive(Debug, Copy, Clone, PartialEq, Eq, Structural)]
pub enum EntryKind {
    File,
    Folder,
    Other,
}

/// A walk through a folder tree: the entries still to look at (the last one
/// is next) and the files found so far.
pub struct FolderWalk<E> {
    pending: Vec<E>,
    files: Vec<E>,
}

impl<E> FolderWalk<E> {
    /// The entries still to look at; the last one is next.
    pub closed spec fn pending(&self) -> Seq<E> {
        self.pending@
    }

    /// The files found so far, in the order they were found.
    pub closed spec fn found(&self) -> Seq<E> {
        self.files@
    }

    /// A walk that starts from the entries of a folder.
    pub fn new(entries: Vec<E>) -> (r: FolderWalk<E>)
        ensures
            r.pending() == entries@,
            r.found() == Seq::<E>::empty(),
    {
        FolderWalk { pending: entries, files: Vec::new() }
    }

    /// The entry to look at next (the last one still pending), taken off the
    /// list; `None` when the walk is over.
    pub fn next_entry(&mut self) -> (r: Option<E>)
        ensures
            old(self).pending().len() == 0 ==> r is None,
            old(self).pending().len() == 0 ==> final(self).pending() == old(self).pending(),
            old(self).pending().len() > 0 ==> r == Some(old(self).pending().last()),
            old(self).pending().len() > 0 ==> final(self).pending() == old(self).pending().drop_last(),
            final(self).found() == old(self).found(),
    {
        self.pending.pop()
    }

    /// Records what an entry is: a file is found; a folder is handed back,
    /// to have its entries listed and added; anything else is passed over.
    pub fn visit(&mut self, entry: E, kind: EntryKind) -> (r: Option<E>)
        ensures
            final(self).pending() == old(self).pending(),
            kind == EntryKind::File ==> final(self).found() == old(self).found().push(entry),
            kind == EntryKind::File ==> r is None,
            kind == EntryKind::Folder ==> final(self).found() == old(self).found(),
            kind == EntryKind::Folder ==> r == Some(entry),
            kind == EntryKind::Other ==> final(self).found() == old(self).found(),
            kind == EntryKind::Other ==> r is None,
    {
        match kind {
            EntryKind::File => {
                self.files.push(entry);
                None
            },
            EntryKind::Folder => Some(entry),
            EntryKind::Other => None,
        }
    }

    /// Adds the entries of a folder to those still to look at, after them.
    pub fn add_entries(&mut self, entries: Vec<E>)
        ensures
            final(self).pending() == old(self).pending() + entries@,
            final(self).found() == old(self).found(),
    {
        let mut entries = entries;
        self.pending.append(&mut entries);
    }

    /// The files found.
    pub fn into_found(self) -> (r: Vec<E>)
        ensures
            r@ == self.found(),
    {
        self.files
    }
}

} // verus!
