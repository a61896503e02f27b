//! The file content cache and workspace index: a read-through store of
//! bytes for files not open in the editor, under a version counter that
//! only moves forward.

use vstd::prelude::*;

use crate::uri::FileUri;
use crate::urimap::UriMap;

verus! {

/// Cached file bytes plus the monotonic index version.
pub struct WorkspaceIndex {
    files: UriMap<Vec<u8>>,
    version: u64,
}

impl WorkspaceIndex {
    /// Stored keys never repeat.
    pub closed spec fn wf(self) -> bool {
        self.files.wf()
    }

    /// The cached bytes of a file, if any.
    pub closed spec fn content_of(self, uri: Seq<u8>) -> Option<Vec<u8>> {
        self.files.spec_get(uri)
    }

    /// The index version; it never decreases.
    pub closed spec fn spec_version(self) -> u64 {
        self.version
    }

    /// An empty index at version zero.
    pub fn new() -> (r: WorkspaceIndex)
        ensures
            r.wf(),
            r.spec_version() == 0,
            forall|u: Seq<u8>| r.content_of(u) is None,
    {
        WorkspaceIndex { files: UriMap::new(), version: 0 }
    }

    /// The current version.
    pub fn version(&self) -> (r: u64)
        ensures
            r == self.spec_version(),
    {
        self.version
    }

    fn bump(&mut self)
        ensures
            final(self).files == old(self).files,
            final(self).spec_version() >= old(self).spec_version(),
            old(self).spec_version() < u64::MAX ==> final(self).spec_version() > old(
                self,
            ).spec_version(),
    {
        if self.version < u64::MAX {
            self.version = self.version + 1;
        }
    }

    /// Record bytes read from disk for a non-open file; any
    /// index-affecting change moves the version forward.
    pub fn store(&mut self, uri: &FileUri, bytes: Vec<u8>)
        requires
            old(self).wf(),
        ensures
            final(self).wf(),
            final(self).content_of(uri@) == Some(bytes),
            forall|u: Seq<u8>| u != uri@ ==> final(self).content_of(u) == old(self).content_of(u),
            final(self).spec_version() >= old(self).spec_version(),
            old(self).spec_version() < u64::MAX ==> final(self).spec_version() > old(
                self,
            ).spec_version(),
    {
        self.files.insert(uri.duplicate(), bytes);
        self.bump();
    }

    /// The cached bytes of a file.
    pub fn get(&self, uri: &FileUri) -> (r: Option<&Vec<u8>>)
        requires
            self.wf(),
        ensures
            match r {
                Some(b) => self.content_of(uri@) == Some(*b),
                None => self.content_of(uri@) is None,
            },
    {
        self.files.get(uri)
    }

    /// Drop the cached bytes of a file; the version moves forward.
    pub fn invalidate(&mut self, uri: &FileUri)
        requires
            old(self).wf(),
        ensures
            final(self).wf(),
            final(self).content_of(uri@) is None,
            forall|u: Seq<u8>| u != uri@ ==> final(self).content_of(u) == old(self).content_of(u),
            final(self).spec_version() >= old(self).spec_version(),
            old(self).spec_version() < u64::MAX ==> final(self).spec_version() > old(
                self,
            ).spec_version(),
    {
        let _ = self.files.remove(uri);
        self.bump();
    }

    /// Drop everything cached; the version moves forward.
    pub fn invalidate_all(&mut self)
        ensures
            final(self).wf(),
            forall|u: Seq<u8>| final(self).content_of(u) is None,
            final(self).spec_version() >= old(self).spec_version(),
            old(self).spec_version() < u64::MAX ==> final(self).spec_version() > old(
                self,
            ).spec_version(),
    {
        self.files = UriMap::new();
        self.bump();
    }
}

} // verus!
