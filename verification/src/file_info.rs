//! File descriptors and their mathematical views.

use vstd::prelude::*;

verus! {

/// One real file on disk at the moment of scanning.
///
/// `path` is the absolute path of the directory entry; `modified` is the
/// last-modification time in caller-chosen ticks; `size` is the byte length;
/// `disk_usage` is the allocated space (informational only, never used for
/// grouping); `(device, inode)` identify the physical file: two descriptors
/// that agree on both denote the same underlying file.
pub struct FileInfo {
    pub path: String,
    pub modified: u64,
    pub size: u64,
    pub disk_usage: u64,
    pub device: u64,
    pub inode: u64,
}

/// Mathematical view of a [`FileInfo`]: the same record with the path as a
/// sequence of characters.
#[verifier::ext_equal]
pub ghost struct FileView {
    pub path: Seq<char>,
    pub modified: u64,
    pub size: u64,
    pub disk_usage: u64,
    pub device: u64,
    pub inode: u64,
}

impl View for FileInfo {
    type V = FileView;

    open spec fn view(&self) -> FileView {
        FileView {
            path: self.path@,
            modified: self.modified,
            size: self.size,
            disk_usage: self.disk_usage,
            device: self.device,
            inode: self.inode,
        }
    }
}

impl Clone for FileInfo {
    fn clone(&self) -> (r: Self)
        ensures
            r == *self,
    {
        FileInfo {
            path: self.path.clone(),
            modified: self.modified,
            size: self.size,
            disk_usage: self.disk_usage,
            device: self.device,
            inode: self.inode,
        }
    }
}

/// A descriptor together with the digest of the file's full contents,
/// attached by the caller between the size stage and the hash stage.
pub struct HashedFile {
    pub file: FileInfo,
    pub digest: Vec<u8>,
}

/// Mathematical view of a [`HashedFile`].
#[verifier::ext_equal]
pub ghost struct HashedView {
    pub file: FileView,
    pub digest: Seq<u8>,
}

impl View for HashedFile {
    type V = HashedView;

    open spec fn view(&self) -> HashedView {
        HashedView { file: self.file@, digest: self.digest@ }
    }
}

impl Clone for HashedFile {
    fn clone(&self) -> (r: Self)
        ensures
            r@ == self@,
    {
        HashedFile { file: self.file.clone(), digest: self.digest.clone() }
    }
}

/// The view of every descriptor in a sequence.
pub open spec fn file_views(s: Seq<FileInfo>) -> Seq<FileView> {
    s.map_values(|f: FileInfo| f@)
}

/// The views of a sequence of descriptor groups.
pub open spec fn group_views(gs: Seq<Vec<FileInfo>>) -> Seq<Seq<FileView>> {
    gs.map_values(|g: Vec<FileInfo>| file_views(g@))
}

/// The view of every hashed descriptor in a sequence.
pub open spec fn hashed_views(s: Seq<HashedFile>) -> Seq<HashedView> {
    s.map_values(|h: HashedFile| h@)
}

/// The views of a sequence of hashed-descriptor groups.
pub open spec fn hashed_group_views(gs: Seq<Vec<HashedFile>>) -> Seq<Seq<HashedView>> {
    gs.map_values(|g: Vec<HashedFile>| hashed_views(g@))
}

/// Key of the identity-deduplication stage: same physical file.
pub open spec fn by_identity() -> spec_fn(FileView, FileView) -> bool {
    |a: FileView, b: FileView| a.device == b.device && a.inode == b.inode
}

/// Key of the path-deduplication stage: same directory entry.
pub open spec fn by_path() -> spec_fn(FileView, FileView) -> bool {
    |a: FileView, b: FileView| a.path == b.path
}

/// Key of the size stage: same byte length.
pub open spec fn by_size() -> spec_fn(FileView, FileView) -> bool {
    |a: FileView, b: FileView| a.size == b.size
}

/// Key of the hash stage: same full-content digest.
pub open spec fn by_digest() -> spec_fn(HashedView, HashedView) -> bool {
    |a: HashedView, b: HashedView| a.digest == b.digest
}

/// All four stage keys are equivalence relations.
pub proof fn lemma_keys_are_equivalences()
    ensures
        crate::grouping::key_equivalence(by_identity()),
        crate::grouping::key_equivalence(by_path()),
        crate::grouping::key_equivalence(by_size()),
        crate::grouping::key_equivalence(by_digest()),
{
}

} // verus!
