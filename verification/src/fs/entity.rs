//! One entry of the file system, as the walker observed it.

use vstd::prelude::*;

verus! {

/// What kind of entry a path names. The kinds exclude one another.
#[derive(Clone, Copy, Debug, PartialEq, Eq, Structural)]
pub enum FileKind {
    Dir,
    File,
    /// A symbolic link; it is classified and never followed.
    Symlink,
    /// Anything else: a socket, a device, a pipe.
    Other,
}

/// The part of an entry's metadata that the library reads.
#[derive(Clone, Copy, Debug, PartialEq, Eq, Structural)]
pub struct FsMetadata {
    pub kind: FileKind,
    /// Length in bytes as the file system reports it, for any kind of entry.
    pub len: u64,
}

/// An entry whose metadata could be read.
#[derive(Clone, Debug)]
pub struct FsEntity {
    /// Absolute path.
    pub path: String,
    pub metadata: FsMetadata,
    /// Distance from the scan root, which has depth zero.
    pub depth: u16,
}

/// An entry that could not be read: a directory that could not be listed, or
/// an entry without readable metadata.
#[derive(Clone, Copy, Debug, PartialEq, Eq, Structural)]
pub struct Error {}

/// An entry as a plain value: its path as a sequence of characters.
pub struct FsEntityView {
    pub path: Seq<char>,
    pub metadata: FsMetadata,
    pub depth: u16,
}

impl View for FsEntity {
    type V = FsEntityView;

    open spec fn view(&self) -> FsEntityView {
        FsEntityView { path: self.path@, metadata: self.metadata, depth: self.depth }
    }
}

/// What the walker yields for one entry, as a plain value.
pub open spec fn item_view(item: Result<FsEntity, Error>) -> Result<FsEntityView, Error> {
    match item {
        Ok(entity) => Ok(entity@),
        Err(e) => Err(e),
    }
}

/// What the walker yields for some entries, as plain values.
pub open spec fn item_views(items: Seq<Result<FsEntity, Error>>) -> Seq<
    Result<FsEntityView, Error>,
> {
    items.map_values(|item: Result<FsEntity, Error>| item_view(item))
}

impl FsEntity {
    /// The apparent size that the entry contributes: a file's length, and
    /// nothing for directories, links and the rest.
    pub open spec fn spec_size_in_bytes(&self) -> u64 {
        if self.metadata.kind == FileKind::File {
            self.metadata.len
        } else {
            0
        }
    }

    /// The apparent size that the entry contributes: a file's length, and
    /// nothing for directories, links and the rest.
    pub fn size_in_bytes(&self) -> (size: u64)
        ensures
            size == self.spec_size_in_bytes(),
    {
        if self.is_file() {
            self.metadata.len
        } else {
            0
        }
    }

    /// The length that the file system reports, whatever the kind.
    pub fn size(&self) -> (size: u64)
        ensures
            size == self.metadata.len,
    {
        self.metadata.len
    }

    pub fn is_dir(&self) -> (result: bool)
        ensures
            result == (self.metadata.kind == FileKind::Dir),
    {
        self.metadata.kind == FileKind::Dir
    }

    pub fn is_file(&self) -> (result: bool)
        ensures
            result == (self.metadata.kind == FileKind::File),
    {
        self.metadata.kind == FileKind::File
    }

    pub fn is_symlink(&self) -> (result: bool)
        ensures
            result == (self.metadata.kind == FileKind::Symlink),
    {
        self.metadata.kind == FileKind::Symlink
    }
}

} // verus!
