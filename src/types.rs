use vstd::prelude::*;

verus! {

/// One file offered by a file source: its path relative to the source's
/// root, its POSIX permission bits (0 where unknown) and its size in bytes.
#[derive(Clone, Debug)]
pub struct VersionFile {
    pub relative_filename: String,
    pub permission: u32,
    pub size: u64,
}

impl VersionFile {
    /// A field-by-field copy.
    pub fn duplicate(&self) -> (r: VersionFile)
        ensures
            r == *self,
    {
        VersionFile {
            relative_filename: self.relative_filename.clone(),
            permission: self.permission,
            size: self.size,
        }
    }
}

/// What every file source declares about itself.
pub trait VersionBackend {
    /// The source can deliver whole files only, never a byte range.
    spec fn whole_files_only(&self) -> bool;

    fn require_whole_files(&self) -> (r: bool)
        ensures
            r == self.whole_files_only(),
    ;
}

/// Files of a directory tree, read from disk; any byte range can be read.
#[derive(Clone, Debug)]
pub struct PathVersionBackend {
    pub base_dir: String,
}

impl VersionBackend for PathVersionBackend {
    open spec fn whole_files_only(&self) -> bool {
        false
    }

    fn require_whole_files(&self) -> (r: bool) {
        false
    }
}

/// Files of an archive, unpacked by the external 7-Zip tool one whole file
/// at a time.
#[derive(Clone, Debug)]
pub struct ZipVersionBackend {
    pub path: String,
}

impl ZipVersionBackend {
    pub fn new(path: String) -> (r: ZipVersionBackend)
        ensures
            r.path == path,
    {
        ZipVersionBackend { path }
    }
}

impl VersionBackend for ZipVersionBackend {
    open spec fn whole_files_only(&self) -> bool {
        true
    }

    fn require_whole_files(&self) -> (r: bool) {
        true
    }
}

} // verus!
