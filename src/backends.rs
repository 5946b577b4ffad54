use vstd::prelude::*;

use crate::types::{PathVersionBackend, ZipVersionBackend};

verus! {

/// File name extensions of the archive formats that 7-Zip reads.
pub open spec fn supported_extension(e: Seq<char>) -> bool {
    e == "7z"@
        || e == "bz2"@
        || e == "bzip2"@
        || e == "tbz2"@
        || e == "tbz"@
        || e == "gz"@
        || e == "gzip"@
        || e == "tgz"@
        || e == "tar"@
        || e == "wim"@
        || e == "swm"@
        || e == "esd"@
        || e == "xz"@
        || e == "txz"@
        || e == "zip"@
        || e == "zipx"@
        || e == "jar"@
        || e == "xpi"@
        || e == "odt"@
        || e == "ods"@
        || e == "docx"@
        || e == "xlsx"@
        || e == "epub"@
        || e == "apm"@
        || e == "ar"@
        || e == "a"@
        || e == "deb"@
        || e == "lib"@
        || e == "arj"@
        || e == "cab"@
        || e == "chm"@
        || e == "chw"@
        || e == "chi"@
        || e == "chq"@
        || e == "msi"@
        || e == "msp"@
        || e == "doc"@
        || e == "xls"@
        || e == "ppt"@
        || e == "cpio"@
        || e == "cramfs"@
        || e == "dmg"@
        || e == "ext"@
        || e == "ext2"@
        || e == "ext3"@
        || e == "ext4"@
        || e == "img"@
        || e == "fat"@
        || e == "hfs"@
        || e == "hfsx"@
        || e == "hxs"@
        || e == "hxr"@
        || e == "hxq"@
        || e == "hxw"@
        || e == "lit"@
        || e == "ihex"@
        || e == "iso"@
        || e == "lzh"@
        || e == "lha"@
        || e == "lzma"@
        || e == "mbr"@
        || e == "mslz"@
        || e == "mub"@
        || e == "nsis"@
        || e == "ntfs"@
        || e == "rar"@
        || e == "r00"@
        || e == "rpm"@
        || e == "ppmd"@
        || e == "qcow"@
        || e == "qcow2"@
        || e == "qcow2c"@
        || e == "squashfs"@
        || e == "udf"@
        || e == "scap"@
        || e == "uefif"@
        || e == "vdi"@
        || e == "vhd"@
        || e == "vmdk"@
        || e == "xar"@
        || e == "pkg"@
        || e == "z"@
        || e == "taz"@
}

fn same_text(a: &String, lit: &str) -> (r: bool)
    ensures
        r == (a@ == lit@),
{
    let b = lit.to_owned();
    *a == b
}

pub fn is_supported_extension(ext: &String) -> (r: bool)
    ensures
        r == supported_extension(ext@),
{
    same_text(ext, "7z")
        || same_text(ext, "bz2")
        || same_text(ext, "bzip2")
        || same_text(ext, "tbz2")
        || same_text(ext, "tbz")
        || same_text(ext, "gz")
        || same_text(ext, "gzip")
        || same_text(ext, "tgz")
        || same_text(ext, "tar")
        || same_text(ext, "wim")
        || same_text(ext, "swm")
        || same_text(ext, "esd")
        || same_text(ext, "xz")
        || same_text(ext, "txz")
        || same_text(ext, "zip")
        || same_text(ext, "zipx")
        || same_text(ext, "jar")
        || same_text(ext, "xpi")
        || same_text(ext, "odt")
        || same_text(ext, "ods")
        || same_text(ext, "docx")
        || same_text(ext, "xlsx")
        || same_text(ext, "epub")
        || same_text(ext, "apm")
        || same_text(ext, "ar")
        || same_text(ext, "a")
        || same_text(ext, "deb")
        || same_text(ext, "lib")
        || same_text(ext, "arj")
        || same_text(ext, "cab")
        || same_text(ext, "chm")
        || same_text(ext, "chw")
        || same_text(ext, "chi")
        || same_text(ext, "chq")
        || same_text(ext, "msi")
        || same_text(ext, "msp")
        || same_text(ext, "doc")
        || same_text(ext, "xls")
        || same_text(ext, "ppt")
        || same_text(ext, "cpio")
        || same_text(ext, "cramfs")
        || same_text(ext, "dmg")
        || same_text(ext, "ext")
        || same_text(ext, "ext2")
        || same_text(ext, "ext3")
        || same_text(ext, "ext4")
        || same_text(ext, "img")
        || same_text(ext, "fat")
        || same_text(ext, "hfs")
        || same_text(ext, "hfsx")
        || same_text(ext, "hxs")
        || same_text(ext, "hxr")
        || same_text(ext, "hxq")
        || same_text(ext, "hxw")
        || same_text(ext, "lit")
        || same_text(ext, "ihex")
        || same_text(ext, "iso")
        || same_text(ext, "lzh")
        || same_text(ext, "lha")
        || same_text(ext, "lzma")
        || same_text(ext, "mbr")
        || same_text(ext, "mslz")
        || same_text(ext, "mub")
        || same_text(ext, "nsis")
        || same_text(ext, "ntfs")
        || same_text(ext, "rar")
        || same_text(ext, "r00")
        || same_text(ext, "rpm")
        || same_text(ext, "ppmd")
        || same_text(ext, "qcow")
        || same_text(ext, "qcow2")
        || same_text(ext, "qcow2c")
        || same_text(ext, "squashfs")
        || same_text(ext, "udf")
        || same_text(ext, "scap")
        || same_text(ext, "uefif")
        || same_text(ext, "vdi")
        || same_text(ext, "vhd")
        || same_text(ext, "vmdk")
        || same_text(ext, "xar")
        || same_text(ext, "pkg")
        || same_text(ext, "z")
        || same_text(ext, "taz")
}

/// The file source picked for a path.
#[derive(Clone, Debug)]
pub enum Backend {
    Path(PathVersionBackend),
    Zip(ZipVersionBackend),
}

/// Picks the file source for `path`, given what the file system and the
/// environment say of it: nothing for a path that does not exist; a
/// directory source for a directory; an archive source where 7-Zip is
/// installed and the extension is one it reads; nothing otherwise.
pub fn create_backend_constructor(
    path: &String,
    exists: bool,
    is_directory: bool,
    seven_zip_installed: bool,
    extension: Option<&String>,
) -> (r: Option<Backend>)
    ensures
        !exists ==> r is None,
        exists && is_directory ==> r == Some(Backend::Path(PathVersionBackend { base_dir: *path })),
        exists && !is_directory && seven_zip_installed && extension is Some && supported_extension(
            extension->Some_0@,
        ) ==> r == Some(Backend::Zip(ZipVersionBackend { path: *path })),
        exists && !is_directory && !(seven_zip_installed && extension is Some
            && supported_extension(extension->Some_0@)) ==> r is None,
{
    if !exists {
        return None;
    }
    if is_directory {
        return Some(Backend::Path(PathVersionBackend { base_dir: path.clone() }));
    }
    if seven_zip_installed {
        if let Some(ext) = extension {
            if is_supported_extension(ext) {
                return Some(Backend::Zip(ZipVersionBackend::new(path.clone())));
            }
        }
    }
    None
}

} // verus!
