//! The input files of a run: their kind, checked before any work starts, and
//! their content hash, which is their identity.
use vstd::prelude::*;
use crate::text::str_eq;

verus! {

/// The extension that `Path::extension` finds in `path`, if any.
pub uninterp spec fn extension_of(path: Seq<char>) -> Option<Seq<char>>;

/// Relies on `std::path::Path::extension`: the part of the file name after its
/// last dot; it depends on the path alone.
#[verifier::external_body]
fn path_extension(path: &str) -> (r: Option<String>)
    ensures
        match r {
            Some(e) => extension_of(path@) == Some(e@),
            None => extension_of(path@) is None,
        },
{
    std::path::Path::new(path).extension().map(|e| e.to_string_lossy().into_owned())
}

/// What an input file is.
#[derive(Clone, Copy, Debug, PartialEq, Eq, Structural)]
pub enum Kind {
    Pdf,
    Video,
}

/// An input file whose kind is known, and, once computed, its content hash.
pub struct CheckedPath {
    pub path: String,
    pub kind: Kind,
    pub hash: Option<String>,
}

/// A file identified by the hash of its content; the path is only where it was.
pub struct HashedFile {
    pub path: String,
    pub hash: String,
}

/// Why an input file is refused.
pub enum PathError {
    /// The path names a directory, not a file.
    Directory { path: String },
    /// The file's extension (if it has one) is neither a document's nor a video's.
    UnsupportedExtension { path: String, extension: Option<String> },
}

/// The extensions taken for video files.
pub open spec fn is_video_extension(ext: Seq<char>) -> bool {
    ||| ext == "mp4"@
    ||| ext == "m4v"@
    ||| ext == "mkv"@
    ||| ext == "webm"@
    ||| ext == "avi"@
    ||| ext == "mov"@
    ||| ext == "wmv"@
    ||| ext == "flv"@
    ||| ext == "mpg"@
    ||| ext == "mpeg"@
    ||| ext == "ogv"@
    ||| ext == "3gp"@
    ||| ext == "ts"@
}

/// Whether `ext` is the extension of a video file.
pub fn is_video_ext(ext: &str) -> (r: bool)
    ensures
        r == is_video_extension(ext@),
{
    str_eq(ext, "mp4") || str_eq(ext, "m4v") || str_eq(ext, "mkv") || str_eq(ext, "webm")
        || str_eq(ext, "avi") || str_eq(ext, "mov") || str_eq(ext, "wmv") || str_eq(ext, "flv")
        || str_eq(ext, "mpg") || str_eq(ext, "mpeg") || str_eq(ext, "ogv") || str_eq(ext, "3gp")
        || str_eq(ext, "ts")
}

/// The kind of a file with extension `ext`, if it is supported.
pub open spec fn kind_of_extension(ext: Option<Seq<char>>) -> Option<Kind> {
    match ext {
        Some(e) => if e == "pdf"@ {
            Some(Kind::Pdf)
        } else if is_video_extension(e) {
            Some(Kind::Video)
        } else {
            None
        },
        None => None,
    }
}

impl CheckedPath {
    /// Checks an input file: a directory is refused; a file is a document or a
    /// video by its extension, and refused with any other extension or none.
    pub fn from(path: String, is_dir: bool) -> (r: Result<CheckedPath, PathError>)
        ensures
            is_dir ==> (r matches Err(PathError::Directory { path: p }) && p == path),
            !is_dir && kind_of_extension(extension_of(path@)) is Some ==> (r matches Ok(c) && c.path
                == path && Some(c.kind) == kind_of_extension(extension_of(path@)) && c.hash is None),
            !is_dir && kind_of_extension(extension_of(path@)) is None ==> (r matches Err(
                PathError::UnsupportedExtension { path: p, extension: e },
            ) && p == path && match e {
                Some(x) => extension_of(path@) == Some(x@),
                None => extension_of(path@) is None,
            }),
    {
        if is_dir {
            return Err(PathError::Directory { path });
        }
        let ext = path_extension(path.as_str());
        match ext {
            Some(e) => {
                if str_eq(e.as_str(), "pdf") {
                    Ok(CheckedPath { path, kind: Kind::Pdf, hash: None })
                } else if is_video_ext(e.as_str()) {
                    Ok(CheckedPath { path, kind: Kind::Video, hash: None })
                } else {
                    Err(PathError::UnsupportedExtension { path, extension: Some(e) })
                }
            },
            None => Err(PathError::UnsupportedExtension { path, extension: None }),
        }
    }
}

impl HashedFile {
    pub fn new(path: String, hash: String) -> (r: HashedFile)
        ensures
            r.path == path,
            r.hash == hash,
    {
        HashedFile { path, hash }
    }

    /// A copy of this file's path and hash.
    pub fn duplicate(&self) -> (r: HashedFile)
        ensures
            r == *self,
    {
        HashedFile { path: self.path.clone(), hash: self.hash.clone() }
    }
}

/// Whether an input file (its path, and whether it is a directory) is accepted.
pub open spec fn is_accepted(file: (String, bool)) -> bool {
    !file.1 && kind_of_extension(extension_of(file.0@)) is Some
}

/// Checks every input file, in order; the first refusal refuses them all.
pub fn check_paths(files: &Vec<(String, bool)>) -> (r: Result<Vec<CheckedPath>, PathError>)
    ensures
        match r {
            Ok(v) => v@.len() == files@.len() && forall|i: int|
                0 <= i < v@.len() ==> (#[trigger] v@[i]).path == files@[i].0 && !files@[i].1
                    && v@[i].hash is None && Some(v@[i].kind) == kind_of_extension(
                    extension_of(files@[i].0@),
                ),
            Err(e) => exists|i: int|
                0 <= i < files@.len() && (forall|k: int| 0 <= k < i ==> is_accepted(#[trigger] files@[k]))
                    && !is_accepted(#[trigger] files@[i]) && (files@[i].1 <==> e is Directory),
        },
{
    let mut checked: Vec<CheckedPath> = Vec::new();
    let mut i: usize = 0;
    while i < files.len()
        invariant
            0 <= i <= files.len(),
            checked@.len() == i,
            forall|k: int|
                0 <= k < i ==> (#[trigger] checked@[k]).path == files@[k].0 && !files@[k].1
                    && checked@[k].hash is None && Some(checked@[k].kind) == kind_of_extension(
                    extension_of(files@[k].0@),
                ),
        decreases files.len() - i,
    {
        let path = files[i].0.clone();
        let is_dir = files[i].1;
        match CheckedPath::from(path, is_dir) {
            Ok(c) => checked.push(c),
            Err(e) => {
                assert(!is_accepted(files@[i as int]));
                assert forall|k: int| 0 <= k < i implies is_accepted(#[trigger] files@[k]) by {
                    assert(checked@[k].path == files@[k].0);
                }
                return Err(e);
            },
        }
        i += 1;
    }
    Ok(checked)
}

/// Splits hashed input files into documents and videos, keeping their order.
pub fn split_by_kind(paths: &Vec<CheckedPath>) -> (r: (Vec<HashedFile>, Vec<HashedFile>))
    requires
        forall|i: int| 0 <= i < paths@.len() ==> (#[trigger] paths@[i]).hash is Some,
    ensures
        r.0@ == kind_files(paths@, Kind::Pdf),
        r.1@ == kind_files(paths@, Kind::Video),
{
    let mut pdfs: Vec<HashedFile> = Vec::new();
    let mut videos: Vec<HashedFile> = Vec::new();
    let mut i: usize = 0;
    while i < paths.len()
        invariant
            0 <= i <= paths.len(),
            forall|k: int| 0 <= k < paths@.len() ==> (#[trigger] paths@[k]).hash is Some,
            pdfs@ == kind_files(paths@.take(i as int), Kind::Pdf),
            videos@ == kind_files(paths@.take(i as int), Kind::Video),
        decreases paths.len() - i,
    {
        proof {
            assert(paths@.take(i + 1).drop_last() =~= paths@.take(i as int));
        }
        let p = &paths[i];
        let hash = match &p.hash {
            Some(h) => h.clone(),
            None => String::new(),
        };
        let file = HashedFile { path: p.path.clone(), hash };
        match p.kind {
            Kind::Pdf => pdfs.push(file),
            Kind::Video => videos.push(file),
        }
        i += 1;
    }
    assert(paths@.take(paths.len() as int) =~= paths@);
    (pdfs, videos)
}

/// The files of kind `kind` among `paths`, in order, with their hashes.
pub open spec fn kind_files(paths: Seq<CheckedPath>, kind: Kind) -> Seq<HashedFile>
    decreases paths.len(),
{
    if paths.len() == 0 {
        Seq::empty()
    } else if paths.last().kind == kind {
        kind_files(paths.drop_last(), kind).push(
            HashedFile { path: paths.last().path, hash: paths.last().hash->0 },
        )
    } else {
        kind_files(paths.drop_last(), kind)
    }
}

/// Drops each file whose hash equals that of the file just before it.
pub fn dedup_by_hash(files: &Vec<HashedFile>) -> (r: Vec<HashedFile>)
    ensures
        r@ == dedup_files(files@),
{
    let mut r: Vec<HashedFile> = Vec::new();
    let mut i: usize = 0;
    while i < files.len()
        invariant
            0 <= i <= files.len(),
            r@ == dedup_files(files@.take(i as int)),
        decreases files.len() - i,
    {
        proof {
            assert(files@.take(i + 1).drop_last() =~= files@.take(i as int));
        }
        if i == 0 {
            r.push(files[i].duplicate());
            assert(r@ =~= files@.take(1));
        } else if !(files[i - 1].hash == files[i].hash) {
            r.push(files[i].duplicate());
        }
        i += 1;
    }
    assert(files@.take(files.len() as int) =~= files@);
    r
}

/// `files` without each file whose hash equals that of the file just before it.
pub open spec fn dedup_files(files: Seq<HashedFile>) -> Seq<HashedFile>
    decreases files.len(),
{
    if files.len() <= 1 {
        files
    } else if files.last().hash@ == files[files.len() - 2].hash@ {
        dedup_files(files.drop_last())
    } else {
        dedup_files(files.drop_last()).push(files.last())
    }
}

} // verus!
