//! The fingerprint of one input file: the hash of its content and the time of
//! its last change.

use crate::text::same_text;
use crate::text::Text;
use sha1::Digest;
use sha1::Sha1;
use vstd::prelude::*;

verus! {

/// The fingerprint of the file at `path`.
#[derive(Debug)]
pub struct File {
    pub path: String,
    pub hash: String,
    pub modified: u128,
}

/// Mathematical model of a `File`.
pub struct FileModel {
    pub path: Text,
    pub hash: Text,
    pub modified: u128,
}

impl View for File {
    type V = FileModel;

    open spec fn view(&self) -> FileModel {
        FileModel { path: self.path@, hash: self.hash@, modified: self.modified }
    }
}

impl Clone for File {
    fn clone(&self) -> (copy: Self)
        ensures
            copy == *self,
    {
        File { path: self.path.clone(), hash: self.hash.clone(), modified: self.modified }
    }
}

impl PartialEq for File {
    fn eq(&self, other: &File) -> (same: bool) {
        same_text(&self.path, &other.path) && same_text(&self.hash, &other.hash) && self.modified
            == other.modified
    }
}

impl vstd::std_specs::cmp::PartialEqSpecImpl for File {
    open spec fn obeys_eq_spec() -> bool {
        true
    }

    /// Two fingerprints are equal where they are of the same path and agree
    /// in hash and time.
    open spec fn eq_spec(&self, other: &File) -> bool {
        self.path@ == other.path@ && self.hash@ == other.hash@ && self.modified == other.modified
    }
}

/// What was seen of the file at `path` on disk: the time of its last change,
/// and its content where it was read. `None` stands for what could not be had
/// or was not asked for.
#[derive(Debug)]
pub struct FileProbe {
    pub path: String,
    pub modified: Option<u128>,
    pub content: Option<String>,
}

/// Mathematical model of a `FileProbe`.
pub struct ProbeModel {
    pub path: Text,
    pub modified: Option<u128>,
    pub content: Option<Text>,
}

impl View for FileProbe {
    type V = ProbeModel;

    open spec fn view(&self) -> ProbeModel {
        ProbeModel {
            path: self.path@,
            modified: self.modified,
            content: match self.content {
                Some(content) => Some(content@),
                None => None,
            },
        }
    }
}

/// A tracked file could not be read or hashed.
#[derive(Debug)]
pub struct FileIOError {
    pub path: String,
}

/// The SHA-1 digest of a content, written as lower-case hexadecimal digits.
pub uninterp spec fn content_digest(content: Seq<char>) -> Seq<char>;

/// Calls `Sha1::digest` of the `sha1` crate on the bytes of the content and
/// writes the digest with `{:x}`. The digest depends on the content alone, so
/// the result is `content_digest` of it.
#[verifier::external_body]
pub(crate) fn digest_hex(content: &String) -> (hex: String)
    ensures
        hex@ == content_digest(content@),
{
    let digest = Sha1::digest(content.as_bytes());
    format!("{:x}", digest)
}

/// The fingerprint of a file that was not tracked before, or `None` where the
/// probe lacks its time or its content.
pub open spec fn fresh_model(path: Text, probe: ProbeModel) -> Option<FileModel> {
    match (probe.modified, probe.content) {
        (Some(modified), Some(content)) => Some(
            FileModel { path, hash: content_digest(content), modified },
        ),
        _ => None,
    }
}

/// What a probe makes of a tracked file: whether its content changed, and its
/// fingerprint now. An unchanged time keeps the fingerprint and asks for no
/// content; a changed time takes the new hash, and only a changed hash makes
/// the file dirty. `None` where the probe lacks what is needed.
pub open spec fn rechecked_model(known: FileModel, probe: ProbeModel) -> Option<(bool, FileModel)> {
    match probe.modified {
        None => None,
        Some(modified) => if modified == known.modified {
            Some((false, known))
        } else {
            match probe.content {
                None => None,
                Some(content) => Some(
                    (
                        content_digest(content) != known.hash,
                        FileModel { path: known.path, hash: content_digest(content), modified },
                    ),
                ),
            }
        },
    }
}

impl File {
    /// The fingerprint of the file at `path` with the given content, last
    /// changed at `modified`.
    pub fn new(path: String, content: &String, modified: u128) -> (file: File)
        ensures
            file@ == (FileModel { path: path@, hash: content_digest(content@), modified }),
    {
        File { path, hash: digest_hex(content), modified }
    }

    /// Whether the content must be read to recheck this file: only where the
    /// time of its last change is no longer the recorded one.
    pub fn needs_content(&self, modified: u128) -> (needed: bool)
        ensures
            needed == (modified != self.modified),
    {
        modified != self.modified
    }

    /// The fingerprint of a file that was not tracked before.
    pub fn fresh(path: &String, probe: &FileProbe) -> (result: Result<File, FileIOError>)
        ensures
            match result {
                Ok(file) => fresh_model(path@, probe@) == Some(file@),
                Err(e) => fresh_model(path@, probe@) is None && e.path@ == path@,
            },
    {
        match probe.modified {
            Some(modified) => match &probe.content {
                Some(content) => Ok(File::new(path.clone(), content, modified)),
                None => Err(FileIOError { path: path.clone() }),
            },
            None => Err(FileIOError { path: path.clone() }),
        }
    }

    /// Rechecks a tracked file against what was seen on disk.
    pub fn invalidate(&self, probe: &FileProbe) -> (result: Result<(bool, File), FileIOError>)
        ensures
            match result {
                Ok((dirty, file)) => rechecked_model(self@, probe@) == Some((dirty, file@)),
                Err(e) => rechecked_model(self@, probe@) is None && e.path@ == self.path@,
            },
    {
        match probe.modified {
            None => Err(FileIOError { path: self.path.clone() }),
            Some(modified) => {
                if modified == self.modified {
                    Ok((false, self.clone()))
                } else {
                    match &probe.content {
                        None => Err(FileIOError { path: self.path.clone() }),
                        Some(content) => {
                            let file = File::new(self.path.clone(), content, modified);
                            let dirty = !same_text(&file.hash, &self.hash);
                            Ok((dirty, file))
                        },
                    }
                }
            },
        }
    }
}

} // verus!
