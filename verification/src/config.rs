//! Where the files of a project are, and how the paths that the tool works
//! with are put together.
//!
//! Paths are raw bytes with `/` between their parts. A path is absolute
//! where it begins with `/`.

use crate::bytes::{append, append_text, copy_bytes, text};
use crate::sums::{signature, Checksums};
use vstd::prelude::*;
use vstd::utf8::encode_utf8;

verus! {

/// The byte that separates the parts of a path.
pub const SEPARATOR: u8 = 0x2F;

/// The byte that ends a name in the output of the watch program.
pub const NUL: u8 = 0x00;

/// The texts shown to the user.
#[derive(Debug, PartialEq, Eq)]
pub struct Messages {
    /// The command that tells a newcomer how to get started.
    pub getting_started: String,
}

impl Default for Messages {
    fn default() -> (messages: Self)
        ensures
            messages.getting_started@ == "aide --help"@,
    {
        Messages { getting_started: "aide --help".to_string() }
    }
}

/// The directory from which the outside environment is taken, relative to
/// the build directory.
#[derive(Debug, PartialEq, Eq)]
pub struct ParentDir(pub Vec<u8>);

impl Default for ParentDir {
    fn default() -> (dir: Self)
        ensures
            dir.0@ == text(".."),
    {
        let mut path: Vec<u8> = Vec::new();
        append_text(&mut path, "..");
        assert(path@ =~= text(".."));
        ParentDir(path)
    }
}

/// The places of one project.
#[derive(Debug, PartialEq, Eq)]
pub struct Config {
    /// The directory that holds the configuration file.
    pub build_dir: Vec<u8>,
    /// The directory in which cache records are kept.
    pub cache_dir: Vec<u8>,
    /// The program that builds the environment.
    pub build_exe: Vec<u8>,
    /// The program that lists the files to watch.
    pub watch_exe: Vec<u8>,
    /// The `direnv` program.
    pub direnv_exe: Vec<u8>,
    /// The directory from which the outside environment is taken.
    pub parent_dir: Vec<u8>,
    /// This program.
    pub self_exe: Vec<u8>,
    /// The texts shown to the user.
    pub messages: Messages,
}

/// The path begins at the root.
pub open spec fn is_absolute(path: Seq<u8>) -> bool {
    path.len() > 0 && path[0] == SEPARATOR
}

/// `path` as seen from `base`: `path` itself where it is absolute, else
/// `base` and `path` with one separator between them, unless `base` is
/// empty or ends with one.
pub open spec fn joined(base: Seq<u8>, path: Seq<u8>) -> Seq<u8> {
    if is_absolute(path) {
        path
    } else if base.len() == 0 || base.last() == SEPARATOR {
        base + path
    } else {
        base + seq![SEPARATOR] + path
    }
}

/// `path` without what a walk through its parts skips at its front:
/// separators, and parts that are a single dot.
pub open spec fn trimmed(path: Seq<u8>) -> Seq<u8>
    decreases path.len(),
{
    if path.len() > 0 && path[0] == SEPARATOR {
        trimmed(path.skip(1))
    } else if path.len() > 0 && path[0] == 0x2E && (path.len() == 1 || path[1] == SEPARATOR) {
        trimmed(path.skip(1))
    } else {
        path
    }
}

/// The first part of the path is a tilde and nothing else.
pub open spec fn begins_with_tilde(path: Seq<u8>) -> bool {
    path.len() > 0 && path[0] == 0x7E && (path.len() == 1 || path[1] == SEPARATOR)
}

/// `path` with a tilde as its first part replaced by `home`; any other path
/// as it is.
pub open spec fn expanded(path: Seq<u8>, home: Seq<u8>) -> Seq<u8> {
    if begins_with_tilde(path) {
        joined(home, trimmed(path.skip(1)))
    } else {
        path
    }
}

/// What reading the output of the watch program has gathered: the names
/// that are complete, and the bytes of the name that is being read.
pub open spec fn scanned(output: Seq<u8>) -> (Seq<Seq<u8>>, Seq<u8>)
    decreases output.len(),
{
    if output.len() == 0 {
        (Seq::empty(), Seq::empty())
    } else {
        let (names, current) = scanned(output.drop_last());
        if output.last() != NUL {
            (names, current.push(output.last()))
        } else if current.len() > 0 {
            (names.push(current), Seq::empty())
        } else {
            (names, current)
        }
    }
}

/// The names in the output of the watch program: the runs of bytes between
/// its NUL bytes, but for the empty ones.
pub open spec fn names_in(output: Seq<u8>) -> Seq<Seq<u8>> {
    let (names, current) = scanned(output);
    if current.len() > 0 {
        names.push(current)
    } else {
        names
    }
}

/// A list of paths as byte sequences.
pub open spec fn path_views(paths: Seq<Vec<u8>>) -> Seq<Seq<u8>> {
    paths.map_values(|p: Vec<u8>| p@)
}

/// Joins `path` to `base` as [`joined`] says.
pub fn join(base: &[u8], path: &[u8]) -> (full: Vec<u8>)
    ensures
        full@ == joined(base@, path@),
{
    let mut full: Vec<u8> = Vec::new();
    if path.len() > 0 && path[0] == SEPARATOR {
        append(&mut full, path);
        assert(full@ =~= path@);
    } else {
        append(&mut full, base);
        if base.len() > 0 && base[base.len() - 1] != SEPARATOR {
            full.push(SEPARATOR);
        }
        append(&mut full, path);
        assert(full@ =~= joined(base@, path@));
    }
    full
}

/// Replaces a tilde that is the first part of `path` by `home`.
pub fn expand_path(path: &[u8], home: &[u8]) -> (full: Vec<u8>)
    ensures
        full@ == expanded(path@, home@),
{
    if path.len() > 0 && path[0] == 0x7E && (path.len() == 1 || path[1] == SEPARATOR) {
        let mut i: usize = 1;
        loop
            invariant
                1 <= i <= path.len(),
                trimmed(path@.skip(1)) == trimmed(path@.skip(i as int)),
            ensures
                1 <= i <= path.len(),
                trimmed(path@.skip(1)) == path@.skip(i as int),
            decreases path.len() - i,
        {
            let ghost rest = path@.skip(i as int);
            if i < path.len() {
                assert(rest.skip(1) =~= path@.skip(i + 1));
            }
            if i < path.len() && path[i] == SEPARATOR {
                i += 1;
            } else if i < path.len() && path[i] == 0x2E && (i + 1 == path.len() || path[i + 1]
                == SEPARATOR) {
                i += 1;
            } else {
                break ;
            }
        }
        let rest = vstd::slice::slice_subrange(path, i, path.len());
        assert(rest@ =~= path@.skip(i as int));
        join(home, rest)
    } else {
        copy_bytes(path)
    }
}

impl Config {
    /// `path` as an absolute path, taken from the build directory where it
    /// is relative.
    pub fn abspath(&self, path: &[u8]) -> (full: Vec<u8>)
        ensures
            full@ == joined(self.build_dir@, path@),
    {
        join(self.build_dir.as_slice(), path)
    }

    /// The files to watch, from the output of the watch program: the names
    /// that its NUL bytes separate, the empty ones left out, each taken
    /// from the build directory where it is relative.
    pub fn watch_files(&self, output: &[u8]) -> (files: Vec<Vec<u8>>)
        ensures
            files@.len() == names_in(output@).len(),
            forall|i: int|
                0 <= i < files@.len() ==> (#[trigger] files@[i])@ == joined(
                    self.build_dir@,
                    names_in(output@)[i],
                ),
    {
        let mut files: Vec<Vec<u8>> = Vec::new();
        let mut current: Vec<u8> = Vec::new();
        let mut i: usize = 0;
        assert(output@.take(0) =~= Seq::<u8>::empty());
        while i < output.len()
            invariant
                i <= output.len(),
                current@ == scanned(output@.take(i as int)).1,
                files@.len() == scanned(output@.take(i as int)).0.len(),
                forall|j: int|
                    0 <= j < files@.len() ==> (#[trigger] files@[j])@ == joined(
                        self.build_dir@,
                        scanned(output@.take(i as int)).0[j],
                    ),
            decreases output.len() - i,
        {
            assert(output@.take(i + 1).drop_last() =~= output@.take(i as int));
            if output[i] != NUL {
                current.push(output[i]);
            } else if current.len() > 0 {
                files.push(self.abspath(current.as_slice()));
                current = Vec::new();
            }
            i += 1;
        }
        assert(output@.take(output@.len() as int) =~= output@);
        if current.len() > 0 {
            files.push(self.abspath(current.as_slice()));
        }
        files
    }

    /// The file that holds the cache record for the given checksums: in the
    /// cache directory, named `cache.` and the signature.
    pub fn cache_file(&self, sums: &Checksums) -> (file: Vec<u8>)
        ensures
            file@ == joined(self.cache_dir@, text("cache.") + encode_utf8(signature(sums@))),
    {
        let mut name: Vec<u8> = Vec::new();
        append_text(&mut name, "cache.");
        append_text(&mut name, sums.sig().as_str());
        assert(name@ =~= text("cache.") + encode_utf8(signature(sums@)));
        join(self.cache_dir.as_slice(), name.as_slice())
    }

    /// The file that points at the most recent cache record: `cache` in the
    /// cache directory.
    pub fn cache_file_most_recent(&self) -> (file: Vec<u8>)
        ensures
            file@ == joined(self.cache_dir@, text("cache")),
    {
        join(self.cache_dir.as_slice(), "cache".as_bytes())
    }

    /// The log of the builds: `build.log` in the cache directory.
    pub fn build_log_file(&self) -> (file: Vec<u8>)
        ensures
            file@ == joined(self.cache_dir@, text("build.log")),
    {
        join(self.cache_dir.as_slice(), "build.log".as_bytes())
    }
}

} // verus!
