//! The entry model: one record per visited path, the completed scan
//! snapshot, and the live progress counters.

use vstd::prelude::*;

use crate::clip64;
use crate::paths::{extension_of, name_of, parent_of};

verus! {

/// One file or directory produced by a walk.
pub struct FileEntry {
    pub path: String,
    pub name: String,
    pub size: u64,
    pub is_directory: bool,
    /// Last modification, as whole seconds since the Unix epoch, UTC.
    pub modified: i64,
    pub extension: Option<String>,
    pub parent: Option<String>,
    pub children: Vec<String>,
}

/// The mathematical shadow of a `FileEntry`.
pub struct FileEntryV {
    pub path: Seq<char>,
    pub name: Seq<char>,
    pub size: u64,
    pub is_directory: bool,
    pub modified: i64,
    pub extension: Option<Seq<char>>,
    pub parent: Option<Seq<char>>,
    pub children: Seq<Seq<char>>,
}

impl View for FileEntry {
    type V = FileEntryV;

    open spec fn view(&self) -> FileEntryV {
        FileEntryV {
            path: self.path@,
            name: self.name@,
            size: self.size,
            is_directory: self.is_directory,
            modified: self.modified,
            extension: match self.extension {
                Option::Some(e) => Some(e@),
                Option::None => None,
            },
            parent: match self.parent {
                Option::Some(p) => Some(p@),
                Option::None => None,
            },
            children: self.children@.map_values(|c: String| c@),
        }
    }
}

/// The views of a sequence of entries.
pub open spec fn views(s: Seq<FileEntry>) -> Seq<FileEntryV> {
    s.map_values(|e: FileEntry| e@)
}

/// An entry's derived fields agree with its path.
pub open spec fn entry_wf(e: FileEntryV) -> bool {
    &&& e.name == name_of(e.path)
    &&& e.parent == parent_of(e.path)
    &&& e.extension == extension_of(e.path)
}

/// No two entries share a path: the walk visits each path at most once.
pub open spec fn unique_paths(s: Seq<FileEntryV>) -> bool {
    forall|i: int, j: int| 0 <= i < j < s.len() ==> s[i].path != s[j].path
}

/// Number of non-directory entries.
pub open spec fn num_files(s: Seq<FileEntryV>) -> nat
    decreases s.len(),
{
    if s.len() == 0 {
        0
    } else {
        num_files(s.drop_last()) + if s.last().is_directory {
            0nat
        } else {
            1nat
        }
    }
}

/// Number of directory entries.
pub open spec fn num_dirs(s: Seq<FileEntryV>) -> nat
    decreases s.len(),
{
    if s.len() == 0 {
        0
    } else {
        num_dirs(s.drop_last()) + if s.last().is_directory {
            1nat
        } else {
            0nat
        }
    }
}

/// Sum of the byte sizes of the non-directory entries.
pub open spec fn file_size_sum(s: Seq<FileEntryV>) -> int
    decreases s.len(),
{
    if s.len() == 0 {
        0
    } else {
        file_size_sum(s.drop_last()) + if s.last().is_directory {
            0int
        } else {
            s.last().size as int
        }
    }
}

impl FileEntry {
    /// Builds the record for one visited path. A directory starts at size 0;
    /// aggregation rewrites it later.
    pub fn new(path: String, size: u64, is_directory: bool, modified: i64) -> (e: FileEntry)
        ensures
            e@ == (FileEntryV {
                path: path@,
                name: name_of(path@),
                size: if is_directory {
                    0u64
                } else {
                    size
                },
                is_directory,
                modified,
                extension: extension_of(path@),
                parent: parent_of(path@),
                children: Seq::empty(),
            }),
            entry_wf(e@),
    {
        let (parent, name) = crate::paths::split_path(path.as_str());
        let extension = crate::paths::get_extension(path.as_str());
        let e = FileEntry {
            path,
            name,
            size: if is_directory {
                0
            } else {
                size
            },
            is_directory,
            modified,
            extension,
            parent,
            children: Vec::new(),
        };
        proof {
            assert(e@.children =~= Seq::<Seq<char>>::empty());
        }
        e
    }
}

/// Clones an optional string, keeping its view.
pub(crate) fn clone_opt_string(o: &Option<String>) -> (r: Option<String>)
    ensures
        r == *o,
{
    match o {
        Option::Some(s) => Some(s.clone()),
        Option::None => None,
    }
}

/// Clones a vector of strings, keeping its view.
pub(crate) fn clone_string_vec(v: &Vec<String>) -> (r: Vec<String>)
    ensures
        r@ =~= v@,
{
    let mut r: Vec<String> = Vec::new();
    let mut i: usize = 0;
    while i < v.len()
        invariant
            i <= v@.len(),
            r@ =~= v@.take(i as int),
        decreases v@.len() - i,
    {
        r.push(v[i].clone());
        proof {
            assert(v@.take(i as int).push(v@[i as int]) =~= v@.take(i as int + 1));
        }
        i = i + 1;
    }
    proof {
        assert(v@.take(v@.len() as int) =~= v@);
    }
    r
}

impl Clone for FileEntry {
    fn clone(&self) -> (res: Self)
        ensures
            res@ == self@,
    {
        let res = FileEntry {
            path: self.path.clone(),
            name: self.name.clone(),
            size: self.size,
            is_directory: self.is_directory,
            modified: self.modified,
            extension: clone_opt_string(&self.extension),
            parent: clone_opt_string(&self.parent),
            children: clone_string_vec(&self.children),
        };
        res
    }
}

/// The completed, immutable snapshot of one scan.
pub struct ScanResult {
    pub root_path: String,
    pub total_size: u64,
    pub file_count: u64,
    pub dir_count: u64,
    pub entries: Vec<FileEntry>,
    /// Wall-clock length of the scan, in milliseconds.
    pub scan_duration: u64,
    /// Completion instant, as whole seconds since the Unix epoch, UTC.
    pub scan_time: i64,
}

/// What every consumer may assume of a completed scan: derived fields agree
/// with paths, paths are unique, and the counters match the entry list. The
/// size total counts every recorded file, orphans whose parent directory
/// was skipped included; it equals the root's aggregated size exactly when
/// the arena is complete (see `complete_arena` and `finish`).
pub open spec fn scan_wf(sr: ScanResult) -> bool {
    &&& forall|i: int| 0 <= i < sr.entries@.len() ==> entry_wf(#[trigger] views(sr.entries@)[i])
    &&& unique_paths(views(sr.entries@))
    &&& sr.file_count == num_files(views(sr.entries@))
    &&& sr.dir_count == num_dirs(views(sr.entries@))
    &&& sr.total_size == clip64(file_size_sum(views(sr.entries@)))
}

/// Live progress of a running scan, readable from the interactive side.
pub struct ScanProgress {
    pub current_path: String,
    pub files_scanned: u64,
    pub total_files: Option<u64>,
    pub bytes_scanned: u64,
    pub is_complete: bool,
    pub error_count: u64,
}

impl Default for ScanProgress {
    /// An idle progress record: nothing visited, nothing read, not complete.
    fn default() -> (r: Self)
        ensures
            r.current_path@ == Seq::<char>::empty(),
            r.files_scanned == 0,
            r.total_files is None,
            r.bytes_scanned == 0,
            !r.is_complete,
            r.error_count == 0,
    {
        ScanProgress {
            current_path: String::new(),
            files_scanned: 0,
            total_files: None,
            bytes_scanned: 0,
            is_complete: false,
            error_count: 0,
        }
    }
}

impl ScanProgress {
    /// Notes one more visited path.
    pub fn on_visit(&mut self, path: String)
        requires
            old(self).files_scanned < u64::MAX,
        ensures
            final(self).current_path@ == path@,
            final(self).files_scanned == old(self).files_scanned + 1,
            final(self).total_files == old(self).total_files,
            final(self).bytes_scanned == old(self).bytes_scanned,
            final(self).is_complete == old(self).is_complete,
            final(self).error_count == old(self).error_count,
    {
        self.current_path = path;
        self.files_scanned = self.files_scanned + 1;
    }

    /// Notes the bytes of one successfully read file, saturating at the top
    /// of the counter's range.
    pub fn on_file(&mut self, size: u64)
        ensures
            final(self).bytes_scanned == clip64(old(self).bytes_scanned + size),
            final(self).current_path == old(self).current_path,
            final(self).files_scanned == old(self).files_scanned,
            final(self).total_files == old(self).total_files,
            final(self).is_complete == old(self).is_complete,
            final(self).error_count == old(self).error_count,
    {
        if self.bytes_scanned <= u64::MAX - size {
            self.bytes_scanned = self.bytes_scanned + size;
        } else {
            self.bytes_scanned = u64::MAX;
        }
    }

    /// Notes one skipped path whose metadata could not be read.
    pub fn on_error(&mut self)
        requires
            old(self).error_count < u64::MAX,
        ensures
            final(self).error_count == old(self).error_count + 1,
            final(self).current_path == old(self).current_path,
            final(self).files_scanned == old(self).files_scanned,
            final(self).total_files == old(self).total_files,
            final(self).bytes_scanned == old(self).bytes_scanned,
            final(self).is_complete == old(self).is_complete,
    {
        self.error_count = self.error_count + 1;
    }

    /// Marks the scan finished.
    pub fn mark_complete(&mut self)
        ensures
            final(self).is_complete,
            final(self).current_path == old(self).current_path,
            final(self).files_scanned == old(self).files_scanned,
            final(self).total_files == old(self).total_files,
            final(self).bytes_scanned == old(self).bytes_scanned,
            final(self).error_count == old(self).error_count,
    {
        self.is_complete = true;
    }
}

} // verus!
