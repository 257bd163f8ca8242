//! Analysis over a completed scan: classification by extension, size-bucket
//! duplicate candidates, and largest/oldest rankings. Every pass is re-run
//! from scratch against the immutable snapshot; nothing is incremental.

use vstd::prelude::*;

use crate::clip64;
use crate::entry::{unique_paths, views, FileEntry, FileEntryV, ScanResult};
use crate::paths::{contains_seq, lower_seq, to_lower};
use crate::sorting::{
    entry_le, sort_entries, sorted_entries, EntryOrder,
};

verus! {

/// The closed set of buckets a file can classify into.
#[derive(Debug, Clone, Copy, PartialEq, Eq, Hash, Structural)]
pub enum FileCategory {
    Documents,
    Images,
    Videos,
    Audio,
    Archives,
    Executables,
    Code,
    Data,
    System,
    Hidden,
    Temporary,
    Other,
}

/// One row of the static extension table.
pub struct FileTypeInfo {
    pub category: FileCategory,
    pub extensions: Vec<String>,
    pub description: String,
}

/// The mathematical shadow of a table row.
pub struct FileTypeInfoV {
    pub category: FileCategory,
    pub extensions: Seq<Seq<char>>,
    pub description: Seq<char>,
}

impl View for FileTypeInfo {
    type V = FileTypeInfoV;

    open spec fn view(&self) -> FileTypeInfoV {
        FileTypeInfoV {
            category: self.category,
            extensions: self.extensions@.map_values(|e: String| e@),
            description: self.description@,
        }
    }
}

/// The views of a table.
pub open spec fn ft_views(s: Seq<FileTypeInfo>) -> Seq<FileTypeInfoV> {
    s.map_values(|r: FileTypeInfo| r@)
}

/// Criteria a display layer may narrow an analysis by.
pub struct AnalysisFilters {
    pub min_size: Option<u64>,
    pub max_size: Option<u64>,
    pub categories: Vec<FileCategory>,
    pub extensions: Vec<String>,
    pub show_hidden: bool,
    pub show_system: bool,
}

impl Default for AnalysisFilters {
    /// No narrowing at all: every entry passes.
    fn default() -> (r: Self)
        ensures
            r.min_size is None,
            r.max_size is None,
            r.categories@.len() == 0,
            r.extensions@.len() == 0,
            !r.show_hidden,
            !r.show_system,
    {
        AnalysisFilters {
            min_size: None,
            max_size: None,
            categories: Vec::new(),
            extensions: Vec::new(),
            show_hidden: false,
            show_system: false,
        }
    }
}

/// Files sharing one exact byte size: duplicate candidates, nothing more.
pub struct DuplicateGroup {
    pub size: u64,
    pub paths: Vec<String>,
}

/// The mathematical shadow of a candidate group.
pub struct DuplicateGroupV {
    pub size: u64,
    pub paths: Seq<Seq<char>>,
}

impl View for DuplicateGroup {
    type V = DuplicateGroupV;

    open spec fn view(&self) -> DuplicateGroupV {
        DuplicateGroupV { size: self.size, paths: self.paths@.map_values(|p: String| p@) }
    }
}

impl Clone for DuplicateGroup {
    fn clone(&self) -> (res: Self)
        ensures
            res@ == self@,
    {
        let res = DuplicateGroup {
            size: self.size,
            paths: crate::entry::clone_string_vec(&self.paths),
        };
        res
    }
}

/// The views of a group list.
pub open spec fn group_views(s: Seq<DuplicateGroup>) -> Seq<DuplicateGroupV> {
    s.map_values(|g: DuplicateGroup| g@)
}

pub open spec fn file_type_table() -> Seq<FileTypeInfoV> {
    seq![
        FileTypeInfoV {
            category: FileCategory::Documents,
            extensions: seq!["pdf"@, "doc"@, "docx"@, "txt"@, "rtf"@, "odt"@, "pages"@, "xls"@, "xlsx"@, "csv"@, "ods"@, "numbers"@, "ppt"@, "pptx"@, "key"@, "md"@, "tex"@, "epub"@, "mobi"@],
            description: "Documents and Office files"@,
        },
        FileTypeInfoV {
            category: FileCategory::Images,
            extensions: seq!["jpg"@, "jpeg"@, "png"@, "gif"@, "bmp"@, "tiff"@, "svg"@, "webp"@, "raw"@, "ico"@, "psd"@, "ai"@, "eps"@],
            description: "Image files"@,
        },
        FileTypeInfoV {
            category: FileCategory::Videos,
            extensions: seq!["mp4"@, "avi"@, "mkv"@, "mov"@, "wmv"@, "flv"@, "m4v"@, "mpg"@, "mpeg"@, "webm"@, "3gp"@, "m2ts"@],
            description: "Video files"@,
        },
        FileTypeInfoV {
            category: FileCategory::Audio,
            extensions: seq!["mp3"@, "wav"@, "flac"@, "aac"@, "ogg"@, "wma"@, "m4a"@, "opus"@, "aiff"@, "alac"@],
            description: "Audio files"@,
        },
        FileTypeInfoV {
            category: FileCategory::Archives,
            extensions: seq!["zip"@, "rar"@, "7z"@, "tar"@, "gz"@, "bz2"@, "xz"@, "iso"@, "dmg"@, "pkg"@, "deb"@, "rpm"@],
            description: "Archive files"@,
        },
        FileTypeInfoV {
            category: FileCategory::Executables,
            extensions: seq!["exe"@, "dll"@, "so"@, "dylib"@, "app"@, "msi"@, "bat"@, "sh"@, "bin"@, "jar"@, "apk"@, "ipa"@],
            description: "Executable files"@,
        },
        FileTypeInfoV {
            category: FileCategory::Code,
            extensions: seq!["rs"@, "py"@, "js"@, "ts"@, "java"@, "cpp"@, "c"@, "h"@, "cs"@, "go"@, "php"@, "rb"@, "swift"@, "kt"@, "scala"@, "html"@, "css"@, "json"@, "xml"@, "yml"@, "yaml"@, "toml"@],
            description: "Source code files"@,
        },
        FileTypeInfoV {
            category: FileCategory::Data,
            extensions: seq!["db"@, "sqlite"@, "sql"@, "mdb"@, "accdb"@, "json"@, "xml"@, "csv"@, "tsv"@, "parquet"@, "feather"@, "hdf5"@],
            description: "Database and data files"@,
        },
    ]
}

/// Builds the static extension table, row order preserved: lookup
/// short-circuits on the first matching row.
fn build_file_types() -> (table: Vec<FileTypeInfo>)
    ensures
        ft_views(table@) == file_type_table(),
{
    let mut table: Vec<FileTypeInfo> = Vec::new();
    let mut exts: Vec<String> = Vec::new();
    exts.push("pdf".to_owned());
    exts.push("doc".to_owned());
    exts.push("docx".to_owned());
    exts.push("txt".to_owned());
    exts.push("rtf".to_owned());
    exts.push("odt".to_owned());
    exts.push("pages".to_owned());
    exts.push("xls".to_owned());
    exts.push("xlsx".to_owned());
    exts.push("csv".to_owned());
    exts.push("ods".to_owned());
    exts.push("numbers".to_owned());
    exts.push("ppt".to_owned());
    exts.push("pptx".to_owned());
    exts.push("key".to_owned());
    exts.push("md".to_owned());
    exts.push("tex".to_owned());
    exts.push("epub".to_owned());
    exts.push("mobi".to_owned());
    let row = FileTypeInfo {
        category: FileCategory::Documents,
        extensions: exts,
        description: "Documents and Office files".to_owned(),
    };
    proof {
        assert(row@.extensions =~= file_type_table()[0].extensions);
        assert(row@ == file_type_table()[0]);
    }
    table.push(row);
    let mut exts: Vec<String> = Vec::new();
    exts.push("jpg".to_owned());
    exts.push("jpeg".to_owned());
    exts.push("png".to_owned());
    exts.push("gif".to_owned());
    exts.push("bmp".to_owned());
    exts.push("tiff".to_owned());
    exts.push("svg".to_owned());
    exts.push("webp".to_owned());
    exts.push("raw".to_owned());
    exts.push("ico".to_owned());
    exts.push("psd".to_owned());
    exts.push("ai".to_owned());
    exts.push("eps".to_owned());
    let row = FileTypeInfo {
        category: FileCategory::Images,
        extensions: exts,
        description: "Image files".to_owned(),
    };
    proof {
        assert(row@.extensions =~= file_type_table()[1].extensions);
        assert(row@ == file_type_table()[1]);
    }
    table.push(row);
    let mut exts: Vec<String> = Vec::new();
    exts.push("mp4".to_owned());
    exts.push("avi".to_owned());
    exts.push("mkv".to_owned());
    exts.push("mov".to_owned());
    exts.push("wmv".to_owned());
    exts.push("flv".to_owned());
    exts.push("m4v".to_owned());
    exts.push("mpg".to_owned());
    exts.push("mpeg".to_owned());
    exts.push("webm".to_owned());
    exts.push("3gp".to_owned());
    exts.push("m2ts".to_owned());
    let row = FileTypeInfo {
        category: FileCategory::Videos,
        extensions: exts,
        description: "Video files".to_owned(),
    };
    proof {
        assert(row@.extensions =~= file_type_table()[2].extensions);
        assert(row@ == file_type_table()[2]);
    }
    table.push(row);
    let mut exts: Vec<String> = Vec::new();
    exts.push("mp3".to_owned());
    exts.push("wav".to_owned());
    exts.push("flac".to_owned());
    exts.push("aac".to_owned());
    exts.push("ogg".to_owned());
    exts.push("wma".to_owned());
    exts.push("m4a".to_owned());
    exts.push("opus".to_owned());
    exts.push("aiff".to_owned());
    exts.push("alac".to_owned());
    let row = FileTypeInfo {
        category: FileCategory::Audio,
        extensions: exts,
        description: "Audio files".to_owned(),
    };
    proof {
        assert(row@.extensions =~= file_type_table()[3].extensions);
        assert(row@ == file_type_table()[3]);
    }
    table.push(row);
    let mut exts: Vec<String> = Vec::new();
    exts.push("zip".to_owned());
    exts.push("rar".to_owned());
    exts.push("7z".to_owned());
    exts.push("tar".to_owned());
    exts.push("gz".to_owned());
    exts.push("bz2".to_owned());
    exts.push("xz".to_owned());
    exts.push("iso".to_owned());
    exts.push("dmg".to_owned());
    exts.push("pkg".to_owned());
    exts.push("deb".to_owned());
    exts.push("rpm".to_owned());
    let row = FileTypeInfo {
        category: FileCategory::Archives,
        extensions: exts,
        description: "Archive files".to_owned(),
    };
    proof {
        assert(row@.extensions =~= file_type_table()[4].extensions);
        assert(row@ == file_type_table()[4]);
    }
    table.push(row);
    let mut exts: Vec<String> = Vec::new();
    exts.push("exe".to_owned());
    exts.push("dll".to_owned());
    exts.push("so".to_owned());
    exts.push("dylib".to_owned());
    exts.push("app".to_owned());
    exts.push("msi".to_owned());
    exts.push("bat".to_owned());
    exts.push("sh".to_owned());
    exts.push("bin".to_owned());
    exts.push("jar".to_owned());
    exts.push("apk".to_owned());
    exts.push("ipa".to_owned());
    let row = FileTypeInfo {
        category: FileCategory::Executables,
        extensions: exts,
        description: "Executable files".to_owned(),
    };
    proof {
        assert(row@.extensions =~= file_type_table()[5].extensions);
        assert(row@ == file_type_table()[5]);
    }
    table.push(row);
    let mut exts: Vec<String> = Vec::new();
    exts.push("rs".to_owned());
    exts.push("py".to_owned());
    exts.push("js".to_owned());
    exts.push("ts".to_owned());
    exts.push("java".to_owned());
    exts.push("cpp".to_owned());
    exts.push("c".to_owned());
    exts.push("h".to_owned());
    exts.push("cs".to_owned());
    exts.push("go".to_owned());
    exts.push("php".to_owned());
    exts.push("rb".to_owned());
    exts.push("swift".to_owned());
    exts.push("kt".to_owned());
    exts.push("scala".to_owned());
    exts.push("html".to_owned());
    exts.push("css".to_owned());
    exts.push("json".to_owned());
    exts.push("xml".to_owned());
    exts.push("yml".to_owned());
    exts.push("yaml".to_owned());
    exts.push("toml".to_owned());
    let row = FileTypeInfo {
        category: FileCategory::Code,
        extensions: exts,
        description: "Source code files".to_owned(),
    };
    proof {
        assert(row@.extensions =~= file_type_table()[6].extensions);
        assert(row@ == file_type_table()[6]);
    }
    table.push(row);
    let mut exts: Vec<String> = Vec::new();
    exts.push("db".to_owned());
    exts.push("sqlite".to_owned());
    exts.push("sql".to_owned());
    exts.push("mdb".to_owned());
    exts.push("accdb".to_owned());
    exts.push("json".to_owned());
    exts.push("xml".to_owned());
    exts.push("csv".to_owned());
    exts.push("tsv".to_owned());
    exts.push("parquet".to_owned());
    exts.push("feather".to_owned());
    exts.push("hdf5".to_owned());
    let row = FileTypeInfo {
        category: FileCategory::Data,
        extensions: exts,
        description: "Database and data files".to_owned(),
    };
    proof {
        assert(row@.extensions =~= file_type_table()[7].extensions);
        assert(row@ == file_type_table()[7]);
    }
    table.push(row);
    proof {
        assert(ft_views(table@) =~= file_type_table());
    }
    table
}

/// First-match lookup of a lowercase extension in the table.
pub open spec fn table_lookup(ft: Seq<FileTypeInfoV>, x: Seq<char>) -> Option<FileCategory>
    decreases ft.len(),
{
    if ft.len() == 0 {
        None
    } else if ft[0].extensions.contains(x) {
        Some(ft[0].category)
    } else {
        table_lookup(ft.drop_first(), x)
    }
}

/// Where a file classifies: its extension against the table first, then a
/// hidden-name marker, then build or version-control artifact markers in
/// the path, and `Other` as the rest.
pub open spec fn spec_categorize(ft: Seq<FileTypeInfoV>, e: FileEntryV) -> FileCategory {
    match e.extension {
        Option::Some(x) => match table_lookup(ft, lower_seq(x)) {
            Option::Some(c) => c,
            Option::None => spec_fallback(e),
        },
        Option::None => spec_fallback(e),
    }
}

/// Whether some string of the vector views as `x`.
fn contains_string(v: &Vec<String>, x: &String) -> (r: bool)
    ensures
        r == v@.map_values(|e: String| e@).contains(x@),
{
    let ghost vs = v@.map_values(|e: String| e@);
    let mut k: usize = 0;
    while k < v.len()
        invariant
            vs == v@.map_values(|e: String| e@),
            k <= v@.len(),
            forall|y: int| 0 <= y < k ==> vs[y] != x@,
        decreases v@.len() - k,
    {
        if v[k] == *x {
            proof {
                assert(vs[k as int] == x@);
            }
            return true;
        }
        k = k + 1;
    }
    proof {
        if vs.contains(x@) {
            let y = choose|y: int| 0 <= y < vs.len() && vs[y] == x@;
            assert(false);
        }
    }
    false
}

/// The last-resort classification for files the table does not place.
pub open spec fn spec_fallback(e: FileEntryV) -> FileCategory {
    if e.name.len() > 0 && e.name[0] == '.' {
        FileCategory::Hidden
    } else if contains_seq(e.path, "node_modules"@) || contains_seq(e.path, "target/"@)
        || contains_seq(e.path, ".git/"@) {
        FileCategory::System
    } else {
        FileCategory::Other
    }
}

/// Non-directory entries, in arena order.
pub open spec fn nd_files(s: Seq<FileEntryV>) -> Seq<FileEntryV>
    decreases s.len(),
{
    if s.len() == 0 {
        Seq::empty()
    } else if !s.last().is_directory {
        nd_files(s.drop_last()).push(s.last())
    } else {
        nd_files(s.drop_last())
    }
}

/// Non-directory entries last modified before the cutoff, in arena order.
pub open spec fn old_candidates(s: Seq<FileEntryV>, cutoff: i64) -> Seq<FileEntryV>
    decreases s.len(),
{
    if s.len() == 0 {
        Seq::empty()
    } else if !s.last().is_directory && s.last().modified < cutoff {
        old_candidates(s.drop_last(), cutoff).push(s.last())
    } else {
        old_candidates(s.drop_last(), cutoff)
    }
}

/// Non-directory entries of one exact non-zero byte size, in arena order.
pub open spec fn dup_entries(s: Seq<FileEntryV>, z: u64) -> Seq<FileEntryV>
    decreases s.len(),
{
    if s.len() == 0 {
        Seq::empty()
    } else if !s.last().is_directory && s.last().size == z && z > 0 {
        dup_entries(s.drop_last(), z).push(s.last())
    } else {
        dup_entries(s.drop_last(), z)
    }
}

/// The paths sharing one exact non-zero byte size.
pub open spec fn dup_paths(s: Seq<FileEntryV>, z: u64) -> Seq<Seq<char>> {
    dup_entries(s, z).map_values(|e: FileEntryV| e.path)
}

/// The staleness cutoff: 365 days before the analysis instant.
pub open spec fn cutoff_of(now: i64) -> i64 {
    if now >= i64::MIN + 31536000 {
        (now - 31536000) as i64
    } else {
        i64::MIN
    }
}

/// The smaller of two mathematical integers.
pub open spec fn min_of(a: int, b: int) -> int {
    if a <= b {
        a
    } else {
        b
    }
}

/// What the duplicate cache holds: one group per byte size shared by at
/// least two non-zero-size files, carrying exactly those files' paths.
pub open spec fn dup_cache_ok(s: Seq<FileEntryV>, c: Seq<DuplicateGroupV>) -> bool {
    &&& forall|b: int| 0 <= b < c.len() ==> (#[trigger] c[b]).paths == dup_paths(s, c[b].size)
    &&& forall|b: int| 0 <= b < c.len() ==> (#[trigger] c[b]).paths.len() >= 2
    &&& forall|b1: int, b2: int| 0 <= b1 < b2 < c.len() ==> c[b1].size != c[b2].size
    &&& forall|z: u64| (#[trigger] dup_paths(s, z)).len() >= 2 ==> exists|b: int|
            0 <= b < c.len() && (#[trigger] c[b]).size == z
}

/// The groups that kept at least two members, in order.
pub open spec fn keep_big(c: Seq<DuplicateGroupV>) -> Seq<DuplicateGroupV>
    decreases c.len(),
{
    if c.len() == 0 {
        Seq::empty()
    } else if c.last().paths.len() >= 2 {
        keep_big(c.drop_last()).push(c.last())
    } else {
        keep_big(c.drop_last())
    }
}

/// Every kept group stems from the raw bucket list.
pub proof fn lemma_keep_big_elems(c: Seq<DuplicateGroupV>)
    ensures
        forall|x: DuplicateGroupV|
            keep_big(c).contains(x) ==> c.contains(x) && x.paths.len() >= 2,
        forall|b: int|
            0 <= b < c.len() && (#[trigger] c[b]).paths.len() >= 2 ==> keep_big(c).contains(c[b]),
    decreases c.len(),
{
    broadcast use vstd::seq_lib::group_seq_properties;

    if c.len() > 0 {
        lemma_keep_big_elems(c.drop_last());
        assert forall|x: DuplicateGroupV| keep_big(c).contains(x) implies c.contains(x)
            && x.paths.len() >= 2 by {
            if keep_big(c.drop_last()).contains(x) {
                assert(c.drop_last().contains(x));
                let i = choose|i: int| 0 <= i < c.drop_last().len() && c.drop_last()[i] == x;
                assert(c[i] == x);
            } else {
                assert(c[c.len() - 1] == x);
            }
        }
        assert forall|b: int|
            0 <= b < c.len() && (#[trigger] c[b]).paths.len() >= 2 implies keep_big(c).contains(
            c[b],
        ) by {
            if b < c.len() - 1 {
                assert(c.drop_last()[b] == c[b]);
                assert(keep_big(c.drop_last()).contains(c[b]));
                if c.last().paths.len() >= 2 {
                    vstd::seq_lib::lemma_seq_contains_after_push(
                        keep_big(c.drop_last()),
                        c.last(),
                        c[b],
                    );
                }
            } else {
                assert(keep_big(c).last() == c[b]);
            }
        }
    }
}

/// Filtering a sound raw bucket list to its real candidates yields a sound
/// duplicate cache.
pub proof fn lemma_keep_big_ok(s: Seq<FileEntryV>, c: Seq<DuplicateGroupV>)
    requires
        forall|b: int| 0 <= b < c.len() ==> (#[trigger] c[b]).paths == dup_paths(s, c[b].size),
        forall|b1: int, b2: int| 0 <= b1 < b2 < c.len() ==> c[b1].size != c[b2].size,
        forall|z: u64|
            (#[trigger] dup_paths(s, z)).len() >= 1 ==> exists|b: int|
                0 <= b < c.len() && (#[trigger] c[b]).size == z,
    ensures
        dup_cache_ok(s, keep_big(c)),
{
    let k = keep_big(c);
    lemma_keep_big_elems(c);
    assert forall|b: int|
        0 <= b < k.len() implies (#[trigger] k[b]).paths == dup_paths(s, k[b].size) && k[b].paths.len()
        >= 2 by {
        assert(keep_big(c).contains(k[b]));
        assert(c.contains(k[b]));
        let i = choose|i: int| 0 <= i < c.len() && c[i] == k[b];
        assert(c[i].paths == dup_paths(s, c[i].size));
    }
    assert forall|b1: int, b2: int| 0 <= b1 < b2 < k.len() implies k[b1].size != k[b2].size by {
        assert(keep_big(c).contains(k[b1]));
        assert(keep_big(c).contains(k[b2]));
        assert(c.contains(k[b1]));
        assert(c.contains(k[b2]));
        let i1 = choose|i1: int| 0 <= i1 < c.len() && c[i1] == k[b1];
        let i2 = choose|i2: int| 0 <= i2 < c.len() && c[i2] == k[b2];
        if k[b1].size == k[b2].size {
            if i1 < i2 {
                assert(c[i1].size != c[i2].size);
            } else if i2 < i1 {
                assert(c[i2].size != c[i1].size);
            } else {
                assert(k[b1] == k[b2]);
                assert(k[b1].paths == dup_paths(s, k[b1].size));
                // two positions holding one group: impossible once sizes
                // pin positions, shown below by distinctness of b1 and b2
                lemma_keep_big_no_dup(c);
                assert(false);
            }
        }
    }
    assert forall|z: u64| (#[trigger] dup_paths(s, z)).len() >= 2 implies exists|b: int|
        0 <= b < k.len() && (#[trigger] k[b]).size == z by {
        assert(dup_paths(s, z).len() >= 1);
        let b0 = choose|b0: int| 0 <= b0 < c.len() && (#[trigger] c[b0]).size == z;
        assert(c[b0].paths == dup_paths(s, z));
        assert(c[b0].paths.len() >= 2);
        assert(k.contains(c[b0]));
        let bk = choose|bk: int| 0 <= bk < k.len() && k[bk] == c[b0];
        assert(k[bk].size == z);
    }
}

/// With pairwise distinct sizes the kept list holds no group twice.
pub proof fn lemma_keep_big_no_dup(c: Seq<DuplicateGroupV>)
    requires
        forall|b1: int, b2: int| 0 <= b1 < b2 < c.len() ==> c[b1].size != c[b2].size,
    ensures
        forall|b1: int, b2: int|
            0 <= b1 < b2 < keep_big(c).len() ==> keep_big(c)[b1] != keep_big(c)[b2],
    decreases c.len(),
{
    broadcast use vstd::seq_lib::group_seq_properties;

    if c.len() > 0 {
        assert(forall|b1: int, b2: int|
            0 <= b1 < b2 < c.drop_last().len() ==> c.drop_last()[b1].size
                != c.drop_last()[b2].size);
        lemma_keep_big_no_dup(c.drop_last());
        lemma_keep_big_elems(c.drop_last());
        if c.last().paths.len() >= 2 {
            assert forall|b1: int, b2: int|
                0 <= b1 < b2 < keep_big(c).len() implies keep_big(c)[b1] != keep_big(c)[b2] by {
                let kd = keep_big(c.drop_last());
                if b2 == keep_big(c).len() - 1 {
                    assert(keep_big(c)[b1] == kd[b1]);
                    assert(kd.contains(kd[b1]));
                    assert(keep_big(c.drop_last()).contains(kd[b1]));
                    assert(c.drop_last().contains(kd[b1]));
                    let i = choose|i: int| 0 <= i < c.drop_last().len() && c.drop_last()[i] == kd[b1];
                    assert(0 <= i < c.len() - 1);
                    assert(c[i] == c.drop_last()[i]);
                    assert(c[i].size != c[c.len() - 1].size);
                    assert(keep_big(c)[b2] == c[c.len() - 1]);
                } else {
                    assert(keep_big(c)[b1] == kd[b1]);
                    assert(keep_big(c)[b2] == kd[b2]);
                }
            }
        }
    }
}

/// Elements of `nd_files` are non-directory entries of the arena.
pub proof fn lemma_nd_files_elems(s: Seq<FileEntryV>)
    ensures
        forall|x: FileEntryV|
            #[trigger] nd_files(s).contains(x) ==> s.contains(x) && !x.is_directory,
        nd_files(s).len() <= s.len(),
    decreases s.len(),
{
    broadcast use vstd::seq_lib::group_seq_properties;

    if s.len() > 0 {
        lemma_nd_files_elems(s.drop_last());
        assert forall|x: FileEntryV| nd_files(s).contains(x) implies s.contains(x)
            && !x.is_directory by {
            if nd_files(s.drop_last()).contains(x) {
                assert(s.drop_last().contains(x));
                let i = choose|i: int| 0 <= i < s.drop_last().len() && s.drop_last()[i] == x;
                assert(s[i] == x);
            } else {
                assert(!s.last().is_directory && x == s.last());
                assert(s[s.len() - 1] == x);
            }
        }
    }
}

/// Elements of `old_candidates` are old non-directory entries of the arena.
pub proof fn lemma_old_candidates_elems(s: Seq<FileEntryV>, cutoff: i64)
    ensures
        forall|x: FileEntryV|
            #[trigger] old_candidates(s, cutoff).contains(x) ==> s.contains(x) && !x.is_directory
                && x.modified < cutoff,
    decreases s.len(),
{
    broadcast use vstd::seq_lib::group_seq_properties;

    if s.len() > 0 {
        lemma_old_candidates_elems(s.drop_last(), cutoff);
        assert forall|x: FileEntryV| old_candidates(s, cutoff).contains(x) implies s.contains(x)
            && !x.is_directory && x.modified < cutoff by {
            if old_candidates(s.drop_last(), cutoff).contains(x) {
                assert(s.drop_last().contains(x));
                let i = choose|i: int| 0 <= i < s.drop_last().len() && s.drop_last()[i] == x;
                assert(s[i] == x);
            } else {
                assert(s[s.len() - 1] == x);
            }
        }
    }
}

/// In an arena with unique paths, an entry is determined by its path.
pub proof fn lemma_unique_path_eq(s: Seq<FileEntryV>)
    requires
        unique_paths(s),
    ensures
        forall|x: FileEntryV, y: FileEntryV|
            s.contains(x) && s.contains(y) && (#[trigger] x.path) == (#[trigger] y.path) ==> x
                == y,
{
    assert forall|x: FileEntryV, y: FileEntryV|
        s.contains(x) && s.contains(y) && (#[trigger] x.path) == (#[trigger] y.path) implies x
        == y by {
        let i = choose|i: int| 0 <= i < s.len() && s[i] == x;
        let j = choose|j: int| 0 <= j < s.len() && s[j] == y;
        if i < j {
            assert(s[i].path != s[j].path);
        } else if j < i {
            assert(s[j].path != s[i].path);
        }
    }
}

/// The analysis caches as one re-analysis pass leaves them: the largest
/// ranking is the size-sorted run of every file, the stale ranking is the
/// age-sorted run of the old files, and the duplicate cache groups files by
/// exact shared size.
pub open spec fn analyzed(a: DiskAnalyzer, s: Seq<FileEntryV>, now: i64) -> bool {
    &&& sorted_entries(views(a.large_files@), EntryOrder::SizeDesc)
    &&& views(a.large_files@).to_multiset() == nd_files(s).to_multiset()
    &&& sorted_entries(views(a.old_files@), EntryOrder::ModifiedAsc)
    &&& views(a.old_files@).to_multiset() == old_candidates(s, cutoff_of(now)).to_multiset()
    &&& dup_cache_ok(s, group_views(a.duplicate_cache@))
}

/// Finds the group carrying one byte size, if any.
fn find_group(c: &Vec<DuplicateGroup>, z: u64) -> (r: Option<usize>)
    ensures
        match r {
            Option::Some(b) => b < c@.len() && group_views(c@)[b as int].size == z,
            Option::None => forall|b: int|
                0 <= b < c@.len() ==> (#[trigger] group_views(c@)[b]).size != z,
        },
{
    let mut b: usize = 0;
    while b < c.len()
        invariant
            b <= c@.len(),
            forall|y: int| 0 <= y < b ==> (#[trigger] group_views(c@)[y]).size != z,
        decreases c@.len() - b,
    {
        if c[b].size == z {
            return Some(b);
        }
        b = b + 1;
    }
    None
}

/// The stateful analysis layer: the extension table plus the caches one
/// `analyze` pass derives from a completed scan.
pub struct DiskAnalyzer {
    pub file_types: Vec<FileTypeInfo>,
    pub duplicate_cache: Vec<DuplicateGroup>,
    pub large_files: Vec<FileEntry>,
    pub old_files: Vec<FileEntry>,
    /// The instant of the last analysis, seconds since the Unix epoch.
    pub analysis_time: i64,
}

impl DiskAnalyzer {
    /// The table's mathematical shadow.
    pub open spec fn table(self) -> Seq<FileTypeInfoV> {
        ft_views(self.file_types@)
    }

    /// A fresh analyzer: the static table, empty caches.
    pub fn new() -> (a: DiskAnalyzer)
        ensures
            a.table() == file_type_table(),
            a.duplicate_cache@.len() == 0,
            a.large_files@.len() == 0,
            a.old_files@.len() == 0,
    {
        DiskAnalyzer {
            file_types: build_file_types(),
            duplicate_cache: Vec::new(),
            large_files: Vec::new(),
            old_files: Vec::new(),
            analysis_time: 0,
        }
    }

    /// The last-resort classification.
    fn fallback_category(&self, entry: &FileEntry) -> (c: FileCategory)
        ensures
            c == spec_fallback(entry@),
    {
        if crate::paths::starts_with_char(entry.name.as_str(), '.') {
            FileCategory::Hidden
        } else if crate::paths::contains_sub(entry.path.as_str(), "node_modules")
            || crate::paths::contains_sub(entry.path.as_str(), "target/")
            || crate::paths::contains_sub(entry.path.as_str(), ".git/") {
            FileCategory::System
        } else {
            FileCategory::Other
        }
    }

    /// Classifies one entry: first matching table row by extension, then
    /// the hidden and artifact fallbacks.
    pub fn categorize_file(&self, entry: &FileEntry) -> (c: FileCategory)
        ensures
            c == spec_categorize(self.table(), entry@),
    {
        let ghost ft = self.table();
        match &entry.extension {
            Option::Some(ext) => {
                let low = to_lower(ext.as_str());
                let ghost x = lower_seq(ext@);
                let mut r: usize = 0;
                proof {
                    assert(ft.skip(0) =~= ft);
                }
                while r < self.file_types.len()
                    invariant
                        ft == ft_views(self.file_types@),
                        entry@.extension == Some(ext@),
                        x == lower_seq(ext@),
                        low@ == x,
                        r <= ft.len(),
                        table_lookup(ft, x) == table_lookup(ft.skip(r as int), x),
                    decreases ft.len() - r,
                {
                    if contains_string(&self.file_types[r].extensions, &low) {
                        proof {
                            assert(ft.skip(r as int)[0] == ft[r as int]);
                            assert(ft[r as int] == self.file_types@[r as int]@);
                            assert(ft[r as int].extensions.contains(x));
                            assert(ft.skip(r as int).len() > 0);
                            assert(table_lookup(ft.skip(r as int), x) == Some(
                                ft[r as int].category,
                            ));
                            assert(entry@.extension == Some(ext@));
                        }
                        return self.file_types[r].category;
                    }
                    proof {
                        assert(ft.skip(r as int)[0] == ft[r as int]);
                        assert(!ft[r as int].extensions.contains(x));
                        assert(ft.skip(r as int).drop_first() =~= ft.skip(r as int + 1));
                    }
                    r = r + 1;
                }
                proof {
                    assert(ft.skip(ft.len() as int).len() == 0);
                    assert(table_lookup(ft, x) is None);
                }
                self.fallback_category(entry)
            },
            Option::None => self.fallback_category(entry),
        }
    }

    /// The first table row carrying the given extension, lowercased.
    pub fn get_file_type_info(&self, extension: &str) -> (r: Option<&FileTypeInfo>)
        ensures
            match r {
                Option::Some(info) => exists|i: int|
                    0 <= i < self.table().len() && #[trigger] self.table()[i] == info@
                        && self.table()[i].extensions.contains(lower_seq(extension@)) && (forall|
                        j: int,
                    |
                        0 <= j < i ==> !(#[trigger] self.table()[j]).extensions.contains(
                            lower_seq(extension@),
                        )),
                Option::None => forall|j: int|
                    0 <= j < self.table().len() ==> !(#[trigger] self.table()[j]).extensions.contains(
                        lower_seq(extension@),
                    ),
            },
    {
        let ghost ft = self.table();
        let low = to_lower(extension);
        let mut r: usize = 0;
        while r < self.file_types.len()
            invariant
                ft == ft_views(self.file_types@),
                low@ == lower_seq(extension@),
                r <= ft.len(),
                forall|j: int| 0 <= j < r ==> !(#[trigger] ft[j]).extensions.contains(low@),
            decreases ft.len() - r,
        {
            if contains_string(&self.file_types[r].extensions, &low) {
                proof {
                    assert(ft[r as int] == self.file_types@[r as int]@);
                }
                return Some(&self.file_types[r]);
            }
            r = r + 1;
        }
        None
    }
}

/// The orders candidate groups are sorted by.
#[derive(Clone, Copy, PartialEq, Eq, Structural)]
pub enum GroupOrder {
    /// Largest group first; equal counts ordered by size.
    CountDesc,
    /// Smallest byte size first.
    SizeAsc,
}

/// The "comes no later than" relation of a group order.
pub open spec fn group_le(o: GroupOrder, a: DuplicateGroupV, b: DuplicateGroupV) -> bool {
    match o {
        GroupOrder::CountDesc => a.paths.len() > b.paths.len() || (a.paths.len() == b.paths.len()
            && a.size <= b.size),
        GroupOrder::SizeAsc => a.size <= b.size,
    }
}

/// The group list is sorted under the order.
pub open spec fn sorted_groups(s: Seq<DuplicateGroupV>, o: GroupOrder) -> bool {
    forall|i: int, j: int| 0 <= i <= j < s.len() ==> group_le(o, s[i], s[j])
}

/// Executable form of `group_le`.
fn le_group(o: GroupOrder, a: &DuplicateGroup, b: &DuplicateGroup) -> (r: bool)
    ensures
        r == group_le(o, a@, b@),
{
    match o {
        GroupOrder::CountDesc => {
            if a.paths.len() > b.paths.len() {
                true
            } else if a.paths.len() == b.paths.len() {
                a.size <= b.size
            } else {
                false
            }
        },
        GroupOrder::SizeAsc => a.size <= b.size,
    }
}

/// Sorts groups under the given order, selection-wise.
fn sort_groups(v: Vec<DuplicateGroup>, o: GroupOrder) -> (out: Vec<DuplicateGroup>)
    ensures
        sorted_groups(group_views(out@), o),
        group_views(out@).to_multiset() == group_views(v@).to_multiset(),
{
    broadcast use vstd::seq_lib::group_to_multiset_ensures;

    let ghost orig = group_views(v@);
    let mut input = v;
    let mut out: Vec<DuplicateGroup> = Vec::new();
    proof {
        assert(group_views(out@).to_multiset().add(group_views(input@).to_multiset())
            =~= orig.to_multiset());
    }
    while input.len() > 0
        invariant
            group_views(out@).to_multiset().add(group_views(input@).to_multiset())
                == orig.to_multiset(),
            sorted_groups(group_views(out@), o),
            forall|a: int, b: int|
                0 <= a < out@.len() && 0 <= b < input@.len() ==> group_le(
                    o,
                    group_views(out@)[a],
                    group_views(input@)[b],
                ),
        decreases input@.len(),
    {
        let mut m: usize = 0;
        let mut x: usize = 1;
        while x < input.len()
            invariant
                m < input@.len(),
                x <= input@.len(),
                input@.len() > 0,
                forall|y: int|
                    0 <= y < x ==> group_le(o, group_views(input@)[m as int], (#[trigger] group_views(
                        input@,
                    )[y])),
            decreases input@.len() - x,
        {
            if le_group(o, &input[x], &input[m]) {
                m = x;
            }
            x = x + 1;
        }
        let ghost old_input = group_views(input@);
        let ghost old_out = group_views(out@);
        let r = input.remove(m);
        out.push(r);
        proof {
            broadcast use vstd::multiset::group_multiset_axioms;
            broadcast use vstd::seq_lib::group_to_multiset_ensures;

            assert(group_views(input@) =~= old_input.remove(m as int));
            assert(group_views(out@) =~= old_out.push(r@));
            assert(old_input.contains(old_input[m as int]));
            assert(r@ == old_input[m as int]);
            assert(old_input.to_multiset().count(r@) > 0);
            assert(group_views(out@).to_multiset() == old_out.to_multiset().insert(r@));
            assert(group_views(input@).to_multiset() == old_input.to_multiset().remove(r@));
            assert(group_views(out@).to_multiset().add(group_views(input@).to_multiset())
                =~= orig.to_multiset());
            assert forall|a: int, b: int|
                0 <= a < group_views(out@).len() && 0 <= b < group_views(input@).len()
                implies group_le(o, group_views(out@)[a], group_views(input@)[b]) by {
                assert(group_views(input@)[b] == if b < m {
                    old_input[b]
                } else {
                    old_input[b + 1]
                });
                if a < old_out.len() {
                    assert(group_views(out@)[a] == old_out[a]);
                } else {
                    assert(group_views(out@)[a] == r@);
                }
            }
            assert forall|a: int, b: int|
                0 <= a <= b < group_views(out@).len() implies group_le(
                o,
                group_views(out@)[a],
                group_views(out@)[b],
            ) by {
                if b == group_views(out@).len() - 1 && a < b {
                    assert(group_le(o, old_out[a], old_input[m as int]));
                }
            }
        }
    }
    proof {
        broadcast use vstd::seq_lib::group_to_multiset_ensures;

        assert(group_views(input@).to_multiset().len() == 0);
        assert(group_views(out@).to_multiset() =~= group_views(out@).to_multiset().add(
            group_views(input@).to_multiset(),
        ));
    }
    out
}

impl DiskAnalyzer {
    /// One full analysis pass against a completed scan, at a given instant:
    /// recomputes the largest-file ranking, the stale-file ranking and the
    /// duplicate-candidate cache wholesale.
    pub fn analyze_at(&mut self, scan_result: &ScanResult, now: i64)
        ensures
            final(self).file_types == old(self).file_types,
            final(self).analysis_time == now,
            analyzed(*final(self), views(scan_result.entries@), now),
    {
        let ghost sv = views(scan_result.entries@);
        self.analysis_time = now;
        let n = scan_result.entries.len();

        // largest ranking: every file, sorted by falling size, head kept
        let mut files: Vec<FileEntry> = Vec::new();
        let mut i: usize = 0;
        proof {
            assert(views(files@) =~= nd_files(sv.take(0)));
        }
        while i < n
            invariant
                n == scan_result.entries@.len(),
                sv == views(scan_result.entries@),
                i <= n,
                views(files@) == nd_files(sv.take(i as int)),
            decreases n - i,
        {
            proof {
                assert(sv.take(i as int + 1).drop_last() =~= sv.take(i as int));
                assert(sv.take(i as int + 1).last() == sv[i as int]);
            }
            if !scan_result.entries[i].is_directory {
                let e = scan_result.entries[i].clone();
                files.push(e);
                proof {
                    assert(views(files@) =~= nd_files(sv.take(i as int)).push(sv[i as int]));
                }
            }
            i = i + 1;
        }
        proof {
            assert(sv.take(n as int) =~= sv);
        }
        self.large_files = sort_entries(files, EntryOrder::SizeDesc);

        // stale ranking: files older than the cutoff, oldest first
        let cutoff: i64 = if now >= i64::MIN + 31536000 {
            now - 31536000
        } else {
            i64::MIN
        };
        proof {
            assert(cutoff == cutoff_of(now));
        }
        let mut olds: Vec<FileEntry> = Vec::new();
        let mut i: usize = 0;
        proof {
            assert(views(olds@) =~= old_candidates(sv.take(0), cutoff));
        }
        while i < n
            invariant
                n == scan_result.entries@.len(),
                sv == views(scan_result.entries@),
                i <= n,
                views(olds@) == old_candidates(sv.take(i as int), cutoff),
            decreases n - i,
        {
            proof {
                assert(sv.take(i as int + 1).drop_last() =~= sv.take(i as int));
                assert(sv.take(i as int + 1).last() == sv[i as int]);
            }
            if !scan_result.entries[i].is_directory && scan_result.entries[i].modified < cutoff {
                let e = scan_result.entries[i].clone();
                olds.push(e);
                proof {
                    assert(views(olds@) =~= old_candidates(sv.take(i as int), cutoff).push(
                        sv[i as int],
                    ));
                }
            }
            i = i + 1;
        }
        proof {
            assert(sv.take(n as int) =~= sv);
        }
        self.old_files = sort_entries(olds, EntryOrder::ModifiedAsc);

        // duplicate candidates: bucket files by exact non-zero size
        let mut cache: Vec<DuplicateGroup> = Vec::new();
        let mut i: usize = 0;
        while i < n
            invariant
                n == scan_result.entries@.len(),
                sv == views(scan_result.entries@),
                i <= n,
                forall|b: int|
                    0 <= b < cache@.len() ==> (#[trigger] group_views(cache@)[b]).paths
                        == dup_paths(sv.take(i as int), group_views(cache@)[b].size),
                forall|b: int|
                    0 <= b < cache@.len() ==> (#[trigger] group_views(cache@)[b]).paths.len() >= 1,
                forall|b1: int, b2: int|
                    0 <= b1 < b2 < cache@.len() ==> group_views(cache@)[b1].size != group_views(
                        cache@,
                    )[b2].size,
                forall|z: u64|
                    (#[trigger] dup_paths(sv.take(i as int), z)).len() >= 1 ==> exists|b: int|
                        0 <= b < cache@.len() && (#[trigger] group_views(cache@)[b]).size == z,
            decreases n - i,
        {
            let ghost gv = group_views(cache@);
            proof {
                assert(sv.take(i as int + 1).drop_last() =~= sv.take(i as int));
                assert(sv.take(i as int + 1).last() == sv[i as int]);
            }
            let dir = scan_result.entries[i].is_directory;
            let z0 = scan_result.entries[i].size;
            if !dir && z0 > 0 {
                proof {
                    assert forall|z: u64|
                        z != z0 implies #[trigger] dup_entries(sv.take(i as int + 1), z)
                        == dup_entries(sv.take(i as int), z) by {}
                    assert(dup_entries(sv.take(i as int + 1), z0) == dup_entries(
                        sv.take(i as int),
                        z0,
                    ).push(sv[i as int]));
                    assert(dup_paths(sv.take(i as int + 1), z0) =~= dup_paths(
                        sv.take(i as int),
                        z0,
                    ).push(sv[i as int].path));
                }
                let pth = scan_result.entries[i].path.clone();
                match find_group(&cache, z0) {
                    Option::Some(b) => {
                        let mut g = cache[b].clone();
                        g.paths.push(pth);
                        let ghost gb = g@;
                        cache[b] = g;
                        proof {
                            assert(group_views(cache@) =~= gv.update(b as int, gb));
                            assert(gb.size == z0);
                            assert(gb.paths =~= gv[b as int].paths.push(sv[i as int].path));
                            assert forall|bb: int|
                                0 <= bb < cache@.len() implies (#[trigger] group_views(
                                cache@,
                            )[bb]).paths == dup_paths(
                                sv.take(i as int + 1),
                                group_views(cache@)[bb].size,
                            ) by {
                                if bb == b as int {
                                    assert(group_views(cache@)[bb].paths == dup_paths(
                                        sv.take(i as int),
                                        z0,
                                    ).push(sv[i as int].path));
                                } else {
                                    assert(gv[bb].size != z0);
                                }
                            }
                            assert forall|z: u64|
                                (#[trigger] dup_paths(sv.take(i as int + 1), z)).len() >= 1
                                implies exists|bb: int|
                                0 <= bb < cache@.len() && (#[trigger] group_views(
                                    cache@,
                                )[bb]).size == z by {
                                if z == z0 {
                                    assert(group_views(cache@)[b as int].size == z);
                                } else {
                                    assert(dup_paths(sv.take(i as int + 1), z) == dup_paths(
                                        sv.take(i as int),
                                        z,
                                    ));
                                    assert(dup_paths(sv.take(i as int), z).len() >= 1);
                                    let bb = choose|bb: int|
                                        0 <= bb < gv.len() && (#[trigger] gv[bb]).size == z;
                                    assert(group_views(cache@)[bb].size == z);
                                }
                            }
                        }
                    },
                    Option::None => {
                        proof {
                            if dup_paths(sv.take(i as int), z0).len() >= 1 {
                                let bb = choose|bb: int|
                                    0 <= bb < gv.len() && (#[trigger] gv[bb]).size == z0;
                                assert(false);
                            }
                            assert(dup_entries(sv.take(i as int), z0).len() == 0);
                        }
                        let mut ps: Vec<String> = Vec::new();
                        ps.push(pth);
                        let g = DuplicateGroup { size: z0, paths: ps };
                        let ghost gb = g@;
                        cache.push(g);
                        proof {
                            assert(group_views(cache@) =~= gv.push(gb));
                            assert(gb.paths =~= dup_paths(sv.take(i as int), z0).push(
                                sv[i as int].path,
                            ));
                            assert forall|bb: int|
                                0 <= bb < cache@.len() implies (#[trigger] group_views(
                                cache@,
                            )[bb]).paths == dup_paths(
                                sv.take(i as int + 1),
                                group_views(cache@)[bb].size,
                            ) by {
                                if bb < gv.len() {
                                    assert(group_views(cache@)[bb] == gv[bb]);
                                    assert(gv[bb].size != z0);
                                } else {
                                    assert(group_views(cache@)[bb] == gb);
                                }
                            }
                            assert forall|z: u64|
                                (#[trigger] dup_paths(sv.take(i as int + 1), z)).len() >= 1
                                implies exists|bb: int|
                                0 <= bb < cache@.len() && (#[trigger] group_views(
                                    cache@,
                                )[bb]).size == z by {
                                if z == z0 {
                                    assert(group_views(cache@)[gv.len() as int].size == z);
                                } else {
                                    assert(dup_paths(sv.take(i as int + 1), z) == dup_paths(
                                        sv.take(i as int),
                                        z,
                                    ));
                                    assert(dup_paths(sv.take(i as int), z).len() >= 1);
                                    let bb = choose|bb: int|
                                        0 <= bb < gv.len() && (#[trigger] gv[bb]).size == z;
                                    assert(group_views(cache@)[bb].size == z);
                                }
                            }
                        }
                    },
                }
            } else {
                proof {
                    assert forall|z: u64|
                        #[trigger] dup_entries(sv.take(i as int + 1), z) == dup_entries(
                        sv.take(i as int),
                        z,
                    ) by {}
                    assert forall|z: u64|
                        (#[trigger] dup_paths(sv.take(i as int + 1), z)).len() >= 1 implies exists|
                        b: int,
                    |
                        0 <= b < cache@.len() && (#[trigger] group_views(cache@)[b]).size
                            == z by {
                        assert(dup_entries(sv.take(i as int + 1), z) == dup_entries(
                            sv.take(i as int),
                            z,
                        ));
                        assert(dup_paths(sv.take(i as int), z).len() >= 1);
                    }
                }
            }
            i = i + 1;
        }
        proof {
            assert(sv.take(n as int) =~= sv);
        }

        // keep only sizes with at least two members
        let ghost cv = group_views(cache@);
        let mut kept: Vec<DuplicateGroup> = Vec::new();
        let mut b: usize = 0;
        proof {
            assert(group_views(kept@) =~= keep_big(cv.take(0)));
        }
        while b < cache.len()
            invariant
                cv == group_views(cache@),
                b <= cv.len(),
                group_views(kept@) == keep_big(cv.take(b as int)),
            decreases cv.len() - b,
        {
            proof {
                assert(cv.take(b as int + 1).drop_last() =~= cv.take(b as int));
                assert(cv.take(b as int + 1).last() == cv[b as int]);
            }
            if cache[b].paths.len() >= 2 {
                let ghost kv = group_views(kept@);
                let g = cache[b].clone();
                proof {
                    assert(g@ == cv[b as int]);
                    assert(cv[b as int].paths.len() >= 2);
                }
                kept.push(g);
                proof {
                    assert(group_views(kept@) =~= kv.push(cv[b as int]));
                }
            } else {
                proof {
                    assert(cv[b as int].paths.len() < 2);
                }
            }
            b = b + 1;
        }
        self.duplicate_cache = kept;
        proof {
            assert(cv.take(cv.len() as int) =~= cv);
            lemma_keep_big_ok(sv, cv);
        }
    }

    /// Re-derives every cache from a completed scan, stamping the pass with
    /// the present wall-clock instant.
    pub fn analyze(&mut self, scan_result: &ScanResult)
        ensures
            final(self).file_types == old(self).file_types,
            analyzed(*final(self), views(scan_result.entries@), final(self).analysis_time),
    {
        let now = crate::outside::now_seconds();
        self.analyze_at(scan_result, now);
    }

    /// The surviving duplicate-candidate groups, largest group first.
    pub fn find_potential_duplicates(&self) -> (r: Vec<DuplicateGroup>)
        ensures
            sorted_groups(group_views(r@), GroupOrder::CountDesc),
            group_views(r@).to_multiset() == group_views(self.duplicate_cache@).to_multiset(),
    {
        let mut c: Vec<DuplicateGroup> = Vec::new();
        let mut b: usize = 0;
        while b < self.duplicate_cache.len()
            invariant
                b <= self.duplicate_cache@.len(),
                group_views(c@) == group_views(self.duplicate_cache@).take(b as int),
            decreases self.duplicate_cache@.len() - b,
        {
            let ghost ov = group_views(c@);
            let g = self.duplicate_cache[b].clone();
            proof {
                assert(g@ == group_views(self.duplicate_cache@)[b as int]);
            }
            c.push(g);
            proof {
                assert(group_views(c@) =~= ov.push(g@));
                assert(group_views(c@) =~= group_views(self.duplicate_cache@).take(b as int + 1));
            }
            b = b + 1;
        }
        proof {
            assert(group_views(self.duplicate_cache@).take(self.duplicate_cache@.len() as int)
                =~= group_views(self.duplicate_cache@));
        }
        sort_groups(c, GroupOrder::CountDesc)
    }

    /// Up to `count` of the largest files, largest first.
    pub fn get_largest_files(&self, count: usize) -> (r: Vec<FileEntry>)
        ensures
            views(r@) == views(self.large_files@).take(
                min_of(count as int, self.large_files@.len() as int),
            ),
    {
        let k = if count < self.large_files.len() {
            count
        } else {
            self.large_files.len()
        };
        let mut r: Vec<FileEntry> = Vec::new();
        let mut i: usize = 0;
        while i < k
            invariant
                k <= self.large_files@.len(),
                i <= k,
                views(r@) == views(self.large_files@).take(i as int),
            decreases k - i,
        {
            let ghost ov = views(r@);
            let e = self.large_files[i].clone();
            proof {
                assert(e@ == views(self.large_files@)[i as int]);
            }
            r.push(e);
            proof {
                assert(views(r@) =~= ov.push(e@));
                assert(views(r@) =~= views(self.large_files@).take(i as int + 1));
            }
            i = i + 1;
        }
        proof {
            assert(views(self.large_files@).take(k as int) =~= views(self.large_files@).take(
                min_of(count as int, self.large_files@.len() as int),
            ));
        }
        r
    }

    /// Up to `count` of the stale files, oldest first.
    pub fn get_oldest_files(&self, count: usize) -> (r: Vec<FileEntry>)
        ensures
            views(r@) == views(self.old_files@).take(
                min_of(count as int, self.old_files@.len() as int),
            ),
    {
        let k = if count < self.old_files.len() {
            count
        } else {
            self.old_files.len()
        };
        let mut r: Vec<FileEntry> = Vec::new();
        let mut i: usize = 0;
        while i < k
            invariant
                k <= self.old_files@.len(),
                i <= k,
                views(r@) == views(self.old_files@).take(i as int),
            decreases k - i,
        {
            let ghost ov = views(r@);
            let e = self.old_files[i].clone();
            proof {
                assert(e@ == views(self.old_files@)[i as int]);
            }
            r.push(e);
            proof {
                assert(views(r@) =~= ov.push(e@));
                assert(views(r@) =~= views(self.old_files@).take(i as int + 1));
            }
            i = i + 1;
        }
        proof {
            assert(views(self.old_files@).take(k as int) =~= views(self.old_files@).take(
                min_of(count as int, self.old_files@.len() as int),
            ));
        }
        r
    }
}

/// Elements of `dup_entries` are non-directory entries of one shared,
/// non-zero size.
pub proof fn lemma_dup_entries_elems(s: Seq<FileEntryV>, z: u64)
    ensures
        forall|x: FileEntryV|
            #[trigger] dup_entries(s, z).contains(x) ==> s.contains(x) && !x.is_directory
                && x.size == z && z > 0,
    decreases s.len(),
{
    broadcast use vstd::seq_lib::group_seq_properties;

    if s.len() > 0 {
        lemma_dup_entries_elems(s.drop_last(), z);
        assert forall|x: FileEntryV| dup_entries(s, z).contains(x) implies s.contains(x)
            && !x.is_directory && x.size == z && z > 0 by {
            if dup_entries(s.drop_last(), z).contains(x) {
                assert(s.drop_last().contains(x));
                let i = choose|i: int| 0 <= i < s.drop_last().len() && s.drop_last()[i] == x;
                assert(s[i] == x);
            } else {
                assert(s[s.len() - 1] == x);
            }
        }
    }
}

/// The largest-files ranking falls by size and holds every file, one entry
/// each; the stale ranking rises by modification time and holds exactly the
/// files older than the cutoff.
pub proof fn lemma_rankings(a: DiskAnalyzer, s: Seq<FileEntryV>, now: i64)
    requires
        analyzed(a, s, now),
    ensures
        forall|i: int, j: int|
            0 <= i <= j < views(a.large_files@).len() ==> views(a.large_files@)[i].size >= views(
                a.large_files@,
            )[j].size,
        views(a.large_files@).len() == nd_files(s).len(),
        forall|i: int, j: int|
            0 <= i <= j < views(a.old_files@).len() ==> views(a.old_files@)[i].modified <= views(
                a.old_files@,
            )[j].modified,
        views(a.old_files@).len() == old_candidates(s, cutoff_of(now)).len(),
        forall|i: int|
            0 <= i < views(a.old_files@).len() ==> (#[trigger] views(a.old_files@)[i]).modified
                < cutoff_of(now),
{
    broadcast use vstd::seq_lib::group_to_multiset_ensures;

    let lf = views(a.large_files@);
    assert(lf.to_multiset().len() == lf.len());
    assert(nd_files(s).to_multiset().len() == nd_files(s).len());
    assert forall|i: int, j: int|
        0 <= i <= j < lf.len() implies lf[i].size >= lf[j].size by {
        assert(entry_le(EntryOrder::SizeDesc, lf[i], lf[j]));
    }
    let of = views(a.old_files@);
    let oc = old_candidates(s, cutoff_of(now));
    assert(of.to_multiset().len() == of.len());
    assert(oc.to_multiset().len() == oc.len());
    assert forall|i: int, j: int|
        0 <= i <= j < of.len() implies of[i].modified <= of[j].modified by {
        assert(entry_le(EntryOrder::ModifiedAsc, of[i], of[j]));
    }
    lemma_old_candidates_elems(s, cutoff_of(now));
    assert forall|i: int|
        0 <= i < of.len() implies (#[trigger] of[i]).modified < cutoff_of(now) by {
        assert(of.contains(of[i]));
        assert(oc.to_multiset().count(of[i]) > 0);
        assert(oc.contains(of[i]));
    }
}

/// Every surviving duplicate group names at least two files, each of them a
/// real, non-directory, non-empty entry of the scan of exactly the group's
/// size.
pub proof fn lemma_duplicate_groups_sound(
    a: DiskAnalyzer,
    s: Seq<FileEntryV>,
    now: i64,
    gs: Seq<DuplicateGroupV>,
)
    requires
        analyzed(a, s, now),
        gs.to_multiset() == group_views(a.duplicate_cache@).to_multiset(),
    ensures
        forall|b: int| 0 <= b < gs.len() ==> (#[trigger] gs[b]).paths.len() >= 2,
        forall|b: int| 0 <= b < gs.len() ==> (#[trigger] gs[b]).paths == dup_paths(s, gs[b].size),
        forall|b: int| 0 <= b < gs.len() ==> (#[trigger] gs[b]).size > 0,
        forall|b: int, k: int|
            0 <= b < gs.len() && 0 <= k < (#[trigger] gs[b]).paths.len() ==> exists|i: int|
                0 <= i < s.len() && (#[trigger] s[i]).path == (#[trigger] gs[b].paths[k])
                    && !s[i].is_directory && s[i].size == gs[b].size && s[i].size > 0,
{
    broadcast use vstd::seq_lib::group_to_multiset_ensures;

    let cache = group_views(a.duplicate_cache@);
    assert forall|b: int|
        0 <= b < gs.len() implies (#[trigger] gs[b]).paths.len() >= 2 && gs[b].paths == dup_paths(
        s,
        gs[b].size,
    ) && gs[b].size > 0 by {
        assert(gs.contains(gs[b]));
        assert(cache.to_multiset().count(gs[b]) > 0);
        assert(cache.contains(gs[b]));
        let cb = choose|cb: int| 0 <= cb < cache.len() && cache[cb] == gs[b];
        assert(gs[b].paths == dup_paths(s, gs[b].size));
        lemma_dup_entries_elems(s, gs[b].size);
        let de = dup_entries(s, gs[b].size);
        assert(de.len() == dup_paths(s, gs[b].size).len());
        assert(de.len() >= 2);
        assert(dup_entries(s, gs[b].size).contains(de[0]));
        assert(gs[b].size > 0);
    }
    assert forall|b: int, k: int|
        0 <= b < gs.len() && 0 <= k < (#[trigger] gs[b]).paths.len() implies exists|i: int|
        0 <= i < s.len() && (#[trigger] s[i]).path == (#[trigger] gs[b].paths[k])
            && !s[i].is_directory && s[i].size == gs[b].size && s[i].size > 0 by {
        lemma_dup_entries_elems(s, gs[b].size);
        let de = dup_entries(s, gs[b].size);
        assert(gs[b].paths == dup_paths(s, gs[b].size));
        assert(de.len() == gs[b].paths.len());
        assert(gs[b].paths[k] == de[k].path);
        assert(dup_entries(s, gs[b].size).contains(de[k]));
        assert(s.contains(de[k]));
        let i = choose|i: int| 0 <= i < s.len() && s[i] == de[k];
        assert(s[i].path == gs[b].paths[k] && !s[i].is_directory && s[i].size == gs[b].size);
    }
}

/// Caches that both soundly group one scan's files hold the same multiset
/// of groups.
pub proof fn lemma_cache_multiset(s: Seq<FileEntryV>, c1: Seq<DuplicateGroupV>, c2: Seq<DuplicateGroupV>)
    requires
        dup_cache_ok(s, c1),
        dup_cache_ok(s, c2),
    ensures
        c1.to_multiset() == c2.to_multiset(),
{
    broadcast use vstd::seq_lib::group_to_multiset_ensures;

    assert(c1.no_duplicates()) by {
        assert forall|b1: int, b2: int|
            0 <= b1 < c1.len() && 0 <= b2 < c1.len() && b1 != b2 implies c1[b1] != c1[b2] by {
            if b1 < b2 {
                assert(c1[b1].size != c1[b2].size);
            } else {
                assert(c1[b2].size != c1[b1].size);
            }
        }
    }
    assert(c2.no_duplicates()) by {
        assert forall|b1: int, b2: int|
            0 <= b1 < c2.len() && 0 <= b2 < c2.len() && b1 != b2 implies c2[b1] != c2[b2] by {
            if b1 < b2 {
                assert(c2[b1].size != c2[b2].size);
            } else {
                assert(c2[b2].size != c2[b1].size);
            }
        }
    }
    c1.lemma_multiset_has_no_duplicates();
    c2.lemma_multiset_has_no_duplicates();
    assert forall|g: DuplicateGroupV|
        c1.to_multiset().count(g) == c2.to_multiset().count(g) by {
        if c1.to_multiset().count(g) > 0 {
            assert(c1.contains(g));
            let b1 = choose|b1: int| 0 <= b1 < c1.len() && c1[b1] == g;
            assert(g.paths == dup_paths(s, g.size) && g.paths.len() >= 2);
            assert(dup_paths(s, g.size).len() >= 2);
            let b2 = choose|b2: int| 0 <= b2 < c2.len() && (#[trigger] c2[b2]).size == g.size;
            assert(c2[b2].paths == dup_paths(s, g.size));
            assert(c2[b2] == g);
            assert(c2.contains(g));
            assert(c1.to_multiset().count(g) == 1);
            assert(c2.to_multiset().count(g) == 1);
        } else {
            if c2.to_multiset().count(g) > 0 {
                assert(c2.contains(g));
                let b2 = choose|b2: int| 0 <= b2 < c2.len() && c2[b2] == g;
                assert(g.paths == dup_paths(s, g.size) && g.paths.len() >= 2);
                let b1 = choose|b1: int| 0 <= b1 < c1.len() && (#[trigger] c1[b1]).size == g.size;
                assert(c1[b1] == g);
                assert(c1.contains(g));
                assert(false);
            }
        }
    }
    assert(c1.to_multiset() =~= c2.to_multiset());
}

/// Re-running the analysis of one unchanged scan at the same instant
/// rebuilds the very same rankings, and duplicate groups that sort to the
/// very same list.
pub proof fn lemma_analysis_idempotent(
    a1: DiskAnalyzer,
    a2: DiskAnalyzer,
    s: Seq<FileEntryV>,
    now: i64,
)
    requires
        unique_paths(s),
        analyzed(a1, s, now),
        analyzed(a2, s, now),
    ensures
        views(a1.large_files@) == views(a2.large_files@),
        views(a1.old_files@) == views(a2.old_files@),
        group_views(a1.duplicate_cache@).to_multiset() == group_views(
            a2.duplicate_cache@,
        ).to_multiset(),
        forall|g1: Seq<DuplicateGroupV>, g2: Seq<DuplicateGroupV>|
            sorted_groups(g1, GroupOrder::CountDesc) && sorted_groups(g2, GroupOrder::CountDesc)
                && g1.to_multiset() == group_views(a1.duplicate_cache@).to_multiset()
                && g2.to_multiset() == group_views(a2.duplicate_cache@).to_multiset() ==> g1 == g2,
        a1.table() == a2.table() ==> forall|
            r1: Seq<(FileCategory, CategoryStats)>,
            r2: Seq<(FileCategory, CategoryStats)>,
        |
            #[trigger] category_stats_ok(a1.table(), s, r1) && #[trigger] category_stats_ok(
                a2.table(),
                s,
                r2,
            ) ==> stats_match(r1, r2),
{
    broadcast use vstd::seq_lib::group_to_multiset_ensures;

    lemma_unique_path_eq(s);
    lemma_nd_files_elems(s);
    lemma_old_candidates_elems(s, cutoff_of(now));

    // the largest ranking: a sorted permutation of the files is unique
    let szle = |x: FileEntryV, y: FileEntryV| entry_le(EntryOrder::SizeDesc, x, y);
    let t1 = views(a1.large_files@);
    let t2 = views(a2.large_files@);
    assert forall|x: FileEntryV, y: FileEntryV|
        t1.to_multiset().contains(x) && t1.to_multiset().contains(y) && #[trigger] szle(x, y)
            && #[trigger] szle(y, x) implies x == y by {
        assert(nd_files(s).to_multiset().contains(x));
        assert(nd_files(s).contains(x));
        assert(nd_files(s).contains(y));
        assert(s.contains(x));
        assert(s.contains(y));
        crate::sorting::lemma_entry_le_antisym(EntryOrder::SizeDesc, x, y);
    }
    assert forall|i: int, j: int| 0 <= i <= j < t1.len() implies #[trigger] szle(t1[i], t1[j]) by {}
    assert forall|i: int, j: int| 0 <= i <= j < t2.len() implies #[trigger] szle(t2[i], t2[j]) by {}
    crate::sorting::lemma_sorted_multiset_unique(t1, t2, szle);

    // the stale ranking, the same way
    let mole = |x: FileEntryV, y: FileEntryV| entry_le(EntryOrder::ModifiedAsc, x, y);
    let of1 = views(a1.old_files@);
    let of2 = views(a2.old_files@);
    assert forall|x: FileEntryV, y: FileEntryV|
        of1.to_multiset().contains(x) && of1.to_multiset().contains(y) && #[trigger] mole(x, y)
            && #[trigger] mole(y, x) implies x == y by {
        assert(old_candidates(s, cutoff_of(now)).to_multiset().contains(x));
        assert(old_candidates(s, cutoff_of(now)).contains(x));
        assert(old_candidates(s, cutoff_of(now)).contains(y));
        assert(s.contains(x));
        assert(s.contains(y));
        crate::sorting::lemma_entry_le_antisym(EntryOrder::ModifiedAsc, x, y);
    }
    assert forall|i: int, j: int| 0 <= i <= j < of1.len() implies #[trigger] mole(of1[i], of1[j]) by {}
    assert forall|i: int, j: int| 0 <= i <= j < of2.len() implies #[trigger] mole(of2[i], of2[j]) by {}
    crate::sorting::lemma_sorted_multiset_unique(of1, of2, mole);

    // the duplicate caches hold the same groups, and any two count-sorted
    // listings of them agree
    lemma_cache_multiset(s, group_views(a1.duplicate_cache@), group_views(a2.duplicate_cache@));
    let gle = |x: DuplicateGroupV, y: DuplicateGroupV| group_le(GroupOrder::CountDesc, x, y);
    assert forall|g1: Seq<DuplicateGroupV>, g2: Seq<DuplicateGroupV>|
        sorted_groups(g1, GroupOrder::CountDesc) && sorted_groups(g2, GroupOrder::CountDesc)
            && g1.to_multiset() == group_views(a1.duplicate_cache@).to_multiset()
            && g2.to_multiset() == group_views(a2.duplicate_cache@).to_multiset() implies g1
        == g2 by {
        assert forall|x: DuplicateGroupV, y: DuplicateGroupV|
            g1.to_multiset().contains(x) && g1.to_multiset().contains(y) && #[trigger] gle(x, y)
                && #[trigger] gle(y, x) implies x == y by {
            assert(group_views(a1.duplicate_cache@).contains(x));
            assert(group_views(a1.duplicate_cache@).contains(y));
            let bx = choose|bx: int|
                0 <= bx < group_views(a1.duplicate_cache@).len() && group_views(
                    a1.duplicate_cache@,
                )[bx] == x;
            let by = choose|by: int|
                0 <= by < group_views(a1.duplicate_cache@).len() && group_views(
                    a1.duplicate_cache@,
                )[by] == y;
            assert(x.size == y.size);
            assert(x.paths == dup_paths(s, x.size));
            assert(y.paths == dup_paths(s, y.size));
        }
        assert forall|i: int, j: int| 0 <= i <= j < g1.len() implies #[trigger] gle(g1[i], g1[j]) by {}
        assert forall|i: int, j: int| 0 <= i <= j < g2.len() implies #[trigger] gle(g2[i], g2[j]) by {}
        crate::sorting::lemma_sorted_multiset_unique(g1, g2, gle);
    }

    // any two category reports over this scan agree as well
    if a1.table() == a2.table() {
        assert forall|r1: Seq<(FileCategory, CategoryStats)>, r2: Seq<(FileCategory, CategoryStats)>|
            #[trigger] category_stats_ok(a1.table(), s, r1) && #[trigger] category_stats_ok(
                a2.table(),
                s,
                r2,
            ) implies stats_match(r1, r2) by {
            lemma_category_stats_deterministic(a1.table(), s, r1, r2);
        }
    }
}

/// Per-category aggregate over one scan.
pub struct CategoryStats {
    pub total_size: u64,
    pub file_count: u64,
    pub files: Vec<FileEntry>,
}

impl CategoryStats {
    /// The aggregate size as human-readable text.
    pub fn formatted_size(&self) -> (r: String)
        ensures
            r@ == crate::outside::human_size_of(self.total_size),
    {
        crate::outside::format_size(self.total_size)
    }
}

/// The files of one category, in arena order.
pub open spec fn cat_files(ft: Seq<FileTypeInfoV>, s: Seq<FileEntryV>, c: FileCategory) -> Seq<
    FileEntryV,
>
    decreases s.len(),
{
    if s.len() == 0 {
        Seq::empty()
    } else if !s.last().is_directory && spec_categorize(ft, s.last()) == c {
        cat_files(ft, s.drop_last(), c).push(s.last())
    } else {
        cat_files(ft, s.drop_last(), c)
    }
}

/// Sum of the sizes of a run of entries.
pub open spec fn entry_size_sum(s: Seq<FileEntryV>) -> int
    decreases s.len(),
{
    if s.len() == 0 {
        0
    } else {
        entry_size_sum(s.drop_last()) + s.last().size as int
    }
}

/// The fixed position of a category in a statistics report.
pub open spec fn cat_rank(c: FileCategory) -> int {
    match c {
        FileCategory::Documents => 0,
        FileCategory::Images => 1,
        FileCategory::Videos => 2,
        FileCategory::Audio => 3,
        FileCategory::Archives => 4,
        FileCategory::Executables => 5,
        FileCategory::Code => 6,
        FileCategory::Data => 7,
        FileCategory::System => 8,
        FileCategory::Hidden => 9,
        FileCategory::Temporary => 10,
        FileCategory::Other => 11,
    }
}

/// What one category-statistics pass reports: every category with at least
/// one file, in the fixed report order, its files sorted by falling size
/// and its totals summed over exactly those files.
pub open spec fn category_stats_ok(
    ft: Seq<FileTypeInfoV>,
    s: Seq<FileEntryV>,
    r: Seq<(FileCategory, CategoryStats)>,
) -> bool {
    &&& forall|k: int|
        0 <= k < r.len() ==> {
            let c = (#[trigger] r[k]).0;
            let cf = cat_files(ft, s, c);
            &&& r[k].1.file_count == cf.len()
            &&& r[k].1.total_size == clip64(entry_size_sum(cf))
            &&& sorted_entries(views(r[k].1.files@), EntryOrder::SizeDesc)
            &&& views(r[k].1.files@).to_multiset() == cf.to_multiset()
            &&& cf.len() > 0
        }
    &&& forall|k1: int, k2: int| 0 <= k1 < k2 < r.len() ==> cat_rank(r[k1].0) < cat_rank(r[k2].0)
    &&& forall|c: FileCategory|
        (#[trigger] cat_files(ft, s, c)).len() > 0 ==> exists|k: int|
            0 <= k < r.len() && (#[trigger] r[k]).0 == c
}

/// Elements of `cat_files` are non-directory entries of the arena that
/// classify into the category.
pub proof fn lemma_cat_files_elems(ft: Seq<FileTypeInfoV>, s: Seq<FileEntryV>, c: FileCategory)
    ensures
        forall|x: FileEntryV|
            #[trigger] cat_files(ft, s, c).contains(x) ==> s.contains(x) && !x.is_directory
                && spec_categorize(ft, x) == c,
    decreases s.len(),
{
    broadcast use vstd::seq_lib::group_seq_properties;

    if s.len() > 0 {
        lemma_cat_files_elems(ft, s.drop_last(), c);
        assert forall|x: FileEntryV| cat_files(ft, s, c).contains(x) implies s.contains(x)
            && !x.is_directory && spec_categorize(ft, x) == c by {
            if cat_files(ft, s.drop_last(), c).contains(x) {
                assert(s.drop_last().contains(x));
                let i = choose|i: int| 0 <= i < s.drop_last().len() && s.drop_last()[i] == x;
                assert(s[i] == x);
            } else {
                assert(s[s.len() - 1] == x);
            }
        }
    }
}

impl DiskAnalyzer {
    /// Per-category totals over a completed scan: every category with at
    /// least one file, in the fixed report order, with its files sorted by
    /// falling size.
    pub fn get_category_stats(&self, scan_result: &ScanResult) -> (r: Vec<
        (FileCategory, CategoryStats),
    >)
        ensures
            category_stats_ok(self.table(), views(scan_result.entries@), r@),
    {
        let ghost ftv = self.table();
        let ghost sv = views(scan_result.entries@);
        let cats: Vec<FileCategory> = vec![
            FileCategory::Documents,
            FileCategory::Images,
            FileCategory::Videos,
            FileCategory::Audio,
            FileCategory::Archives,
            FileCategory::Executables,
            FileCategory::Code,
            FileCategory::Data,
            FileCategory::System,
            FileCategory::Hidden,
            FileCategory::Temporary,
            FileCategory::Other,
        ];
        proof {
            assert forall|j: int| 0 <= j < 12 implies cat_rank(#[trigger] cats@[j]) == j by {}
        }
        let mut r: Vec<(FileCategory, CategoryStats)> = Vec::new();
        let mut ci: usize = 0;
        while ci < cats.len()
            invariant
                ftv == self.table(),
                sv == views(scan_result.entries@),
                cats@.len() == 12,
                forall|j: int| 0 <= j < 12 ==> cat_rank(#[trigger] cats@[j]) == j,
                ci <= 12,
                forall|k: int|
                    0 <= k < r@.len() ==> {
                        let c = (#[trigger] r@[k]).0;
                        let cf = cat_files(ftv, sv, c);
                        &&& r@[k].1.file_count == cf.len()
                        &&& r@[k].1.total_size == clip64(entry_size_sum(cf))
                        &&& sorted_entries(views(r@[k].1.files@), EntryOrder::SizeDesc)
                        &&& views(r@[k].1.files@).to_multiset() == cf.to_multiset()
                        &&& cf.len() > 0
                    },
                forall|k: int| 0 <= k < r@.len() ==> cat_rank((#[trigger] r@[k]).0) < ci,
                forall|k1: int, k2: int|
                    0 <= k1 < k2 < r@.len() ==> cat_rank(r@[k1].0) < cat_rank(r@[k2].0),
                forall|j: int|
                    0 <= j < ci && (#[trigger] cat_files(ftv, sv, cats@[j])).len() > 0 ==> exists|
                        k: int,
                    | 0 <= k < r@.len() && (#[trigger] r@[k]).0 == cats@[j],
            decreases 12 - ci,
        {
            let c = cats[ci];
            let n = scan_result.entries.len();
            let mut files: Vec<FileEntry> = Vec::new();
            let mut i: usize = 0;
            proof {
                assert(views(files@) =~= cat_files(ftv, sv.take(0), c));
            }
            while i < n
                invariant
                    ftv == self.table(),
                    sv == views(scan_result.entries@),
                    n == scan_result.entries@.len(),
                    i <= n,
                    views(files@) == cat_files(ftv, sv.take(i as int), c),
                decreases n - i,
            {
                proof {
                    assert(sv.take(i as int + 1).drop_last() =~= sv.take(i as int));
                    assert(sv.take(i as int + 1).last() == sv[i as int]);
                }
                let e = &scan_result.entries[i];
                if !e.is_directory {
                    let ec = self.categorize_file(e);
                    if ec == c {
                        let ghost ov = views(files@);
                        let cl = e.clone();
                        files.push(cl);
                        proof {
                            assert(views(files@) =~= ov.push(sv[i as int]));
                        }
                    }
                }
                i = i + 1;
            }
            proof {
                assert(sv.take(n as int) =~= sv);
            }
            if files.len() > 0 {
                let count = files.len() as u64;
                let sorted = sort_entries(files, EntryOrder::SizeDesc);
                proof {
                    broadcast use vstd::seq_lib::group_to_multiset_ensures;

                    assert(views(sorted@).to_multiset().len() == views(sorted@).len());
                    assert(cat_files(ftv, sv, c).to_multiset().len() == cat_files(
                        ftv,
                        sv,
                        c,
                    ).len());
                }
                let mut total: u64 = 0;
                let mut fi: usize = 0;
                let ghost cf = cat_files(ftv, sv, c);
                let ghost tv = views(sorted@);
                proof {
                    assert(tv.take(0) =~= Seq::<FileEntryV>::empty());
                }
                while fi < sorted.len()
                    invariant
                        tv == views(sorted@),
                        fi <= sorted@.len(),
                        total == clip64(entry_size_sum(tv.take(fi as int))),
                    decreases sorted@.len() - fi,
                {
                    proof {
                        assert(tv.take(fi as int + 1).drop_last() =~= tv.take(fi as int));
                        assert(tv.take(fi as int + 1).last() == tv[fi as int]);
                        lemma_entry_size_sum_nonneg(tv.take(fi as int));
                    }
                    let s = sorted[fi].size;
                    if total <= u64::MAX - s {
                        total = total + s;
                    } else {
                        total = u64::MAX;
                    }
                    fi = fi + 1;
                }
                proof {
                    assert(tv.take(sorted@.len() as int) =~= tv);
                    // the sum over the sorted permutation is the sum over
                    // the filtered run
                    lemma_entry_size_sum_multiset(tv, cf);
                }
                let ghost old_r = r@;
                r.push((c, CategoryStats { total_size: total, file_count: count, files: sorted }));
                proof {
                    assert(r@[r@.len() - 1].0 == cats@[ci as int]);
                    assert forall|j: int|
                        0 <= j < ci + 1 && (#[trigger] cat_files(ftv, sv, cats@[j])).len() > 0
                        implies exists|k: int|
                        0 <= k < r@.len() && (#[trigger] r@[k]).0 == cats@[j] by {
                        if j == ci {
                            assert(r@[r@.len() - 1].0 == cats@[j]);
                        } else {
                            let k = choose|k: int|
                                0 <= k < old_r.len() && (#[trigger] old_r[k]).0 == cats@[j];
                            assert(r@[k].0 == cats@[j]);
                        }
                    }
                }
            } else {
                proof {
                    assert(cat_files(ftv, sv, c).len() == 0);
                }
            }
            ci = ci + 1;
        }
        proof {
            assert forall|c: FileCategory|
                (#[trigger] cat_files(ftv, sv, c)).len() > 0 implies exists|k: int|
                0 <= k < r@.len() && (#[trigger] r@[k]).0 == c by {
                assert(cats@[cat_rank(c)] == c);
            }
        }
        r
    }
}

/// Sums of entry sizes are never negative.
pub proof fn lemma_entry_size_sum_nonneg(s: Seq<FileEntryV>)
    ensures
        entry_size_sum(s) >= 0,
    decreases s.len(),
{
    if s.len() > 0 {
        lemma_entry_size_sum_nonneg(s.drop_last());
    }
}

/// Runs with the same contents have the same size sum.
pub proof fn lemma_entry_size_sum_multiset(a: Seq<FileEntryV>, b: Seq<FileEntryV>)
    requires
        a.to_multiset() == b.to_multiset(),
    ensures
        entry_size_sum(a) == entry_size_sum(b),
    decreases a.len(),
{
    broadcast use vstd::seq_lib::group_to_multiset_ensures;

    if a.len() == 0 {
        assert(b.to_multiset().len() == 0);
        assert(b =~= Seq::<FileEntryV>::empty());
    } else {
        let x = a.last();
        assert(a.contains(x));
        assert(b.to_multiset().count(x) > 0);
        assert(b.contains(x));
        let j = choose|j: int| 0 <= j < b.len() && b[j] == x;
        let b2 = b.remove(j);
        assert(a.drop_last() =~= a.remove(a.len() - 1));
        assert(a.drop_last().to_multiset() == a.to_multiset().remove(x));
        assert(b2.to_multiset() == b.to_multiset().remove(x));
        lemma_entry_size_sum_multiset(a.drop_last(), b2);
        lemma_entry_size_sum_remove(b, j);
    }
}

/// Removing one entry takes exactly its size out of the sum.
pub proof fn lemma_entry_size_sum_remove(s: Seq<FileEntryV>, j: int)
    requires
        0 <= j < s.len(),
    ensures
        entry_size_sum(s.remove(j)) == entry_size_sum(s) - s[j].size,
    decreases s.len(),
{
    if j == s.len() - 1 {
        assert(s.remove(j) =~= s.drop_last());
    } else {
        assert(s.remove(j).drop_last() =~= s.drop_last().remove(j));
        assert(s.remove(j).last() == s.last());
        lemma_entry_size_sum_remove(s.drop_last(), j);
    }
}

/// Asking for the largest files yields one per non-directory entry, up to
/// the asked count.
pub proof fn lemma_largest_len(a: DiskAnalyzer, s: Seq<FileEntryV>, now: i64, n: int)
    requires
        analyzed(a, s, now),
    ensures
        min_of(n, views(a.large_files@).len() as int) == min_of(n, nd_files(s).len() as int),
{
    lemma_rankings(a, s, now);
}

/// Two category reports that agree entry for entry.
pub open spec fn stats_match(
    r1: Seq<(FileCategory, CategoryStats)>,
    r2: Seq<(FileCategory, CategoryStats)>,
) -> bool {
    &&& r1.len() == r2.len()
    &&& forall|k: int|
        0 <= k < r1.len() ==> {
            &&& (#[trigger] r1[k]).0 == r2[k].0
            &&& r1[k].1.total_size == r2[k].1.total_size
            &&& r1[k].1.file_count == r2[k].1.file_count
            &&& views(r1[k].1.files@) == views(r2[k].1.files@)
        }
}

/// Two category-statistics passes over one scan report the same categories
/// in the same order with the same totals and the same file lists.
pub proof fn lemma_category_stats_deterministic(
    ft: Seq<FileTypeInfoV>,
    s: Seq<FileEntryV>,
    r1: Seq<(FileCategory, CategoryStats)>,
    r2: Seq<(FileCategory, CategoryStats)>,
)
    requires
        unique_paths(s),
        category_stats_ok(ft, s, r1),
        category_stats_ok(ft, s, r2),
    ensures
        stats_match(r1, r2),
{
    broadcast use vstd::seq_lib::group_to_multiset_ensures;

    assert forall|x: FileCategory, y: FileCategory|
        #[trigger] cat_rank(x) == #[trigger] cat_rank(y) implies x == y by {}
    let c1 = r1.map_values(|pr: (FileCategory, CategoryStats)| pr.0);
    let c2 = r2.map_values(|pr: (FileCategory, CategoryStats)| pr.0);
    assert(c1.no_duplicates()) by {
        assert forall|k1: int, k2: int|
            0 <= k1 < c1.len() && 0 <= k2 < c1.len() && k1 != k2 implies c1[k1] != c1[k2] by {
            if k1 < k2 {
                assert(cat_rank(r1[k1].0) < cat_rank(r1[k2].0));
            } else {
                assert(cat_rank(r1[k2].0) < cat_rank(r1[k1].0));
            }
        }
    }
    assert(c2.no_duplicates()) by {
        assert forall|k1: int, k2: int|
            0 <= k1 < c2.len() && 0 <= k2 < c2.len() && k1 != k2 implies c2[k1] != c2[k2] by {
            if k1 < k2 {
                assert(cat_rank(r2[k1].0) < cat_rank(r2[k2].0));
            } else {
                assert(cat_rank(r2[k2].0) < cat_rank(r2[k1].0));
            }
        }
    }
    c1.lemma_multiset_has_no_duplicates();
    c2.lemma_multiset_has_no_duplicates();
    assert forall|g: FileCategory| c1.to_multiset().count(g) == c2.to_multiset().count(g) by {
        if c1.to_multiset().count(g) > 0 {
            assert(c1.contains(g));
            let k = choose|k: int| 0 <= k < c1.len() && c1[k] == g;
            assert(r1[k].0 == g);
            assert(cat_files(ft, s, g).len() > 0);
            let k2 = choose|k2: int| 0 <= k2 < r2.len() && (#[trigger] r2[k2]).0 == g;
            assert(c2[k2] == g);
            assert(c2.contains(g));
        } else {
            if c2.to_multiset().count(g) > 0 {
                assert(c2.contains(g));
                let k = choose|k: int| 0 <= k < c2.len() && c2[k] == g;
                assert(r2[k].0 == g);
                assert(cat_files(ft, s, g).len() > 0);
                let k1 = choose|k1: int| 0 <= k1 < r1.len() && (#[trigger] r1[k1]).0 == g;
                assert(c1[k1] == g);
                assert(c1.contains(g));
                assert(false);
            }
        }
    }
    assert(c1.to_multiset() =~= c2.to_multiset());
    let rle = |x: FileCategory, y: FileCategory| cat_rank(x) <= cat_rank(y);
    assert forall|i: int, j: int| 0 <= i <= j < c1.len() implies #[trigger] rle(c1[i], c1[j]) by {
        if i < j {
            assert(cat_rank(r1[i].0) < cat_rank(r1[j].0));
        }
    }
    assert forall|i: int, j: int| 0 <= i <= j < c2.len() implies #[trigger] rle(c2[i], c2[j]) by {
        if i < j {
            assert(cat_rank(r2[i].0) < cat_rank(r2[j].0));
        }
    }
    crate::sorting::lemma_sorted_multiset_unique(c1, c2, rle);
    lemma_unique_path_eq(s);
    assert forall|k: int|
        0 <= k < r1.len() implies {
        &&& (#[trigger] r1[k]).0 == r2[k].0
        &&& r1[k].1.total_size == r2[k].1.total_size
        &&& r1[k].1.file_count == r2[k].1.file_count
        &&& views(r1[k].1.files@) == views(r2[k].1.files@)
    } by {
        assert(c1[k] == c2[k]);
        let c = r1[k].0;
        assert(r2[k].0 == c);
        let cf = cat_files(ft, s, c);
        lemma_cat_files_elems(ft, s, c);
        let szle = |x: FileEntryV, y: FileEntryV| entry_le(EntryOrder::SizeDesc, x, y);
        let f1 = views(r1[k].1.files@);
        let f2 = views(r2[k].1.files@);
        assert forall|x: FileEntryV, y: FileEntryV|
            f1.to_multiset().contains(x) && f1.to_multiset().contains(y) && #[trigger] szle(x, y)
                && #[trigger] szle(y, x) implies x == y by {
            assert(cf.to_multiset().contains(x));
            assert(cf.contains(x));
            assert(cf.contains(y));
            assert(s.contains(x));
            assert(s.contains(y));
            crate::sorting::lemma_entry_le_antisym(EntryOrder::SizeDesc, x, y);
        }
        assert forall|i: int, j: int|
            0 <= i <= j < f1.len() implies #[trigger] szle(f1[i], f1[j]) by {}
        assert forall|i: int, j: int|
            0 <= i <= j < f2.len() implies #[trigger] szle(f2[i], f2[j]) by {}
        crate::sorting::lemma_sorted_multiset_unique(f1, f2, szle);
    }
}

} // verus!
