//! Directory listings: classifying the children of a directory into folders
//! and media files, splitting that work into contiguous chunks for parallel
//! workers, and assembling the snapshot returned for a request.

use vstd::prelude::*;
use vstd::string::StringSliceAdditionalSpecFns;
use vstd::utf8::encode_utf8;
use crate::filter::{is_media, is_media_name};
use crate::fingerprint::{HashEntryView, fingerprint_of};
use crate::paths::{parent_or_self, parent_path};
use crate::seqs::{flat_map, lemma_flat_map_append, lemma_flat_map_permutation};

verus! {

/// Above this many children a listing is split across parallel workers.
pub const PARALLEL_THRESHOLD: usize = 50;

/// A modification time as seconds and nanoseconds since the Unix epoch;
/// zero when it is unavailable or earlier than the epoch.
#[derive(Clone, Copy, Debug, PartialEq, Eq, Structural)]
pub struct Timestamp {
    pub secs: u64,
    pub nanos: u32,
}

/// The metadata of a child itself, its link not followed.
#[derive(Clone, Copy, Debug, PartialEq, Eq, Structural)]
pub struct EntryMeta {
    pub is_symlink: bool,
    pub modified: Timestamp,
}

/// What is read from the file system for one child of a directory. A field
/// is `None` where reading it failed.
pub struct ChildInfo {
    /// The child's final path component.
    pub name: Option<String>,
    /// The display form of the child's path.
    pub path: String,
    /// Whether the child, links resolved, is a directory.
    pub target_is_dir: Option<bool>,
    /// The child's own metadata.
    pub meta: Option<EntryMeta>,
}

/// A `ChildInfo` with its strings as character sequences.
pub struct ChildView {
    pub name: Option<Seq<char>>,
    pub path: Seq<char>,
    pub target_is_dir: Option<bool>,
    pub meta: Option<EntryMeta>,
}

impl View for ChildInfo {
    type V = ChildView;

    open spec fn view(&self) -> ChildView {
        ChildView {
            name: match self.name {
                Some(n) => Some(n@),
                None => None,
            },
            path: self.path@,
            target_is_dir: self.target_is_dir,
            meta: self.meta,
        }
    }
}

/// A listed folder.
pub struct FolderEntry {
    pub name: String,
    pub path: String,
    pub symlink: bool,
}

/// A `FolderEntry` with its strings as character sequences.
pub struct FolderView {
    pub name: Seq<char>,
    pub path: Seq<char>,
    pub symlink: bool,
}

impl View for FolderEntry {
    type V = FolderView;

    open spec fn view(&self) -> FolderView {
        FolderView { name: self.name@, path: self.path@, symlink: self.symlink }
    }
}

/// A listed media file.
pub struct FileEntry {
    pub name: String,
    pub path: String,
    pub mtime: Timestamp,
    pub symlink: bool,
}

/// A `FileEntry` with its strings as character sequences.
pub struct FileView {
    pub name: Seq<char>,
    pub path: Seq<char>,
    pub mtime: Timestamp,
    pub symlink: bool,
}

impl View for FileEntry {
    type V = FileView;

    open spec fn view(&self) -> FileView {
        FileView { name: self.name@, path: self.path@, mtime: self.mtime, symlink: self.symlink }
    }
}

/// The views of a sequence of children.
pub open spec fn child_views(s: Seq<ChildInfo>) -> Seq<ChildView> {
    s.map_values(|c: ChildInfo| c@)
}

/// The views of a sequence of folders.
pub open spec fn folder_views(s: Seq<FolderEntry>) -> Seq<FolderView> {
    s.map_values(|e: FolderEntry| e@)
}

/// The views of a sequence of files.
pub open spec fn file_views(s: Seq<FileEntry>) -> Seq<FileView> {
    s.map_values(|e: FileEntry| e@)
}

/// The folder that a child is listed as: one whose name, resolved type and
/// own metadata could all be read, and which resolves to a directory.
pub open spec fn folder_of(c: ChildView) -> Seq<FolderView> {
    match (c.name, c.target_is_dir, c.meta) {
        (Some(n), Some(true), Some(m)) => seq![
            FolderView { name: n, path: c.path, symlink: m.is_symlink },
        ],
        _ => seq![],
    }
}

/// The file that a child is listed as: one whose name, resolved type and
/// own metadata could all be read, which is not a directory, and whose name
/// has a media extension.
pub open spec fn file_of(c: ChildView) -> Seq<FileView> {
    match (c.name, c.target_is_dir, c.meta) {
        (Some(n), Some(false), Some(m)) => if is_media_name(encode_utf8(n)) {
            seq![FileView { name: n, path: c.path, mtime: m.modified, symlink: m.is_symlink }]
        } else {
            seq![]
        },
        _ => seq![],
    }
}

/// The folders listed for the children `s`, in their order.
pub open spec fn folders_of(s: Seq<ChildView>) -> Seq<FolderView> {
    flat_map(s, |c: ChildView| folder_of(c))
}

/// The files listed for the children `s`, in their order.
pub open spec fn files_of(s: Seq<ChildView>) -> Seq<FileView> {
    flat_map(s, |c: ChildView| file_of(c))
}

/// Classifies children into the folders and media files that are listed;
/// children that could not be read, and files without a media extension,
/// are left out.
pub fn classify(children: &[ChildInfo]) -> (r: (Vec<FolderEntry>, Vec<FileEntry>))
    ensures
        folder_views(r.0@) == folders_of(child_views(children@)),
        file_views(r.1@) == files_of(child_views(children@)),
{
    let mut folders: Vec<FolderEntry> = Vec::new();
    let mut files: Vec<FileEntry> = Vec::new();
    let mut i: usize = 0;
    while i < children.len()
        invariant
            i <= children@.len(),
            folder_views(folders@) == folders_of(child_views(children@).take(i as int)),
            file_views(files@) == files_of(child_views(children@).take(i as int)),
        decreases children@.len() - i,
    {
        let c = &children[i];
        let ghost fo = folders@;
        let ghost fi = files@;
        let ghost prefix = child_views(children@).take(i + 1);
        assert(prefix.drop_last() =~= child_views(children@).take(i as int));
        assert(prefix.last() == c@);
        match (&c.name, c.target_is_dir, c.meta) {
            (Some(n), Some(true), Some(m)) => {
                folders.push(FolderEntry { name: n.clone(), path: c.path.clone(), symlink: m.is_symlink });
            },
            (Some(n), Some(false), Some(m)) => {
                if is_media(n.as_str()) {
                    files.push(
                        FileEntry {
                            name: n.clone(),
                            path: c.path.clone(),
                            mtime: m.modified,
                            symlink: m.is_symlink,
                        },
                    );
                }
            },
            _ => {},
        }
        assert(folder_views(folders@) =~= folder_views(fo) + folder_of(c@));
        assert(file_views(files@) =~= file_views(fi) + file_of(c@));
        i = i + 1;
    }
    assert(child_views(children@).take(children@.len() as int) =~= child_views(children@));
    (folders, files)
}

/// The number of children in each chunk of a parallel listing: the
/// children divided by twice the processor count plus one, and at least one.
pub open spec fn chunk_size_spec(n: int, cpus: int) -> int {
    let q = n / (2 * cpus + 1);
    if q < 1 { 1 } else { q }
}

/// The chunks, as half-open index ranges, that a listing of `n` children
/// is split into: one chunk holding everything up to the threshold, above
/// it consecutive chunks of `chunk_size_spec(n, cpus)` children, the last
/// one possibly shorter.
pub open spec fn chunk_ranges_spec(n: int, cpus: int) -> Seq<(int, int)> {
    if n <= PARALLEL_THRESHOLD {
        seq![(0, n)]
    } else {
        let size = chunk_size_spec(n, cpus);
        Seq::new(
            ((n + size - 1) / size) as nat,
            |i: int| (i * size, if (i + 1) * size < n { (i + 1) * size } else { n }),
        )
    }
}

/// Whether a listing of `n` children is split across parallel workers.
pub fn is_parallel(n: usize) -> (r: bool)
    ensures
        r == (n > PARALLEL_THRESHOLD),
{
    n > PARALLEL_THRESHOLD
}

/// The chunk size for `n` children on `cpus` processors.
pub fn chunk_size(n: usize, cpus: usize) -> (r: usize)
    requires
        cpus >= 1,
    ensures
        r as int == chunk_size_spec(n as int, cpus as int),
        1 <= r <= if n >= 1 { n as int } else { 1 },
{
    if cpus > (usize::MAX - 1) / 2 {
        assert(n as int / (2 * cpus as int + 1) == 0) by (nonlinear_arith)
            requires
                n as int <= usize::MAX as int,
                2 * cpus as int + 1 > usize::MAX as int,
        ;
        return 1;
    }
    let d = 2 * cpus + 1;
    let q = n / d;
    assert(q <= n) by (nonlinear_arith)
        requires
            q == n as int / d as int,
            d >= 1,
    ;
    if q < 1 { 1 } else { q }
}

/// The chunks that a listing of `n` children on `cpus` processors is split
/// into, as `chunk_ranges_spec` gives them.
pub fn chunk_ranges(n: usize, cpus: usize) -> (r: Vec<(usize, usize)>)
    requires
        cpus >= 1,
    ensures
        r@.len() == chunk_ranges_spec(n as int, cpus as int).len(),
        forall|i: int|
            0 <= i < r@.len() ==> (#[trigger] r@[i]).0 as int == chunk_ranges_spec(
                n as int,
                cpus as int,
            )[i].0 && r@[i].1 as int == chunk_ranges_spec(n as int, cpus as int)[i].1,
{
    let mut r: Vec<(usize, usize)> = Vec::new();
    if n <= PARALLEL_THRESHOLD {
        r.push((0, n));
        return r;
    }
    let size = chunk_size(n, cpus);
    let ghost count = (n + size - 1) / size as int;
    let ghost spec = chunk_ranges_spec(n as int, cpus as int);
    let mut start: usize = 0;
    let mut i: usize = 0;
    assert(count <= n) by (nonlinear_arith)
        requires
            count == (n + size - 1) / size as int,
            1 <= size <= n,
    ;
    while start < n
        invariant
            n > PARALLEL_THRESHOLD,
            1 <= size <= n,
            size as int == chunk_size_spec(n as int, cpus as int),
            spec == chunk_ranges_spec(n as int, cpus as int),
            spec.len() == count,
            count == (n + size - 1) / size as int,
            count <= n,
            i <= count,
            start as int == if i * size < n { i * size } else { n as int },
            start == n ==> i == count,
            r@.len() == i,
            forall|j: int|
                0 <= j < i ==> (#[trigger] r@[j]).0 as int == spec[j].0 && r@[j].1 as int
                    == spec[j].1,
        decreases n - start,
    {
        assert(i < count) by (nonlinear_arith)
            requires
                i * size < n,
                count == (n + size - 1) / size as int,
                size >= 1,
        ;
        assert((i + 1) * size == i * size + size) by (nonlinear_arith);
        let end: usize = if n - start > size { start + size } else { n };
        r.push((start, end));
        proof {
            if end == n {
                assert(i + 1 == count) by (nonlinear_arith)
                    requires
                        i * size < n,
                        n <= (i + 1) * size,
                        count == (n + size - 1) / size as int,
                        size >= 1,
                ;
            }
        }
        start = end;
        i = i + 1;
    }
    r
}

/// Relies on num_cpus's `get`: the number of processors available to this
/// process, which its documentation promises is at least one.
#[verifier::external_body]
fn cpu_count() -> (r: usize)
    ensures
        r >= 1,
{
    num_cpus::get()
}

/// The chunks that a listing of `n` children is split into on this machine.
pub fn host_chunk_ranges(n: usize) -> (r: Vec<(usize, usize)>)
    ensures
        exists|cpus: int|
            cpus >= 1 && r@.len() == chunk_ranges_spec(n as int, cpus).len() && forall|i: int|
                0 <= i < r@.len() ==> (#[trigger] r@[i]).0 as int == chunk_ranges_spec(
                    n as int,
                    cpus,
                )[i].0 && r@[i].1 as int == chunk_ranges_spec(n as int, cpus)[i].1,
{
    let cpus = cpu_count();
    chunk_ranges(n, cpus)
}

/// `ranges` split `0..end` into consecutive, possibly empty, pieces.
pub open spec fn contiguous_cover(ranges: Seq<(int, int)>, end: int) -> bool {
    &&& ranges.len() >= 1
    &&& ranges[0].0 == 0
    &&& ranges.last().1 == end
    &&& forall|i: int| 0 <= i < ranges.len() ==> 0 <= #[trigger] ranges[i].0 <= ranges[i].1
    &&& forall|i: int| 0 <= i < ranges.len() - 1 ==> #[trigger] ranges[i].1 == ranges[i + 1].0
}

/// The folders listed when each range of `s` is classified on its own and
/// the results are joined in range order.
pub open spec fn chunked_folders(s: Seq<ChildView>, ranges: Seq<(int, int)>) -> Seq<FolderView>
    decreases ranges.len(),
{
    if ranges.len() == 0 {
        seq![]
    } else {
        chunked_folders(s, ranges.drop_last()) + folders_of(
            s.subrange(ranges.last().0, ranges.last().1),
        )
    }
}

/// The files listed when each range of `s` is classified on its own and
/// the results are joined in range order.
pub open spec fn chunked_files(s: Seq<ChildView>, ranges: Seq<(int, int)>) -> Seq<FileView>
    decreases ranges.len(),
{
    if ranges.len() == 0 {
        seq![]
    } else {
        chunked_files(s, ranges.drop_last()) + files_of(
            s.subrange(ranges.last().0, ranges.last().1),
        )
    }
}

proof fn lemma_chunked_prefix(s: Seq<ChildView>, ranges: Seq<(int, int)>, end: int)
    requires
        contiguous_cover(ranges, end),
        end <= s.len(),
    ensures
        chunked_folders(s, ranges) == folders_of(s.take(end)),
        chunked_files(s, ranges) == files_of(s.take(end)),
    decreases ranges.len(),
{
    let last = ranges.last();
    if ranges.len() == 1 {
        assert(s.take(end) =~= s.subrange(0, end));
        assert(chunked_folders(s, ranges.drop_last()) =~= seq![]);
        assert(chunked_files(s, ranges.drop_last()) =~= seq![]);
        assert(chunked_folders(s, ranges) =~= folders_of(s.take(end)));
        assert(chunked_files(s, ranges) =~= files_of(s.take(end)));
    } else {
        let front = ranges.drop_last();
        assert(front.last() == ranges[ranges.len() - 2]);
        assert(contiguous_cover(front, last.0));
        lemma_chunked_prefix(s, front, last.0);
        assert(s.take(end) =~= s.take(last.0) + s.subrange(last.0, end));
        lemma_flat_map_append(s.take(last.0), s.subrange(last.0, end), |c: ChildView| folder_of(c));
        lemma_flat_map_append(s.take(last.0), s.subrange(last.0, end), |c: ChildView| file_of(c));
    }
}

proof fn lemma_chunk_ranges_cover(n: int, cpus: int)
    requires
        n >= 0,
        cpus >= 1,
    ensures
        contiguous_cover(chunk_ranges_spec(n, cpus), n),
{
    let r = chunk_ranges_spec(n, cpus);
    if n > PARALLEL_THRESHOLD {
        let size = chunk_size_spec(n, cpus);
        let count = (n + size - 1) / size;
        assert(size >= 1);
        assert(count >= 1 && (count - 1) * size < n && n <= count * size) by (nonlinear_arith)
            requires
                size >= 1,
                n > 0,
                count == (n + size - 1) / size,
        ;
        assert(r.last().1 == n);
        assert forall|i: int| 0 <= i < r.len() implies 0 <= #[trigger] r[i].0 <= r[i].1 by {
            assert(0 <= i * size <= (i + 1) * size) by (nonlinear_arith)
                requires
                    i >= 0,
                    size >= 1,
            ;
            assert(i * size < n) by (nonlinear_arith)
                requires
                    0 <= i <= count - 1,
                    (count - 1) * size < n,
                    size >= 1,
            ;
        }
        assert forall|i: int| 0 <= i < r.len() - 1 implies #[trigger] r[i].1 == r[i + 1].0 by {
            assert((i + 1) * size < n) by (nonlinear_arith)
                requires
                    0 <= i + 1 <= count - 1,
                    (count - 1) * size < n,
                    size >= 1,
            ;
        }
    }
}

/// Splitting a listing into the chunks of `chunk_ranges_spec`, classifying
/// each on its own and joining the results in chunk order gives exactly
/// what classifying all children at once gives, folders and files alike,
/// for any processor count.
pub proof fn lemma_parallel_listing_matches_serial(s: Seq<ChildView>, cpus: int)
    requires
        cpus >= 1,
    ensures
        chunked_folders(s, chunk_ranges_spec(s.len() as int, cpus)) == folders_of(s),
        chunked_files(s, chunk_ranges_spec(s.len() as int, cpus)) == files_of(s),
{
    lemma_chunk_ranges_cover(s.len() as int, cpus);
    lemma_chunked_prefix(s, chunk_ranges_spec(s.len() as int, cpus), s.len() as int);
    assert(s.take(s.len() as int) =~= s);
}

/// Listing an unchanged directory again, whatever order its children are
/// enumerated in, lists the same folders and files (order aside) and gives
/// the same fingerprint.
pub proof fn lemma_repeated_listing_agrees(
    a: Seq<ChildView>,
    b: Seq<ChildView>,
    ha: Seq<HashEntryView>,
    hb: Seq<HashEntryView>,
)
    requires
        a.to_multiset() == b.to_multiset(),
        ha.to_multiset() == hb.to_multiset(),
    ensures
        folders_of(a).to_multiset() == folders_of(b).to_multiset(),
        files_of(a).to_multiset() == files_of(b).to_multiset(),
        fingerprint_of(ha) == fingerprint_of(hb),
{
    lemma_flat_map_permutation(a, b, |c: ChildView| folder_of(c));
    lemma_flat_map_permutation(a, b, |c: ChildView| file_of(c));
    crate::fingerprint::lemma_fingerprint_order_independent(ha, hb);
}

/// The listing of one directory: its display path, its folders (the
/// synthetic `..` entry first), its media files and its fingerprint.
pub struct DirectorySnapshot {
    pub canonical_path: String,
    pub folders: Vec<FolderEntry>,
    pub files: Vec<FileEntry>,
    pub hash: String,
}

/// The view of the `..` entry listed first for the directory `dir`.
pub open spec fn parent_entry_view(dir: Seq<char>) -> FolderView {
    FolderView { name: seq!['.', '.'], path: parent_or_self(dir), symlink: false }
}

/// The `..` entry that leads from the directory `dir` (a display path) to
/// its parent, or to itself when it has none.
pub fn parent_entry(dir: &str) -> (r: FolderEntry)
    ensures
        r@ == parent_entry_view(dir@),
{
    proof {
        reveal_strlit("..");
    }
    let path = match parent_path(dir) {
        Some(p) => p,
        None => dir.to_owned(),
    };
    let name = "..".to_owned();
    assert(name@ =~= seq!['.', '.']);
    FolderEntry { name, path, symlink: false }
}

/// The folders of the classified parts, in part order.
pub open spec fn part_folders(parts: Seq<(Vec<FolderEntry>, Vec<FileEntry>)>) -> Seq<FolderView> {
    flat_map(parts, |p: (Vec<FolderEntry>, Vec<FileEntry>)| folder_views(p.0@))
}

/// The files of the classified parts, in part order.
pub open spec fn part_files(parts: Seq<(Vec<FolderEntry>, Vec<FileEntry>)>) -> Seq<FileView> {
    flat_map(parts, |p: (Vec<FolderEntry>, Vec<FileEntry>)| file_views(p.1@))
}

/// Assembles the snapshot of the directory `dir` from the classified parts
/// of its children, in order, and its fingerprint: the `..` entry comes
/// first among the folders, then the parts' folders; the files are the
/// parts' files.
pub fn assemble_snapshot(dir: String, parts: Vec<(Vec<FolderEntry>, Vec<FileEntry>)>, hash: String) -> (r:
    DirectorySnapshot)
    ensures
        r.canonical_path@ == dir@,
        r.hash@ == hash@,
        folder_views(r.folders@) == seq![parent_entry_view(dir@)] + part_folders(parts@),
        r.folders@.len() >= 1,
        r.folders@[0]@ == parent_entry_view(dir@),
        file_views(r.files@) == part_files(parts@),
{
    let ghost orig = parts@;
    let mut rest = parts;
    let n: usize = rest.len();
    let mut folders: Vec<FolderEntry> = Vec::new();
    folders.push(parent_entry(dir.as_str()));
    let mut files: Vec<FileEntry> = Vec::new();
    let mut i: usize = 0;
    while rest.len() > 0
        invariant
            i <= orig.len(),
            orig.len() == n,
            rest@ == orig.skip(i as int),
            folder_views(folders@) == seq![parent_entry_view(dir@)] + part_folders(orig.take(i as int)),
            file_views(files@) == part_files(orig.take(i as int)),
        decreases rest@.len(),
    {
        let ghost fo = folders@;
        let ghost fi = files@;
        let mut part = rest.remove(0);
        assert(part == orig[i as int]);
        folders.append(&mut part.0);
        files.append(&mut part.1);
        assert(orig.take(i + 1).drop_last() =~= orig.take(i as int));
        assert(folder_views(folders@) =~= folder_views(fo) + folder_views(orig[i as int].0@));
        assert(file_views(files@) =~= file_views(fi) + file_views(orig[i as int].1@));
        assert(rest@ =~= orig.skip(i + 1));
        i = i + 1;
    }
    assert(orig.take(i as int) =~= orig);
    assert(folder_views(folders@)[0] == folders@[0]@);
    DirectorySnapshot { canonical_path: dir, folders, files, hash }
}

/// The errors of a request.
#[derive(Clone, Copy, Debug, PartialEq, Eq, Structural)]
pub enum ListError {
    /// The requested path does not exist.
    NotFound,
    /// The requested path exists and is not a directory.
    NotADirectory,
    /// The directory could not be read.
    ReadFailure,
    /// Reading the directory for its fingerprint failed.
    HashFailure,
    /// A fingerprint was asked for an empty path.
    EmptyPath,
}

impl ListError {
    /// A message for the user.
    pub fn message(&self) -> (r: String)
        ensures
            r@ == match *self {
                ListError::NotFound => "Path does not exist"@,
                ListError::NotADirectory => "Path is not a directory"@,
                ListError::ReadFailure => "Could not read directory"@,
                ListError::HashFailure => "Could not calculate folder hash"@,
                ListError::EmptyPath => "Path is empty"@,
            },
    {
        match self {
            ListError::NotFound => "Path does not exist".to_owned(),
            ListError::NotADirectory => "Path is not a directory".to_owned(),
            ListError::ReadFailure => "Could not read directory".to_owned(),
            ListError::HashFailure => "Could not calculate folder hash".to_owned(),
            ListError::EmptyPath => "Path is empty".to_owned(),
        }
    }
}

/// What the requested path turned out to be, its links resolved.
#[derive(Clone, Copy, Debug, PartialEq, Eq, Structural)]
pub enum PathKind {
    Missing,
    NotDirectory,
    Directory,
}

/// Whether a path of kind `kind` can be listed or fingerprinted.
pub fn check_directory(kind: PathKind) -> (r: Result<(), ListError>)
    ensures
        r == match kind {
            PathKind::Missing => Err(ListError::NotFound),
            PathKind::NotDirectory => Err(ListError::NotADirectory),
            PathKind::Directory => Ok(()),
        },
{
    match kind {
        PathKind::Missing => Err(ListError::NotFound),
        PathKind::NotDirectory => Err(ListError::NotADirectory),
        PathKind::Directory => Ok(()),
    }
}

/// Whether a fingerprint request for `path` may go on to the file system:
/// an empty path is refused at once.
pub fn check_fingerprint_request(path: &str) -> (r: Result<(), ListError>)
    ensures
        path@.len() == 0 ==> r == Err::<(), ListError>(ListError::EmptyPath),
        path@.len() != 0 ==> r is Ok,
{
    if path.is_empty() {
        Err(ListError::EmptyPath)
    } else {
        Ok(())
    }
}

} // verus!
