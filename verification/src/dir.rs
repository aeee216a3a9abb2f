//! The dual-mode file and directory model.
//!
//! A `File` or `Dir` is identified by its relative path alone; its backing is
//! either a table of records baked in at build time (embedded) or a root
//! directory on disk (dynamic).  Two handles are equal exactly when their
//! relative paths are equal, whatever their backing or contents.

use vstd::prelude::*;
use vstd::std_specs::cmp::PartialEqSpec;

use crate::error::Error;
use crate::fsio;
use crate::paths::check_under;
use crate::paths::extension_of;
use crate::paths::extension_str;
use crate::paths::file_name_of;
use crate::paths::file_name_str;
use crate::paths::find_char;
use crate::paths::first_index_of;
use crate::paths::first_segment;
use crate::paths::is_direct_child;
use crate::paths::is_under;
use crate::paths::join;
use crate::paths::lemma_first_index_of;
use crate::paths::lemma_join_under;
use crate::paths::lemma_join_valid;
use crate::paths::no_slash;
use crate::paths::rest_under;
use crate::paths::spec_join;
use crate::paths::split_under;
use crate::paths::str_eq;
use crate::paths::valid_dir_path;
use crate::paths::valid_name;
use crate::paths::valid_rel_path;

verus! {

/// Modification time and size of a file.
pub struct FileMetaData {
    /// The last modification time of the file, in seconds since the Unix epoch.
    pub modified: u64,
    /// The size of the file in bytes.
    pub size: u64,
}

/// One file of an embedded tree: its path relative to the embed root, its
/// contents, and its modification time where the embedding recorded one.
#[derive(Debug)]
pub struct EmbedRecord {
    pub path: String,
    pub contents: Vec<u8>,
    pub modified: Option<u64>,
}

/// The mathematical content of one embedded record.
pub struct RecordView {
    pub path: Seq<char>,
    pub contents: Seq<u8>,
    pub modified: Option<u64>,
}

impl View for EmbedRecord {
    type V = RecordView;

    open spec fn view(&self) -> RecordView {
        RecordView { path: self.path@, contents: self.contents@, modified: self.modified }
    }
}

impl Clone for EmbedRecord {
    fn clone(&self) -> (res: Self)
        ensures
            res@ == self@,
    {
        EmbedRecord {
            path: self.path.clone(),
            contents: clone_bytes(&self.contents),
            modified: self.modified,
        }
    }
}

/// Copies a byte vector.
fn clone_bytes(v: &Vec<u8>) -> (r: Vec<u8>)
    ensures
        r@ == v@,
{
    let r = v.clone();
    proof {
        assert(r@ =~= v@);
    }
    r
}

/// The views of a table's records.
pub open spec fn recs(t: Seq<EmbedRecord>) -> Seq<RecordView> {
    Seq::new(t.len(), |i: int| t[i]@)
}

/// A well-formed embedded table: well-formed relative paths, no path twice.
pub open spec fn table_wf(t: Seq<RecordView>) -> bool {
    &&& forall|i: int| 0 <= i < t.len() ==> valid_rel_path((#[trigger] t[i]).path)
    &&& forall|i: int, j: int| 0 <= i < j < t.len() ==> t[i].path != t[j].path
}

/// The table defines a file at `p`.
pub open spec fn table_has(t: Seq<RecordView>, p: Seq<char>) -> bool {
    exists|i: int| 0 <= i < t.len() && (#[trigger] t[i]).path == p
}

/// The record at `p`; meaningful when `table_has(t, p)`.
pub open spec fn table_lookup(t: Seq<RecordView>, p: Seq<char>) -> RecordView {
    t[choose|i: int| 0 <= i < t.len() && (#[trigger] t[i]).path == p]
}

pub proof fn lemma_table_lookup(t: Seq<RecordView>, i: int)
    requires
        table_wf(t),
        0 <= i < t.len(),
    ensures
        table_has(t, t[i].path),
        table_lookup(t, t[i].path) == t[i],
{
    assert(0 <= i < t.len() && t[i].path == t[i].path);
}

/// The backing of a file, as a mathematical value.
pub enum FileBackingView {
    Embed { contents: Seq<u8>, modified: Option<u64> },
    Disk { root: Seq<char> },
}

/// The mathematical content of a file handle.
pub struct FileView {
    pub rel: Seq<char>,
    pub backing: FileBackingView,
}

impl FileView {
    pub open spec fn wf(self) -> bool {
        valid_rel_path(self.rel)
    }

    pub open spec fn is_embed(self) -> bool {
        self.backing is Embed
    }
}

/// The file handle built from an embedded record.
pub open spec fn record_file(r: RecordView) -> FileView {
    FileView {
        rel: r.path,
        backing: FileBackingView::Embed { contents: r.contents, modified: r.modified },
    }
}

/// The backing of a directory, as a mathematical value.
pub enum DirBackingView {
    Embed { table: Seq<RecordView>, source: Seq<char> },
    Disk { root: Seq<char> },
}

/// The mathematical content of a directory handle.
pub struct DirView {
    pub rel: Seq<char>,
    pub backing: DirBackingView,
}

impl DirView {
    pub open spec fn wf(self) -> bool {
        &&& valid_dir_path(self.rel)
        &&& match self.backing {
            DirBackingView::Embed { table, .. } => table_wf(table),
            DirBackingView::Disk { .. } => true,
        }
    }

    pub open spec fn is_embed(self) -> bool {
        self.backing is Embed
    }
}

/// A directory entry, as a mathematical value.
pub enum DirEntryView {
    File(FileView),
    Dir(DirView),
}

impl DirEntryView {
    pub open spec fn wf(self) -> bool {
        match self {
            DirEntryView::File(f) => f.wf(),
            DirEntryView::Dir(c) => c.wf(),
        }
    }

    pub open spec fn rel(self) -> Seq<char> {
        match self {
            DirEntryView::File(f) => f.rel,
            DirEntryView::Dir(c) => c.rel,
        }
    }
}

/// The file handle `f` draws its contents from directory `v`'s backing:
/// for an embedded directory it carries the table's record at its path,
/// for a dynamic directory it reads below the same root.
pub open spec fn file_backed_by(f: FileView, v: DirView) -> bool {
    match v.backing {
        DirBackingView::Embed { table, .. } => {
            match f.backing {
                FileBackingView::Embed { .. } => {
                    table_has(table, f.rel) && f == record_file(table_lookup(table, f.rel))
                },
                FileBackingView::Disk { .. } => false,
            }
        },
        DirBackingView::Disk { root } => f.backing == (FileBackingView::Disk { root }),
    }
}

/// The directory handle `c` shares `v`'s backing.
pub open spec fn dir_backed_by(c: DirView, v: DirView) -> bool {
    c.backing == v.backing
}

/// `e` is an immediate child of the directory `v`.
pub open spec fn entry_child_of(e: DirEntryView, v: DirView) -> bool {
    match e {
        DirEntryView::File(f) => file_backed_by(f, v) && is_direct_child(f.rel, v.rel),
        DirEntryView::Dir(c) => dir_backed_by(c, v) && is_direct_child(c.rel, v.rel),
    }
}

/// Some entry of `es` is a file at `p`.
pub open spec fn has_file_entry(es: Seq<DirEntry>, p: Seq<char>) -> bool {
    exists|k: int| 0 <= k < es.len() && ((#[trigger] es[k])@ matches DirEntryView::File(f) && f.rel == p)
}

/// Some entry of `es` is a directory at `p`.
pub open spec fn has_dir_entry(es: Seq<DirEntry>, p: Seq<char>) -> bool {
    exists|k: int| 0 <= k < es.len() && ((#[trigger] es[k])@ matches DirEntryView::Dir(c) && c.rel == p)
}

proof fn lemma_push_preserves_entries(es: Seq<DirEntry>, e: DirEntry)
    ensures
        forall|p: Seq<char>| #[trigger] has_file_entry(es, p) ==> has_file_entry(es.push(e), p),
        forall|p: Seq<char>| #[trigger] has_dir_entry(es, p) ==> has_dir_entry(es.push(e), p),
{
    assert forall|p: Seq<char>| #[trigger] has_file_entry(es, p) implies has_file_entry(
        es.push(e),
        p,
    ) by {
        let k = choose|k: int|
            0 <= k < es.len() && ((#[trigger] es[k])@ matches DirEntryView::File(f) && f.rel == p);
        assert(es.push(e)[k] == es[k]);
    }
    assert forall|p: Seq<char>| #[trigger] has_dir_entry(es, p) implies has_dir_entry(
        es.push(e),
        p,
    ) by {
        let k = choose|k: int|
            0 <= k < es.len() && ((#[trigger] es[k])@ matches DirEntryView::Dir(c) && c.rel == p);
        assert(es.push(e)[k] == es[k]);
    }
}

/// A segment-only name is itself a well-formed relative path.
proof fn lemma_name_is_rel(n: Seq<char>)
    requires
        valid_name(n),
    ensures
        valid_rel_path(n),
{
}

/// The remainder of a well-formed path below a directory is well formed.
proof fn lemma_rest_valid(p: Seq<char>, d: Seq<char>)
    requires
        valid_rel_path(p),
        valid_dir_path(d),
        is_under(p, d),
    ensures
        valid_rel_path(rest_under(p, d)),
{
    let q = rest_under(p, d);
    if d.len() > 0 {
        assert(q.len() == p.len() - d.len() - 1);
        assert(q[0] == p[d.len() as int + 1]);
        assert(!(p[d.len() as int] == '/' && p[d.len() as int + 1] == '/'));
        assert(q[q.len() - 1] == p[p.len() - 1]);
        assert forall|j: int| 0 <= j < q.len() - 1 implies !(#[trigger] q[j] == '/' && q[j + 1]
            == '/') by {
            assert(q[j] == p[d.len() as int + 1 + j]);
            assert(q[j + 1] == p[d.len() as int + 1 + j + 1]);
        }
    }
}

/// The first segment of a well-formed relative path is a valid name.
proof fn lemma_first_segment_valid(q: Seq<char>)
    requires
        valid_rel_path(q),
    ensures
        valid_name(first_segment(q)),
{
    lemma_first_index_of(q, '/');
    let fi = first_index_of(q, '/');
    if fi >= 0 {
        assert(q[0] != '/');
        assert(fi > 0);
        assert forall|j: int| 0 <= j < first_segment(q).len() implies first_segment(q)[j]
            != '/' by {
            assert(first_segment(q)[j] == q[j]);
        }
    }
}

/// A file handle: a relative path plus an embedded or on-disk backing.
#[derive(Debug)]
pub struct File {
    rel: String,
    backing: FileBacking,
}

#[derive(Debug)]
enum FileBacking {
    Embed { contents: Vec<u8>, modified: Option<u64> },
    Disk { root: String },
}

impl View for File {
    type V = FileView;

    closed spec fn view(&self) -> FileView {
        FileView {
            rel: self.rel@,
            backing: match self.backing {
                FileBacking::Embed { contents, modified } => FileBackingView::Embed {
                    contents: contents@,
                    modified,
                },
                FileBacking::Disk { root } => FileBackingView::Disk { root: root@ },
            },
        }
    }
}

impl Clone for File {
    fn clone(&self) -> (res: Self)
        ensures
            res@ == self@,
    {
        File {
            rel: self.rel.clone(),
            backing: match &self.backing {
                FileBacking::Embed { contents, modified } => FileBacking::Embed {
                    contents: clone_bytes(contents),
                    modified: *modified,
                },
                FileBacking::Disk { root } => FileBacking::Disk { root: root.clone() },
            },
        }
    }
}

impl PartialEq for File {
    /// Two files are equal exactly when their relative paths are equal,
    /// whatever their backing or contents.
    fn eq(&self, other: &Self) -> (r: bool) {
        str_eq(self.rel.as_str(), other.rel.as_str())
    }
}

impl vstd::std_specs::cmp::PartialEqSpecImpl for File {
    open spec fn obeys_eq_spec() -> bool {
        true
    }

    open spec fn eq_spec(&self, other: &Self) -> bool {
        self@.rel == other@.rel
    }
}

/// A directory handle: a relative path plus an embedded or on-disk backing.
#[derive(Debug)]
pub struct Dir {
    rel: String,
    backing: DirBacking,
}

#[derive(Debug)]
enum DirBacking {
    Embed { table: Vec<EmbedRecord>, source: String },
    Disk { root: String },
}

impl View for Dir {
    type V = DirView;

    closed spec fn view(&self) -> DirView {
        DirView {
            rel: self.rel@,
            backing: match self.backing {
                DirBacking::Embed { table, source } => DirBackingView::Embed {
                    table: recs(table@),
                    source: source@,
                },
                DirBacking::Disk { root } => DirBackingView::Disk { root: root@ },
            },
        }
    }
}

/// Copies an embedded table.
fn clone_table(t: &Vec<EmbedRecord>) -> (r: Vec<EmbedRecord>)
    ensures
        recs(r@) == recs(t@),
{
    let r = t.clone();
    proof {
        assert forall|i: int| 0 <= i < t@.len() implies recs(r@)[i] == recs(t@)[i] by {
            assert(cloned::<EmbedRecord>(t@[i], r@[i]));
        }
        assert(recs(r@) =~= recs(t@));
    }
    r
}

impl Clone for Dir {
    fn clone(&self) -> (res: Self)
        ensures
            res@ == self@,
    {
        Dir {
            rel: self.rel.clone(),
            backing: match &self.backing {
                DirBacking::Embed { table, source } => DirBacking::Embed {
                    table: clone_table(table),
                    source: source.clone(),
                },
                DirBacking::Disk { root } => DirBacking::Disk { root: root.clone() },
            },
        }
    }
}

impl PartialEq for Dir {
    /// Two directories are equal exactly when their relative paths are equal.
    fn eq(&self, other: &Self) -> (r: bool) {
        str_eq(self.rel.as_str(), other.rel.as_str())
    }
}

impl vstd::std_specs::cmp::PartialEqSpecImpl for Dir {
    open spec fn obeys_eq_spec() -> bool {
        true
    }

    open spec fn eq_spec(&self, other: &Self) -> bool {
        self@.rel == other@.rel
    }
}

/// A directory entry: a file or a directory, as produced by listings.
#[derive(Debug)]
pub struct DirEntry {
    inner: EntryInner,
}

#[derive(Debug)]
enum EntryInner {
    File(File),
    Dir(Dir),
}

impl View for DirEntry {
    type V = DirEntryView;

    closed spec fn view(&self) -> DirEntryView {
        match self.inner {
            EntryInner::File(f) => DirEntryView::File(f@),
            EntryInner::Dir(d) => DirEntryView::Dir(d@),
        }
    }
}

impl Clone for DirEntry {
    fn clone(&self) -> (res: Self)
        ensures
            res@ == self@,
    {
        DirEntry {
            inner: match &self.inner {
                EntryInner::File(f) => EntryInner::File(f.clone()),
                EntryInner::Dir(d) => EntryInner::Dir(d.clone()),
            },
        }
    }
}

impl PartialEq for DirEntry {
    /// Entries are equal when they have the same kind and relative path.
    fn eq(&self, other: &Self) -> (r: bool) {
        match (&self.inner, &other.inner) {
            (EntryInner::File(a), EntryInner::File(b)) => str_eq(a.rel.as_str(), b.rel.as_str()),
            (EntryInner::Dir(a), EntryInner::Dir(b)) => str_eq(a.rel.as_str(), b.rel.as_str()),
            _ => false,
        }
    }
}

impl vstd::std_specs::cmp::PartialEqSpecImpl for DirEntry {
    open spec fn obeys_eq_spec() -> bool {
        true
    }

    open spec fn eq_spec(&self, other: &Self) -> bool {
        match (self@, other@) {
            (DirEntryView::File(a), DirEntryView::File(b)) => a.rel == b.rel,
            (DirEntryView::Dir(a), DirEntryView::Dir(b)) => a.rel == b.rel,
            _ => false,
        }
    }
}

/// The absolute position of `rel` inside the root directory `root`.
pub open spec fn spec_abs(root: Seq<char>, rel: Seq<char>) -> Seq<char> {
    if rel.len() == 0 {
        root
    } else {
        spec_join(root, rel)
    }
}

/// Joins a root and a relative path into an absolute position.
fn abs_of(root: &str, rel: &str) -> (r: String)
    ensures
        r@ == spec_abs(root@, rel@),
{
    if rel.unicode_len() == 0 {
        String::from_str(root)
    } else {
        join(root, rel)
    }
}

/// Checks that a string is a single well-formed name: nonempty, no separator.
fn check_name(s: &str) -> (r: bool)
    ensures
        r == valid_name(s@),
{
    if s.unicode_len() == 0 {
        return false;
    }
    match find_char(s, '/') {
        Some(_) => {
            proof {
                lemma_first_index_of(s@, '/');
            }
            false
        },
        None => {
            proof {
                lemma_first_index_of(s@, '/');
            }
            true
        },
    }
}

/// The views of a list of entries.
pub open spec fn entry_views(es: Seq<DirEntry>) -> Seq<DirEntryView> {
    Seq::new(es.len(), |i: int| es[i]@)
}

/// Decides a disk file lookup from the stat answer: a handle at `rel`
/// below `root` comes back exactly when the stat found a regular file.
pub fn file_from_stat(
    stat: Result<(u64, Option<u64>, bool, bool), Error>,
    root: &String,
    rel: String,
) -> (r: Option<File>)
    requires
        valid_rel_path(rel@),
    ensures
        r is Some <==> (stat matches Ok(s) && s.2),
        r matches Some(f) ==> f@ == (FileView {
            rel: rel@,
            backing: FileBackingView::Disk { root: root@ },
        }) && f@.wf(),
{
    match stat {
        Ok((_, _, is_file, _)) => {
            if is_file {
                Some(File { rel, backing: FileBacking::Disk { root: root.clone() } })
            } else {
                None
            }
        },
        Err(_) => None,
    }
}

/// Decides a disk directory lookup from the stat answer: a handle at `rel`
/// below `root` comes back exactly when the stat found a directory.
pub fn dir_from_stat(
    stat: Result<(u64, Option<u64>, bool, bool), Error>,
    root: &String,
    rel: String,
) -> (r: Option<Dir>)
    requires
        valid_rel_path(rel@),
    ensures
        r is Some <==> (stat matches Ok(s) && s.3),
        r matches Some(c) ==> c@ == (DirView {
            rel: rel@,
            backing: DirBackingView::Disk { root: root@ },
        }) && c@.wf(),
{
    match stat {
        Ok((_, _, _, is_dir)) => {
            if is_dir {
                Some(Dir { rel, backing: DirBacking::Disk { root: root.clone() } })
            } else {
                None
            }
        },
        Err(_) => None,
    }
}

/// Decides metadata from the stat answer: size and modification time when
/// the stat succeeded and reported a time; metadata-unavailable when the
/// platform reported none; the stat's own failure otherwise.
pub fn metadata_from_stat(stat: Result<(u64, Option<u64>, bool, bool), Error>) -> (r: Result<
    FileMetaData,
    Error,
>)
    ensures
        stat matches Ok(s) ==> {
            &&& (s.1 matches Some(m) ==> (r matches Ok(md) && md.modified == m && md.size
                == s.0))
            &&& (s.1 is None ==> (r matches Err(e) && e is MetadataUnavailable))
        },
        stat matches Err(e) ==> (r matches Err(e2) && e2 == e),
{
    match stat {
        Ok((size, modified, _, _)) => {
            match modified {
                Some(m) => Ok(FileMetaData { modified: m, size }),
                None => Err(Error::MetadataUnavailable),
            }
        },
        Err(e) => Err(e),
    }
}

/// The entries a disk listing yields below directory `d` of root `root`:
/// one handle per listed item, of the item's kind, at the joined path, in
/// listing order; an item that is neither a regular file nor a directory,
/// or whose name is not a single well-formed segment, contributes nothing.
pub open spec fn listing_entries(
    items: Seq<(String, bool, bool)>,
    d: Seq<char>,
    root: Seq<char>,
) -> Seq<DirEntryView>
    decreases items.len(),
{
    if items.len() == 0 {
        Seq::empty()
    } else {
        let prior = listing_entries(items.drop_last(), d, root);
        let item = items.last();
        if !valid_name(item.0@) {
            prior
        } else if item.1 {
            prior.push(
                DirEntryView::File(
                    FileView {
                        rel: spec_join(d, item.0@),
                        backing: FileBackingView::Disk { root },
                    },
                ),
            )
        } else if item.2 {
            prior.push(
                DirEntryView::Dir(
                    DirView { rel: spec_join(d, item.0@), backing: DirBackingView::Disk { root } },
                ),
            )
        } else {
            prior
        }
    }
}

/// Builds directory entries from a disk listing: exactly the listing's
/// conversion, and every entry is a well-formed child of the directory at
/// `rel` below `root`.
fn entries_from_listing(listing: &Vec<(String, bool, bool)>, rel: &str, root: &String) -> (es: Vec<
    DirEntry,
>)
    requires
        valid_dir_path(rel@),
    ensures
        entry_views(es@) == listing_entries(listing@, rel@, root@),
        forall|k: int| 0 <= k < es@.len() ==> (#[trigger] es@[k])@.wf() && entry_child_of(
            es@[k]@,
            (DirView { rel: rel@, backing: DirBackingView::Disk { root: root@ } }),
        ),
{
    let ghost parent = DirView { rel: rel@, backing: DirBackingView::Disk { root: root@ } };
    let mut es: Vec<DirEntry> = Vec::new();
    let mut k: usize = 0;
    while k < listing.len()
        invariant
            0 <= k <= listing@.len(),
            valid_dir_path(rel@),
            parent == (DirView { rel: rel@, backing: DirBackingView::Disk { root: root@ } }),
            entry_views(es@) == listing_entries(listing@.take(k as int), rel@, root@),
            forall|q: int| 0 <= q < es@.len() ==> (#[trigger] es@[q])@.wf() && entry_child_of(
                es@[q]@,
                parent,
            ),
        decreases listing@.len() - k,
    {
        proof {
            assert(listing@.take(k as int + 1).drop_last() =~= listing@.take(k as int));
            assert(listing@.take(k as int + 1).last() == listing@[k as int]);
        }
        let item = &listing[k];
        if check_name(item.0.as_str()) {
            let child_rel = join(rel, item.0.as_str());
            proof {
                lemma_name_is_rel(item.0@);
                lemma_join_valid(rel@, item.0@);
                lemma_join_under(rel@, item.0@);
            }
            if item.1 {
                es.push(DirEntry {
                    inner: EntryInner::File(File {
                        rel: child_rel,
                        backing: FileBacking::Disk { root: root.clone() },
                    }),
                });
                proof {
                    assert(entry_views(es@) =~= listing_entries(
                        listing@.take(k as int + 1),
                        rel@,
                        root@,
                    ));
                }
            } else if item.2 {
                es.push(DirEntry {
                    inner: EntryInner::Dir(Dir {
                        rel: child_rel,
                        backing: DirBacking::Disk { root: root.clone() },
                    }),
                });
                proof {
                    assert(entry_views(es@) =~= listing_entries(
                        listing@.take(k as int + 1),
                        rel@,
                        root@,
                    ));
                }
            } else {
                proof {
                    assert(entry_views(es@) =~= listing_entries(
                        listing@.take(k as int + 1),
                        rel@,
                        root@,
                    ));
                }
            }
        } else {
            proof {
                assert(entry_views(es@) =~= listing_entries(
                    listing@.take(k as int + 1),
                    rel@,
                    root@,
                ));
            }
        }
        k = k + 1;
    }
    proof {
        assert(listing@.take(listing@.len() as int) =~= listing@);
    }
    es
}

/// Tests whether some entry already lists a directory at `rel`.
fn contains_dir_rel(es: &Vec<DirEntry>, rel: &str) -> (r: bool)
    ensures
        r == has_dir_entry(es@, rel@),
{
    let mut k: usize = 0;
    while k < es.len()
        invariant
            0 <= k <= es@.len(),
            forall|j: int|
                0 <= j < k ==> !((#[trigger] es@[j])@ matches DirEntryView::Dir(c) && c.rel
                    == rel@),
        decreases es@.len() - k,
    {
        match &es[k].inner {
            EntryInner::Dir(c) => {
                if str_eq(c.rel.as_str(), rel) {
                    proof {
                        assert((es@[k as int])@ matches DirEntryView::Dir(cv) && cv.rel == rel@);
                    }
                    return true;
                }
            },
            EntryInner::File(_) => {},
        }
        k = k + 1;
    }
    proof {
        assert(!has_dir_entry(es@, rel@)) by {
            if has_dir_entry(es@, rel@) {
                let j = choose|j: int|
                    0 <= j < es@.len() && ((#[trigger] es@[j])@ matches DirEntryView::Dir(c)
                        && c.rel == rel@);
                assert(!(es@[j]@ matches DirEntryView::Dir(c) && c.rel == rel@));
            }
        }
    }
    false
}

impl File {
    /// Returns the file name: the final segment of the relative path.
    pub fn file_name(&self) -> (r: Option<String>)
        ensures
            r matches Some(n) && n@ == file_name_of(self@.rel),
    {
        Some(file_name_str(self.rel.as_str()))
    }

    /// Returns the file extension, if the file name has one.
    pub fn extension(&self) -> (r: Option<String>)
        ensures
            match r {
                Some(e) => extension_of(self@.rel) == Some(e@),
                None => extension_of(self@.rel) is None,
            },
    {
        extension_str(self.rel.as_str())
    }

    /// Returns the absolute path: the position on disk for a dynamic file;
    /// an embedded file has no disk position and reports its relative path.
    pub fn absolute_path(&self) -> (r: String)
        requires
            self@.wf(),
        ensures
            match self@.backing {
                FileBackingView::Embed { .. } => r@ == self@.rel,
                FileBackingView::Disk { root } => r@ == spec_join(root, self@.rel),
            },
    {
        match &self.backing {
            FileBacking::Embed { .. } => self.rel.clone(),
            FileBacking::Disk { root } => join(root.as_str(), self.rel.as_str()),
        }
    }

    /// Returns true if this file is embedded in the binary.
    pub fn is_embedded(&self) -> (r: bool)
        ensures
            r == self@.is_embed(),
    {
        match &self.backing {
            FileBacking::Embed { .. } => true,
            FileBacking::Disk { .. } => false,
        }
    }

    /// Returns the relative path of this file.
    pub fn path(&self) -> (r: &str)
        ensures
            r@ == self@.rel,
    {
        self.rel.as_str()
    }

    /// Reads the file contents as bytes.  An embedded file yields exactly its
    /// table contents and cannot fail; a dynamic file reads from disk each call.
    pub fn read_bytes(&self) -> (r: Result<Vec<u8>, Error>)
        requires
            self@.wf(),
        ensures
            self@.backing matches FileBackingView::Embed { contents, .. } ==> r matches Ok(v)
                && v@ == contents,
            r matches Err(e) ==> e is IoError,
    {
        match &self.backing {
            FileBacking::Embed { contents, .. } => Ok(clone_bytes(contents)),
            FileBacking::Disk { root } => fsio::disk_read(
                join(root.as_str(), self.rel.as_str()).as_str(),
            ),
        }
    }

    /// Reads the file contents as a UTF-8 string.  For an embedded file this
    /// succeeds exactly when the contents are valid UTF-8 and yields their
    /// decoding; the failure is a decode error.
    pub fn read_str(&self) -> (r: Result<String, Error>)
        requires
            self@.wf(),
        ensures
            self@.backing matches FileBackingView::Embed { contents, .. } ==> {
                &&& r is Ok <==> vstd::utf8::valid_utf8(contents)
                &&& (r matches Ok(s) ==> s@ == vstd::utf8::decode_utf8(contents))
                &&& (r matches Err(e) ==> e is DecodeError)
            },
            r matches Err(e) ==> e is DecodeError || e is IoError,
    {
        match self.read_bytes() {
            Ok(bytes) => fsio::bytes_to_string(bytes),
            Err(e) => Err(e),
        }
    }

    /// Returns the metadata of this file.  An embedded file that was baked in
    /// without a modification time reports the metadata as unavailable rather
    /// than fabricating one; a dynamic file whose stat reports no modification
    /// time does the same, while a failed stat surfaces as an I/O error.
    pub fn metadata(&self) -> (r: Result<FileMetaData, Error>)
        requires
            self@.wf(),
        ensures
            self@.backing matches FileBackingView::Embed { contents, modified } ==> match r {
                Ok(m) => modified == Some(m.modified) && m.size == contents.len(),
                Err(e) => modified is None && e is MetadataUnavailable,
            },
            r matches Err(e) ==> e is MetadataUnavailable || e is IoError,
    {
        match &self.backing {
            FileBacking::Embed { contents, modified } => {
                match modified {
                    Some(m) => Ok(FileMetaData { modified: *m, size: contents.len() as u64 }),
                    None => Err(Error::MetadataUnavailable),
                }
            },
            FileBacking::Disk { root } => {
                let abs = join(root.as_str(), self.rel.as_str());
                metadata_from_stat(fsio::disk_stat(abs.as_str()))
            },
        }
    }
}

impl DirEntry {
    /// Wraps a file as a directory entry.
    pub fn from_file(file: File) -> (r: Self)
        ensures
            r@ == DirEntryView::File(file@),
    {
        DirEntry { inner: EntryInner::File(file) }
    }

    /// Wraps a directory as a directory entry.
    pub fn from_dir(dir: Dir) -> (r: Self)
        ensures
            r@ == DirEntryView::Dir(dir@),
    {
        DirEntry { inner: EntryInner::Dir(dir) }
    }

    /// Returns the relative path of this entry.
    pub fn path(&self) -> (r: &str)
        ensures
            r@ == self@.rel(),
    {
        match &self.inner {
            EntryInner::File(f) => f.path(),
            EntryInner::Dir(d) => d.path(),
        }
    }

    /// Returns the absolute path of this entry.
    pub fn absolute_path(&self) -> (r: String)
        requires
            self@.wf(),
        ensures
            r@ == (match self@ {
                DirEntryView::File(f) => match f.backing {
                    FileBackingView::Embed { .. } => f.rel,
                    FileBackingView::Disk { root } => spec_join(root, f.rel),
                },
                DirEntryView::Dir(c) => match c.backing {
                    DirBackingView::Embed { .. } => c.rel,
                    DirBackingView::Disk { root } => spec_abs(root, c.rel),
                },
            }),
    {
        match &self.inner {
            EntryInner::File(f) => f.absolute_path(),
            EntryInner::Dir(d) => d.absolute_path(),
        }
    }

    /// Returns true if this entry is embedded in the binary.
    pub fn is_embedded(&self) -> (r: bool)
        ensures
            r == match self@ {
                DirEntryView::File(f) => f.is_embed(),
                DirEntryView::Dir(c) => c.is_embed(),
            },
    {
        match &self.inner {
            EntryInner::File(f) => f.is_embedded(),
            EntryInner::Dir(d) => d.is_embedded(),
        }
    }

    /// Returns true if this entry is a file.
    pub fn is_file(&self) -> (r: bool)
        ensures
            r == (self@ is File),
    {
        match &self.inner {
            EntryInner::File(_) => true,
            EntryInner::Dir(_) => false,
        }
    }

    /// Returns true if this entry is a directory.
    pub fn is_dir(&self) -> (r: bool)
        ensures
            r == (self@ is Dir),
    {
        match &self.inner {
            EntryInner::File(_) => false,
            EntryInner::Dir(_) => true,
        }
    }

    /// Converts this entry into a file, if it is one.
    pub fn into_file(self) -> (r: Option<File>)
        ensures
            match self@ {
                DirEntryView::File(f) => r matches Some(rf) && rf@ == f,
                DirEntryView::Dir(_) => r is None,
            },
    {
        match self.inner {
            EntryInner::File(f) => Some(f),
            EntryInner::Dir(_) => None,
        }
    }

    /// Converts this entry into a directory, if it is one.
    pub fn into_dir(self) -> (r: Option<Dir>)
        ensures
            match self@ {
                DirEntryView::Dir(d) => r matches Some(rd) && rd@ == d,
                DirEntryView::File(_) => r is None,
            },
    {
        match self.inner {
            EntryInner::Dir(d) => Some(d),
            EntryInner::File(_) => None,
        }
    }
}

impl Dir {
    /// Creates a root directory from an embedded table and the absolute
    /// source path the table was built from.
    pub fn from_embedded(table: Vec<EmbedRecord>, source: &str) -> (d: Dir)
        requires
            table_wf(recs(table@)),
        ensures
            d@.wf(),
            d@.rel.len() == 0,
            d@.backing == (DirBackingView::Embed { table: recs(table@), source: source@ }),
    {
        Dir { rel: String::new(), backing: DirBacking::Embed { table, source: String::from_str(source) } }
    }

    /// Creates a root directory reading live from the given directory on disk.
    pub fn from_path(path: &str) -> (d: Dir)
        ensures
            d@.wf(),
            d@.rel.len() == 0,
            d@.backing == (DirBackingView::Disk { root: path@ }),
    {
        Dir { rel: String::new(), backing: DirBacking::Disk { root: String::from_str(path) } }
    }

    /// Creates a root directory from the given string path.
    pub fn from_str(path: &str) -> (d: Dir)
        ensures
            d@.wf(),
            d@.rel.len() == 0,
            d@.backing == (DirBackingView::Disk { root: path@ }),
    {
        Self::from_path(path)
    }

    /// Converts an embedded directory into a dynamic one rooted at the source
    /// path the embedding was compiled from; a dynamic directory is unchanged.
    pub fn into_dynamic(self) -> (d: Dir)
        requires
            self@.wf(),
        ensures
            d@.wf(),
            d@.rel == self@.rel,
            d@.backing == (match self@.backing {
                DirBackingView::Embed { source, .. } => DirBackingView::Disk { root: source },
                DirBackingView::Disk { root } => DirBackingView::Disk { root },
            }),
    {
        match self.backing {
            DirBacking::Embed { source, .. } => Dir {
                rel: self.rel,
                backing: DirBacking::Disk { root: source },
            },
            DirBacking::Disk { root } => Dir { rel: self.rel, backing: DirBacking::Disk { root } },
        }
    }

    /// Applies `into_dynamic` when the caller's build runs in debug mode, as
    /// told by the flag; otherwise returns the directory unchanged.
    pub fn auto_dynamic(self, debug: bool) -> (d: Dir)
        requires
            self@.wf(),
        ensures
            d@.wf(),
            d@.rel == self@.rel,
            !debug ==> d@ == self@,
            debug ==> d@.backing == (match self@.backing {
                DirBackingView::Embed { source, .. } => DirBackingView::Disk { root: source },
                DirBackingView::Disk { root } => DirBackingView::Disk { root },
            }),
    {
        if debug {
            self.into_dynamic()
        } else {
            self
        }
    }

    /// Returns true if this directory is embedded in the binary.
    pub fn is_embedded(&self) -> (r: bool)
        ensures
            r == self@.is_embed(),
    {
        match &self.backing {
            DirBacking::Embed { .. } => true,
            DirBacking::Disk { .. } => false,
        }
    }

    /// Returns the relative path of this directory.
    pub fn path(&self) -> (r: &str)
        ensures
            r@ == self@.rel,
    {
        self.rel.as_str()
    }

    /// Returns the file at `name`, relative to this directory, if one exists
    /// and is a regular file.  For an embedded directory the answer is exact:
    /// a file comes back precisely when the table defines the joined path.
    /// For a dynamic directory the disk decides; whatever comes back is a
    /// handle at the joined path below the same root.
    pub fn get_file(&self, name: &str) -> (r: Option<File>)
        requires
            self@.wf(),
            valid_rel_path(name@),
        ensures
            r matches Some(f) ==> f@.wf() && f@.rel == spec_join(self@.rel, name@)
                && file_backed_by(f@, self@),
            self@.backing matches DirBackingView::Embed { table, .. } ==> (r is Some
                <==> table_has(table, spec_join(self@.rel, name@))),
    {
        let target = join(self.rel.as_str(), name);
        proof {
            lemma_join_valid(self@.rel, name@);
        }
        match &self.backing {
            DirBacking::Embed { table, source } => {
                let ghost t = recs(table@);
                proof {
                    assert(self@.backing == (DirBackingView::Embed { table: t, source: source@ }));
                }
                let mut i: usize = 0;
                while i < table.len()
                    invariant
                        0 <= i <= t.len(),
                        t == recs(table@),
                        table_wf(t),
                        valid_rel_path(target@),
                        self@.backing == (DirBackingView::Embed { table: t, source: source@ }),
                        target@ == spec_join(self@.rel, name@),
                        forall|j: int| 0 <= j < i ==> (#[trigger] t[j]).path != target@,
                    decreases t.len() - i,
                {
                    let rec = &table[i];
                    if str_eq(rec.path.as_str(), target.as_str()) {
                        let f = File {
                            rel: rec.path.clone(),
                            backing: FileBacking::Embed {
                                contents: clone_bytes(&rec.contents),
                                modified: rec.modified,
                            },
                        };
                        proof {
                            lemma_table_lookup(t, i as int);
                            assert(f@ == record_file(t[i as int]));
                            assert(f@.rel == target@);
                            assert(file_backed_by(f@, self@));
                        }
                        return Some(f);
                    }
                    i = i + 1;
                }
                proof {
                    assert(!table_has(t, target@)) by {
                        if table_has(t, target@) {
                            let j = choose|j: int| 0 <= j < t.len() && (#[trigger] t[j]).path
                                == target@;
                            assert(t[j].path != target@);
                        }
                    }
                }
                None
            },
            DirBacking::Disk { root } => {
                proof {
                    assert(self@.backing == (DirBackingView::Disk { root: root@ }));
                }
                let abs = abs_of(root.as_str(), target.as_str());
                let r = file_from_stat(fsio::disk_stat(abs.as_str()), root, target);
                proof {
                    match &r {
                        Some(f) => {
                            assert(file_backed_by(f@, self@));
                        },
                        None => {},
                    }
                }
                r
            },
        }
    }

    /// Returns the directory at `name`, relative to this directory, if one
    /// exists.  An embedded directory contains a subdirectory exactly when
    /// some table record lies strictly below the joined path; a dynamic
    /// directory asks the disk.
    pub fn get_dir(&self, name: &str) -> (r: Option<Dir>)
        requires
            self@.wf(),
            valid_rel_path(name@),
        ensures
            r matches Some(c) ==> c@.wf() && c@.rel == spec_join(self@.rel, name@)
                && dir_backed_by(c@, self@),
            self@.backing matches DirBackingView::Embed { table, .. } ==> (r is Some
                <==> exists|i: int|
                    0 <= i < table.len() && is_under(
                        (#[trigger] table[i]).path,
                        spec_join(self@.rel, name@),
                    )),
    {
        let target = join(self.rel.as_str(), name);
        proof {
            lemma_join_valid(self@.rel, name@);
        }
        match &self.backing {
            DirBacking::Embed { table, source } => {
                let ghost t = recs(table@);
                proof {
                    assert(self@.backing == (DirBackingView::Embed { table: t, source: source@ }));
                }
                let mut i: usize = 0;
                while i < table.len()
                    invariant
                        0 <= i <= t.len(),
                        t == recs(table@),
                        table_wf(t),
                        valid_rel_path(target@),
                        self@.backing == (DirBackingView::Embed { table: t, source: source@ }),
                        target@ == spec_join(self@.rel, name@),
                        forall|j: int| 0 <= j < i ==> !is_under((#[trigger] t[j]).path, target@),
                    decreases t.len() - i,
                {
                    let rec = &table[i];
                    if check_under(rec.path.as_str(), target.as_str()) {
                        let c = Dir {
                            rel: target,
                            backing: DirBacking::Embed {
                                table: clone_table(table),
                                source: source.clone(),
                            },
                        };
                        proof {
                            assert(is_under(t[i as int].path, c@.rel));
                            assert(c@.backing == self@.backing);
                            assert(c@.wf());
                        }
                        return Some(c);
                    }
                    i = i + 1;
                }
                proof {
                    if exists|ii: int| 0 <= ii < t.len() && is_under((#[trigger] t[ii]).path, target@) {
                        let ii = choose|ii: int| 0 <= ii < t.len() && is_under((#[trigger] t[ii]).path, target@);
                        assert(!is_under(t[ii].path, target@));
                    }
                }
                None
            },
            DirBacking::Disk { root } => {
                proof {
                    assert(self@.backing == (DirBackingView::Disk { root: root@ }));
                }
                let abs = abs_of(root.as_str(), target.as_str());
                let r = dir_from_stat(fsio::disk_stat(abs.as_str()), root, target);
                proof {
                    match &r {
                        Some(c) => {
                            assert(dir_backed_by(c@, self@));
                        },
                        None => {},
                    }
                }
                r
            },
        }
    }

    /// Returns the immediate (non-recursive) children of this directory.
    ///
    /// For an embedded directory this is exact: one file entry for each table
    /// record nested exactly one level below this directory's path (in table
    /// order), then one directory entry for each distinct next segment of the
    /// deeper records (in order of first appearance).  For a dynamic
    /// directory one listing is read from disk; an unreadable directory lists
    /// as empty, and every entry handed back is a child handle below the same
    /// root.
    pub fn entries(&self) -> (es: Vec<DirEntry>)
        requires
            self@.wf(),
        ensures
            forall|k: int| 0 <= k < es@.len() ==> (#[trigger] es@[k])@.wf() && entry_child_of(
                es@[k]@,
                self@,
            ),
            self@.backing matches DirBackingView::Embed { table, .. } ==> {
                &&& forall|i: int|
                    0 <= i < table.len() && is_direct_child((#[trigger] table[i]).path, self@.rel)
                        ==> has_file_entry(es@, table[i].path)
                &&& forall|i: int|
                    0 <= i < table.len() && is_under((#[trigger] table[i]).path, self@.rel)
                        && !no_slash(rest_under(table[i].path, self@.rel)) ==> has_dir_entry(
                        es@,
                        spec_join(self@.rel, first_segment(rest_under(table[i].path, self@.rel))),
                    )
                &&& forall|k1: int, k2: int|
                    0 <= k1 < k2 < es@.len() && ((#[trigger] es@[k1])@ is Dir) && ((
                    #[trigger] es@[k2])@ is Dir) ==> es@[k1]@.rel() != es@[k2]@.rel()
                &&& forall|k1: int, k2: int|
                    0 <= k1 < k2 < es@.len() && ((#[trigger] es@[k1])@ is File) && ((
                    #[trigger] es@[k2])@ is File) ==> es@[k1]@.rel() != es@[k2]@.rel()
                &&& forall|k1: int, k2: int|
                    0 <= k1 < k2 < es@.len() && ((#[trigger] es@[k1])@ is Dir) ==> !((
                    #[trigger] es@[k2])@ is File)
            },
    {
        let mut es: Vec<DirEntry> = Vec::new();
        match &self.backing {
            DirBacking::Embed { table, source } => {
                let ghost t = recs(table@);
                let ghost d = self@.rel;
                let mut i: usize = 0;
                while i < table.len()
                    invariant
                        0 <= i <= t.len(),
                        t == recs(table@),
                        self@.wf(),
                        d == self@.rel,
                        self@.backing == (DirBackingView::Embed { table: t, source: source@ }),
                        forall|k: int| 0 <= k < es@.len() ==> (#[trigger] es@[k])@.wf()
                            && entry_child_of(es@[k]@, self@),
                        forall|k: int| 0 <= k < es@.len() ==> (#[trigger] es@[k])@ is File,
                        forall|k: int| 0 <= k < es@.len() ==> ((#[trigger] es@[k])@
                            matches DirEntryView::File(f) && (exists|j: int|
                            0 <= j < i && (#[trigger] t[j]).path == f.rel)),
                        forall|k1: int, k2: int|
                            0 <= k1 < k2 < es@.len() && ((#[trigger] es@[k1])@ is File) && ((
                            #[trigger] es@[k2])@ is File) ==> es@[k1]@.rel() != es@[k2]@.rel(),
                        forall|j: int| 0 <= j < i && is_direct_child((#[trigger] t[j]).path, d)
                            ==> has_file_entry(es@, t[j].path),
                    decreases t.len() - i,
                {
                    let rec = &table[i];
                    if check_under(rec.path.as_str(), self.rel.as_str()) {
                        let rest = split_under(rec.path.as_str(), self.rel.as_str());
                        match find_char(rest.as_str(), '/') {
                            None => {
                                proof {
                                    lemma_first_index_of(rest@, '/');
                                    lemma_table_lookup(t, i as int);
                                }
                                let f = File {
                                    rel: rec.path.clone(),
                                    backing: FileBacking::Embed {
                                        contents: clone_bytes(&rec.contents),
                                        modified: rec.modified,
                                    },
                                };
                                let e = DirEntry { inner: EntryInner::File(f) };
                                proof {
                                    assert(e@ matches DirEntryView::File(fv) && fv == record_file(
                                        t[i as int],
                                    ));
                                    lemma_push_preserves_entries(es@, e);
                                }
                                let ghost es0f = es@;
                                es.push(e);
                                proof {
                                    assert(es@[es@.len() - 1] == e);
                                    assert(has_file_entry(es@, t[i as int].path));
                                    assert forall|k1: int|
                                        0 <= k1 < es@.len() - 1 && ((#[trigger] es@[k1])@
                                            is File) implies es@[k1]@.rel() != t[i as int].path by {
                                        assert(es@[k1] == es0f[k1]);
                                        match es0f[k1]@ {
                                            DirEntryView::File(ff) => {
                                                let j = choose|j: int|
                                                    0 <= j < i && (#[trigger] t[j]).path
                                                        == ff.rel;
                                                assert(t[j].path != t[i as int].path);
                                            },
                                            DirEntryView::Dir(_) => {},
                                        }
                                    }
                                }
                            },
                            Some(_) => {
                                proof {
                                    lemma_first_index_of(rest@, '/');
                                }
                            },
                        }
                    }
                    i = i + 1;
                }
                let ghost files_done = es@;
                let mut i2: usize = 0;
                while i2 < table.len()
                    invariant
                        0 <= i2 <= t.len(),
                        t == recs(table@),
                        self@.wf(),
                        d == self@.rel,
                        es@.len() >= files_done.len(),
                        forall|j: int| 0 <= j < files_done.len() ==> es@[j] == (
                        #[trigger] files_done[j]),
                        forall|j: int| 0 <= j < files_done.len() ==> (#[trigger] files_done[j])@
                            is File,
                        forall|k: int| files_done.len() <= k < es@.len() ==> (#[trigger] es@[k])@
                            is Dir,
                        forall|k1: int, k2: int|
                            0 <= k1 < k2 < es@.len() && ((#[trigger] es@[k1])@ is File) && ((
                            #[trigger] es@[k2])@ is File) ==> es@[k1]@.rel() != es@[k2]@.rel(),
                        self@.backing == (DirBackingView::Embed { table: t, source: source@ }),
                        forall|k: int| 0 <= k < es@.len() ==> (#[trigger] es@[k])@.wf()
                            && entry_child_of(es@[k]@, self@),
                        forall|j: int| 0 <= j < t.len() && is_direct_child(
                            (#[trigger] t[j]).path,
                            d,
                        ) ==> has_file_entry(es@, t[j].path),
                        forall|j: int| 0 <= j < i2 && is_under((#[trigger] t[j]).path, d)
                            && !no_slash(rest_under(t[j].path, d)) ==> has_dir_entry(
                            es@,
                            spec_join(d, first_segment(rest_under(t[j].path, d))),
                        ),
                        forall|k1: int, k2: int|
                            0 <= k1 < k2 < es@.len() && ((#[trigger] es@[k1])@ is Dir) && ((
                            #[trigger] es@[k2])@ is Dir) ==> es@[k1]@.rel() != es@[k2]@.rel(),
                    decreases t.len() - i2,
                {
                    let rec = &table[i2];
                    if check_under(rec.path.as_str(), self.rel.as_str()) {
                        let rest = split_under(rec.path.as_str(), self.rel.as_str());
                        match find_char(rest.as_str(), '/') {
                            Some(si) => {
                                proof {
                                    lemma_first_index_of(rest@, '/');
                                    lemma_rest_valid(t[i2 as int].path, d);
                                    lemma_first_segment_valid(rest@);
                                }
                                let seg = rest.as_str().substring_char(0, si);
                                proof {
                                    assert(seg@ =~= first_segment(rest@));
                                }
                                let child_rel = join(self.rel.as_str(), seg);
                                if !contains_dir_rel(&es, child_rel.as_str()) {
                                    proof {
                                        lemma_name_is_rel(seg@);
                                        lemma_join_valid(d, seg@);
                                        lemma_join_under(d, seg@);
                                    }
                                    let c = Dir {
                                        rel: child_rel,
                                        backing: DirBacking::Embed {
                                            table: clone_table(table),
                                            source: source.clone(),
                                        },
                                    };
                                    let e = DirEntry { inner: EntryInner::Dir(c) };
                                    let ghost es0 = es@;
                                    proof {
                                        assert(c@.backing == self@.backing);
                                        assert(no_slash(seg@));
                                        assert(is_direct_child(c@.rel, d));
                                        assert(c@.wf());
                                        lemma_push_preserves_entries(es@, e);
                                    }
                                    es.push(e);
                                    proof {
                                        assert(es@[es@.len() - 1] == e);
                                        assert(es@[es@.len() - 1]@ is Dir);
                                        assert(has_dir_entry(
                                            es@,
                                            spec_join(d, first_segment(rest_under(t[i2 as int].path, d))),
                                        ));
                                        assert forall|k1: int|
                                            0 <= k1 < es@.len() - 1 && ((#[trigger] es@[k1])@
                                                is Dir) implies es@[k1]@.rel() != child_rel@ by {
                                            assert(es@[k1] == es0[k1]);
                                            if es0[k1]@ matches DirEntryView::Dir(cc) && cc.rel
                                                == child_rel@ {
                                                assert(has_dir_entry(es0, child_rel@));
                                            }
                                        }
                                    }
                                }
                            },
                            None => {
                                proof {
                                    lemma_first_index_of(rest@, '/');
                                }
                            },
                        }
                    }
                    i2 = i2 + 1;
                }
                proof {
                    assert forall|k1: int, k2: int|
                        0 <= k1 < k2 < es@.len() && ((#[trigger] es@[k1])@ is Dir) implies !((
                    #[trigger] es@[k2])@ is File) by {
                        if k1 < files_done.len() {
                            assert(es@[k1] == files_done[k1]);
                            assert(files_done[k1]@ is File);
                        } else {
                            assert(es@[k2]@ is Dir);
                        }
                    }
                }
                es
            },
            DirBacking::Disk { root } => {
                proof {
                    assert(self@ == (DirView {
                        rel: self.rel@,
                        backing: DirBackingView::Disk { root: root@ },
                    }));
                }
                let abs = abs_of(root.as_str(), self.rel.as_str());
                let listing = fsio::list_dir(abs.as_str());
                entries_from_listing(&listing, self.rel.as_str(), root)
            },
        }
    }

    /// Returns the absolute path of this directory; an embedded directory has
    /// no disk position and reports its relative path.
    pub fn absolute_path(&self) -> (r: String)
        ensures
            match self@.backing {
                DirBackingView::Embed { .. } => r@ == self@.rel,
                DirBackingView::Disk { root } => r@ == spec_abs(root, self@.rel),
            },
    {
        match &self.backing {
            DirBacking::Embed { .. } => self.rel.clone(),
            DirBacking::Disk { root } => abs_of(root.as_str(), self.rel.as_str()),
        }
    }
}

/// The views of a list of directories.
pub open spec fn dir_views(ds: Seq<Dir>) -> Seq<DirView> {
    Seq::new(ds.len(), |i: int| ds[i]@)
}

/// Every root is well formed.
pub open spec fn all_wf(roots: Seq<DirView>) -> bool {
    forall|i: int| 0 <= i < roots.len() ==> (#[trigger] roots[i]).wf()
}

/// Every root is embedded.
pub open spec fn all_embedded(roots: Seq<DirView>) -> bool {
    forall|i: int| 0 <= i < roots.len() ==> (#[trigger] roots[i]).is_embed()
}

/// The table of an embedded root; a dynamic root has none.
pub open spec fn root_table(v: DirView) -> Seq<RecordView> {
    match v.backing {
        DirBackingView::Embed { table, .. } => table,
        DirBackingView::Disk { .. } => Seq::empty(),
    }
}

/// The embedded root `v` defines a file at the name `p` relative to `v`.
pub open spec fn root_defines(v: DirView, p: Seq<char>) -> bool {
    v.is_embed() && table_has(root_table(v), spec_join(v.rel, p))
}

/// The highest index whose root defines `p`, or `-1`: the override winner.
pub open spec fn winner_index(roots: Seq<DirView>, p: Seq<char>) -> int
    decreases roots.len(),
{
    if roots.len() == 0 {
        -1
    } else if root_defines(roots.last(), p) {
        roots.len() - 1
    } else {
        winner_index(roots.drop_last(), p)
    }
}

/// The record the override resolves `p` to; meaningful when a winner exists.
pub open spec fn resolve(roots: Seq<DirView>, p: Seq<char>) -> RecordView {
    let w = winner_index(roots, p);
    table_lookup(root_table(roots[w]), spec_join(roots[w].rel, p))
}

pub proof fn lemma_winner_index_unique(roots: Seq<DirView>, p: Seq<char>, i: int)
    requires
        -1 <= i < roots.len(),
        i >= 0 ==> root_defines(roots[i], p),
        forall|j: int| i < j < roots.len() ==> !root_defines(#[trigger] roots[j], p),
    ensures
        winner_index(roots, p) == i,
    decreases roots.len(),
{
    if roots.len() > 0 && !root_defines(roots.last(), p) {
        assert forall|j: int| i < j < roots.drop_last().len() implies !root_defines(
            #[trigger] roots.drop_last()[j],
            p,
        ) by {
            assert(roots.drop_last()[j] == roots[j]);
        }
        lemma_winner_index_unique(roots.drop_last(), p, i);
    }
}

/// The embedded root `v` holds a file at the full relative path `p` inside
/// its subtree.
pub open spec fn root_holds(v: DirView, p: Seq<char>) -> bool {
    v.is_embed() && is_under(p, v.rel) && table_has(root_table(v), p)
}

/// The highest index whose root holds the full path `p`, or `-1`: the
/// override winner at the traversal level.
pub open spec fn walk_winner(roots: Seq<DirView>, p: Seq<char>) -> int
    decreases roots.len(),
{
    if roots.len() == 0 {
        -1
    } else if root_holds(roots.last(), p) {
        roots.len() - 1
    } else {
        walk_winner(roots.drop_last(), p)
    }
}

/// The record the traversal-level override resolves `p` to; meaningful
/// when a winner exists.
pub open spec fn walk_resolve(roots: Seq<DirView>, p: Seq<char>) -> RecordView {
    table_lookup(root_table(roots[walk_winner(roots, p)]), p)
}

pub proof fn lemma_walk_winner_props(roots: Seq<DirView>, p: Seq<char>)
    ensures
        -1 <= walk_winner(roots, p) < roots.len(),
        walk_winner(roots, p) >= 0 ==> root_holds(roots[walk_winner(roots, p)], p),
    decreases roots.len(),
{
    if roots.len() > 0 && !root_holds(roots.last(), p) {
        lemma_walk_winner_props(roots.drop_last(), p);
        if walk_winner(roots, p) >= 0 {
            assert(roots.drop_last()[walk_winner(roots, p)] == roots[walk_winner(roots, p)]);
        }
    }
}

pub proof fn lemma_walk_winner_at_least(roots: Seq<DirView>, p: Seq<char>, i: int)
    requires
        0 <= i < roots.len(),
        root_holds(roots[i], p),
    ensures
        walk_winner(roots, p) >= i,
    decreases roots.len(),
{
    if !root_holds(roots.last(), p) {
        assert(i < roots.len() - 1);
        assert(roots.drop_last()[i] == roots[i]);
        lemma_walk_winner_at_least(roots.drop_last(), p, i);
    }
}

/// `p` is the path `d` itself, or lies strictly inside it.
pub open spec fn is_within(p: Seq<char>, d: Seq<char>) -> bool {
    p == d || is_under(p, d)
}

/// The file lies somewhere in the subtree of root `v` and draws its
/// contents from `v`'s backing.
pub open spec fn file_in_tree(f: FileView, v: DirView) -> bool {
    file_backed_by(f, v) && is_under(f.rel, v.rel)
}

/// The directory lies in the subtree of root `v` (or is `v`'s own position)
/// and shares its backing.
pub open spec fn dir_in_tree(c: DirView, v: DirView) -> bool {
    dir_backed_by(c, v) && is_within(c.rel, v.rel)
}

pub open spec fn entry_in_tree(e: DirEntryView, v: DirView) -> bool {
    match e {
        DirEntryView::File(f) => file_in_tree(f, v),
        DirEntryView::Dir(c) => dir_in_tree(c, v),
    }
}

/// The entry lies in the subtree of one of the roots.
pub open spec fn entry_rooted(e: DirEntryView, roots: Seq<DirView>) -> bool {
    exists|i: int| 0 <= i < roots.len() && entry_in_tree(e, #[trigger] roots[i])
}

/// The pending entry `e` accounts for the table record at `p`: it is the
/// file at `p` itself, or a directory above `p` whose expansion reaches it.
pub open spec fn entry_covers(e: DirEntryView, p: Seq<char>) -> bool {
    match e {
        DirEntryView::File(f) => f.rel == p,
        DirEntryView::Dir(c) => is_under(p, c.rel),
    }
}

/// Some entry of `q`, lying in root `v`'s tree, accounts for `p`.
pub open spec fn covered_by_queue(q: Seq<DirEntry>, v: DirView, p: Seq<char>) -> bool {
    exists|k: int|
        0 <= k < q.len() && entry_in_tree((#[trigger] q[k])@, v) && entry_covers(q[k]@, p)
}

/// Every embedded file of every root has either been yielded already or is
/// still reachable from the pending queue.
pub open spec fn walk_complete(
    q: Seq<DirEntry>,
    roots: Seq<DirView>,
    yielded: Seq<FileView>,
) -> bool {
    forall|i: int, ri: int|
        0 <= i < roots.len() && 0 <= ri < root_table(roots[i]).len() && is_under(
            (#[trigger] root_table(roots[i])[ri]).path,
            roots[i].rel,
        ) ==> yielded.contains(record_file(root_table(roots[i])[ri])) || covered_by_queue(
            q,
            roots[i],
            root_table(roots[i])[ri].path,
        )
}

/// A path that lies under a directory with a deeper remainder lies under
/// the child named by the remainder's first segment.
pub proof fn lemma_under_first_segment(p: Seq<char>, d: Seq<char>)
    requires
        valid_rel_path(p),
        valid_dir_path(d),
        is_under(p, d),
        !no_slash(rest_under(p, d)),
    ensures
        is_under(p, spec_join(d, first_segment(rest_under(p, d)))),
{
    let rest = rest_under(p, d);
    lemma_rest_valid(p, d);
    lemma_first_index_of(rest, '/');
    let fi = first_index_of(rest, '/');
    assert(fi >= 0) by {
        if fi == -1 {
            assert(no_slash(rest));
        }
    }
    assert(fi < rest.len() - 1) by {
        assert(rest[rest.len() - 1] != '/');
    }
    let seg = first_segment(rest);
    let target = spec_join(d, seg);
    if d.len() == 0 {
        assert(p == rest);
        assert(p.subrange(0, fi) =~= seg);
        assert(p[fi] == '/');
    } else {
        assert(target.len() == d.len() + 1 + fi);
        assert(p.len() == d.len() + 1 + rest.len());
        assert forall|j: int| 0 <= j < target.len() implies p[j] == target[j] by {
            if j < d.len() {
                assert(p.subrange(0, d.len() as int)[j] == p[j]);
                assert(target[j] == d[j]);
            } else if j == d.len() {
                assert(target[j] == '/');
            } else {
                assert(target[j] == seg[j - d.len() - 1]);
                assert(seg[j - d.len() - 1] == rest[j - d.len() - 1]);
                assert(rest[j - d.len() - 1] == p[j]);
            }
        }
        assert(p.subrange(0, target.len() as int) =~= target);
        assert(p[target.len() as int] == rest[fi]);
    }
}

/// The entry is an immediate child of one of the roots.
pub open spec fn entry_child_of_some(e: DirEntryView, roots: Seq<DirView>) -> bool {
    exists|i: int| 0 <= i < roots.len() && entry_child_of(e, #[trigger] roots[i])
}

/// The file lies in the subtree of one of the roots.
pub open spec fn file_rooted(f: FileView, roots: Seq<DirView>) -> bool {
    exists|i: int| 0 <= i < roots.len() && file_in_tree(f, #[trigger] roots[i])
}

/// Being under a directory is carried up to any enclosing directory.
pub proof fn lemma_under_trans(p: Seq<char>, c: Seq<char>, d: Seq<char>)
    requires
        is_under(p, c),
        is_within(c, d),
    ensures
        is_under(p, d),
{
    if c != d && d.len() > 0 {
        assert(p.subrange(0, c.len() as int) == c);
        assert forall|j: int| 0 <= j < d.len() implies p[j] == d[j] by {
            assert(p.subrange(0, c.len() as int)[j] == p[j]);
            assert(c.subrange(0, d.len() as int)[j] == c[j]);
        }
        assert(p.subrange(0, d.len() as int) =~= d);
        assert(p[d.len() as int] == c[d.len() as int]);
    }
    if c != d && d.len() == 0 {
        assert(p.len() > 0);
    }
}

/// The children of a directory that lies in a root's tree lie in that tree too.
proof fn lemma_child_in_tree(e: DirEntryView, c: DirView, v: DirView)
    requires
        entry_child_of(e, c),
        dir_in_tree(c, v),
    ensures
        entry_in_tree(e, v),
{
    match e {
        DirEntryView::File(f) => {
            lemma_under_trans(f.rel, c.rel, v.rel);
        },
        DirEntryView::Dir(cc) => {
            lemma_under_trans(cc.rel, c.rel, v.rel);
        },
    }
}

/// A set of root directories with override semantics: later directories in
/// the list shadow earlier ones at matching relative paths.
#[derive(Debug)]
pub struct DirSet {
    /// The list of root directories, in order of increasing precedence.
    pub dirs: Vec<Dir>,
}

impl View for DirSet {
    type V = Seq<DirView>;

    open spec fn view(&self) -> Seq<DirView> {
        dir_views(self.dirs@)
    }
}

impl Clone for DirSet {
    fn clone(&self) -> (res: Self)
        ensures
            res@ == self@,
    {
        let mut dirs: Vec<Dir> = Vec::new();
        let mut i: usize = 0;
        while i < self.dirs.len()
            invariant
                0 <= i <= self.dirs@.len(),
                dirs@.len() == i,
                forall|j: int| 0 <= j < i ==> (#[trigger] dirs@[j])@ == self.dirs@[j]@,
            decreases self.dirs@.len() - i,
        {
            dirs.push(self.dirs[i].clone());
            i = i + 1;
        }
        let res = DirSet { dirs };
        proof {
            assert(res@ =~= self@);
        }
        res
    }
}

impl DirSet {
    /// Every root of the set is well formed.
    pub open spec fn wf(&self) -> bool {
        all_wf(self@)
    }

    /// Creates a new set from the given list of directories.  The order of
    /// the list is kept as given and determines override precedence.
    pub fn new(dirs: Vec<Dir>) -> (s: DirSet)
        ensures
            s@ == dir_views(dirs@),
    {
        DirSet { dirs }
    }

    /// Returns the immediate entries of all roots, concatenated in root
    /// order and without deduplication: a shallow listing, not an
    /// override-resolved view.
    pub fn entries(&self) -> (es: Vec<DirEntry>)
        requires
            self.wf(),
        ensures
            forall|k: int| 0 <= k < es@.len() ==> (#[trigger] es@[k])@.wf()
                && entry_child_of_some(es@[k]@, self@),
            self@.len() == 0 ==> es@.len() == 0,
            forall|i: int, ri: int|
                0 <= i < self@.len() && 0 <= ri < root_table(self@[i]).len() && is_direct_child(
                    (#[trigger] root_table(self@[i])[ri]).path,
                    self@[i].rel,
                ) ==> has_file_entry(es@, root_table(self@[i])[ri].path),
            forall|i: int, ri: int|
                0 <= i < self@.len() && 0 <= ri < root_table(self@[i]).len() && is_under(
                    (#[trigger] root_table(self@[i])[ri]).path,
                    self@[i].rel,
                ) && !no_slash(rest_under(root_table(self@[i])[ri].path, self@[i].rel))
                    ==> has_dir_entry(
                    es@,
                    spec_join(
                        self@[i].rel,
                        first_segment(rest_under(root_table(self@[i])[ri].path, self@[i].rel)),
                    ),
                ),
    {
        let mut es: Vec<DirEntry> = Vec::new();
        let mut i: usize = 0;
        while i < self.dirs.len()
            invariant
                0 <= i <= self@.len(),
                self.wf(),
                self@.len() == 0 ==> es@.len() == 0,
                forall|k: int| 0 <= k < es@.len() ==> (#[trigger] es@[k])@.wf()
                    && entry_child_of_some(es@[k]@, self@),
                forall|i0: int, ri: int|
                    0 <= i0 < i && 0 <= ri < root_table(self@[i0]).len() && is_direct_child(
                        (#[trigger] root_table(self@[i0])[ri]).path,
                        self@[i0].rel,
                    ) ==> has_file_entry(es@, root_table(self@[i0])[ri].path),
                forall|i0: int, ri: int|
                    0 <= i0 < i && 0 <= ri < root_table(self@[i0]).len() && is_under(
                        (#[trigger] root_table(self@[i0])[ri]).path,
                        self@[i0].rel,
                    ) && !no_slash(rest_under(root_table(self@[i0])[ri].path, self@[i0].rel))
                        ==> has_dir_entry(
                        es@,
                        spec_join(
                            self@[i0].rel,
                            first_segment(
                                rest_under(root_table(self@[i0])[ri].path, self@[i0].rel),
                            ),
                        ),
                    ),
            decreases self@.len() - i,
        {
            let sub = (&self.dirs[i]).entries();
            let mut k: usize = 0;
            while k < sub.len()
                invariant
                    0 <= k <= sub@.len(),
                    0 <= i < self@.len(),
                    self.wf(),
                    forall|k0: int| 0 <= k0 < sub@.len() ==> (#[trigger] sub@[k0])@.wf()
                        && entry_child_of(sub@[k0]@, self@[i as int]),
                    forall|q: int| 0 <= q < es@.len() ==> (#[trigger] es@[q])@.wf()
                        && entry_child_of_some(es@[q]@, self@),
                    forall|i0: int, ri: int|
                        0 <= i0 < i && 0 <= ri < root_table(self@[i0]).len() && is_direct_child(
                            (#[trigger] root_table(self@[i0])[ri]).path,
                            self@[i0].rel,
                        ) ==> has_file_entry(es@, root_table(self@[i0])[ri].path),
                    forall|i0: int, ri: int|
                        0 <= i0 < i && 0 <= ri < root_table(self@[i0]).len() && is_under(
                            (#[trigger] root_table(self@[i0])[ri]).path,
                            self@[i0].rel,
                        ) && !no_slash(rest_under(root_table(self@[i0])[ri].path, self@[i0].rel))
                            ==> has_dir_entry(
                            es@,
                            spec_join(
                                self@[i0].rel,
                                first_segment(
                                    rest_under(root_table(self@[i0])[ri].path, self@[i0].rel),
                                ),
                            ),
                        ),
                    forall|k0: int| 0 <= k0 < k ==> (exists|q: int|
                        0 <= q < es@.len() && (#[trigger] es@[q])@ == (#[trigger] sub@[k0])@),
                decreases sub@.len() - k,
            {
                let e = (&sub[k]).clone();
                let ghost es0 = es@;
                proof {
                    lemma_push_preserves_entries(es@, e);
                }
                es.push(e);
                proof {
                    assert(es@[es@.len() - 1]@ == sub@[k as int]@);
                    assert(entry_child_of(es@[es@.len() - 1]@, self@[i as int]));
                    assert(entry_child_of_some(es@[es@.len() - 1]@, self@));
                    assert forall|k0: int| 0 <= k0 < k + 1 implies exists|q: int|
                        0 <= q < es@.len() && (#[trigger] es@[q])@ == (#[trigger] sub@[k0])@ by {
                        if k0 < k {
                            let q = choose|q: int|
                                0 <= q < es0.len() && (#[trigger] es0[q])@ == (#[trigger] sub@[k0])@;
                            assert(es@[q]@ == sub@[k0]@);
                        } else {
                            assert(es@[es@.len() - 1]@ == sub@[k0]@);
                        }
                    }
                }
                k = k + 1;
            }
            proof {
                assert forall|ri: int|
                    0 <= ri < root_table(self@[i as int]).len() && is_direct_child(
                        (#[trigger] root_table(self@[i as int])[ri]).path,
                        self@[i as int].rel,
                    ) implies has_file_entry(es@, root_table(self@[i as int])[ri].path) by {
                    let p = root_table(self@[i as int])[ri].path;
                    assert(self.dirs@[i as int]@ == self@[i as int]);
                    assert(has_file_entry(sub@, p));
                    let k0 = choose|k0: int|
                        0 <= k0 < sub@.len() && ((#[trigger] sub@[k0])@
                            matches DirEntryView::File(f) && f.rel == p);
                    let q = choose|q: int|
                        0 <= q < es@.len() && (#[trigger] es@[q])@ == sub@[k0]@;
                    assert(es@[q]@ matches DirEntryView::File(f) && f.rel == p);
                }
                assert forall|ri: int|
                    0 <= ri < root_table(self@[i as int]).len() && is_under(
                        (#[trigger] root_table(self@[i as int])[ri]).path,
                        self@[i as int].rel,
                    ) && !no_slash(
                        rest_under(root_table(self@[i as int])[ri].path, self@[i as int].rel),
                    ) implies has_dir_entry(
                    es@,
                    spec_join(
                        self@[i as int].rel,
                        first_segment(
                            rest_under(root_table(self@[i as int])[ri].path, self@[i as int].rel),
                        ),
                    ),
                ) by {
                    let p = spec_join(
                        self@[i as int].rel,
                        first_segment(
                            rest_under(root_table(self@[i as int])[ri].path, self@[i as int].rel),
                        ),
                    );
                    assert(self.dirs@[i as int]@ == self@[i as int]);
                    assert(has_dir_entry(sub@, p));
                    let k0 = choose|k0: int|
                        0 <= k0 < sub@.len() && ((#[trigger] sub@[k0])@
                            matches DirEntryView::Dir(c) && c.rel == p);
                    let q = choose|q: int|
                        0 <= q < es@.len() && (#[trigger] es@[q])@ == sub@[k0]@;
                    assert(es@[q]@ matches DirEntryView::Dir(c) && c.rel == p);
                }
            }
            i = i + 1;
        }
        es
    }

    /// Returns the file at `name`, searching roots from the last (highest
    /// precedence) to the first and returning the first match.  With
    /// embedded roots the answer is exact: the file is the record of the
    /// highest-precedence root whose table defines the name; when no root
    /// defines it the answer is `None`, never an error.
    pub fn get_file(&self, name: &str) -> (r: Option<File>)
        requires
            self.wf(),
            valid_rel_path(name@),
        ensures
            r matches Some(f) ==> f@.wf() && (exists|i: int|
                0 <= i < self@.len() && f@.rel == spec_join((#[trigger] self@[i]).rel, name@)
                    && file_backed_by(f@, self@[i])),
            all_embedded(self@) ==> {
                &&& (r is Some <==> winner_index(self@, name@) >= 0)
                &&& (r matches Some(f) ==> f@ == record_file(resolve(self@, name@)))
            },
            self@.len() == 0 ==> r is None,
    {
        let mut i: usize = self.dirs.len();
        while i > 0
            invariant
                0 <= i <= self@.len(),
                self.wf(),
                valid_rel_path(name@),
                forall|j: int| i <= j < self@.len() ==> !root_defines(#[trigger] self@[j], name@),
            decreases i,
        {
            i = i - 1;
            proof {
                assert(self.dirs@[i as int]@ == self@[i as int]);
            }
            let found = (&self.dirs[i]).get_file(name);
            match found {
                Some(f) => {
                    proof {
                        assert(self.dirs@[i as int]@ == self@[i as int]);
                        if all_embedded(self@) {
                            assert(root_defines(self@[i as int], name@));
                            lemma_winner_index_unique(self@, name@, i as int);
                        }
                    }
                    return Some(f);
                },
                None => {
                    proof {
                        assert(self.dirs@[i as int]@ == self@[i as int]);
                        if self@[i as int].is_embed() {
                            assert(!root_defines(self@[i as int], name@));
                        }
                    }
                },
            }
        }
        proof {
            if all_embedded(self@) {
                lemma_winner_index_unique(self@, name@, -1);
            }
        }
        None
    }

    /// Returns the directory at `name`, searching roots from the last
    /// (highest precedence) to the first and returning the first match.
    pub fn get_dir(&self, name: &str) -> (r: Option<Dir>)
        requires
            self.wf(),
            valid_rel_path(name@),
        ensures
            r matches Some(c) ==> c@.wf() && (exists|i: int|
                0 <= i < self@.len() && c@.rel == spec_join((#[trigger] self@[i]).rel, name@)
                    && dir_backed_by(c@, self@[i])),
            self@.len() == 0 ==> r is None,
    {
        let mut i: usize = self.dirs.len();
        while i > 0
            invariant
                0 <= i <= self@.len(),
                self.wf(),
                valid_rel_path(name@),
            decreases i,
        {
            i = i - 1;
            proof {
                assert(self.dirs@[i as int]@ == self@[i as int]);
            }
            let found = (&self.dirs[i]).get_dir(name);
            match found {
                Some(c) => {
                    proof {
                        assert(self.dirs@[i as int]@ == self@[i as int]);
                    }
                    return Some(c);
                },
                None => {},
            }
        }
        None
    }

    /// Begins a lazy walk over all files of all roots; a path present in
    /// several roots is visited once per root.
    pub fn walk(&self) -> (w: DirWalk)
        requires
            self.wf(),
        ensures
            w.wf(),
            w.complete(),
            w.roots() == self@,
            w.yielded() == Seq::<FileView>::empty(),
            w.fuel() == usize::MAX as nat,
    {
        let mut queue: Vec<DirEntry> = Vec::new();
        let mut i: usize = 0;
        while i < self.dirs.len()
            invariant
                0 <= i <= self@.len(),
                self.wf(),
                queue@.len() == i,
                forall|k: int| 0 <= k < i ==> (#[trigger] queue@[k])@ == DirEntryView::Dir(
                    self@[k],
                ),
                forall|k: int| 0 <= k < queue@.len() ==> (#[trigger] queue@[k])@.wf()
                    && entry_rooted(queue@[k]@, self@),
            decreases self@.len() - i,
        {
            let d = self.dirs[i].clone();
            proof {
                assert(self.dirs@[i as int]@ == self@[i as int]);
                assert(dir_in_tree(d@, self@[i as int]));
            }
            queue.push(DirEntry::from_dir(d));
            i = i + 1;
        }
        let ghost rs = self@;
        let w = DirWalk {
            queue,
            budget: usize::MAX,
            roots: Ghost(rs),
            yielded: Ghost(Seq::empty()),
        };
        proof {
            assert forall|i2: int, ri: int|
                0 <= i2 < rs.len() && 0 <= ri < root_table(rs[i2]).len() && is_under(
                    (#[trigger] root_table(rs[i2])[ri]).path,
                    rs[i2].rel,
                ) implies w.yielded@.contains(record_file(root_table(rs[i2])[ri]))
                || covered_by_queue(w.queue@, rs[i2], root_table(rs[i2])[ri].path) by {
                assert(w.queue@[i2]@ == DirEntryView::Dir(rs[i2]));
                assert(entry_in_tree(w.queue@[i2]@, rs[i2]));
                assert(entry_covers(w.queue@[i2]@, root_table(rs[i2])[ri].path));
            }
        }
        w
    }

    /// Begins a lazy override-aware walk: it yields exactly one file per
    /// distinct relative path, the first one encountered while visiting
    /// roots from highest precedence to lowest.
    pub fn walk_override(&self) -> (w: OverrideWalk)
        requires
            self.wf(),
        ensures
            w.wf(),
            w.complete(),
            w.roots() == self@,
            w.yielded() == Seq::<Seq<char>>::empty(),
            w.fuel() == usize::MAX as nat,
    {
        let mut queue: Vec<DirEntry> = Vec::new();
        let mut i: usize = 0;
        while i < self.dirs.len()
            invariant
                0 <= i <= self@.len(),
                self.wf(),
                queue@.len() == i,
                forall|k: int| 0 <= k < i ==> (#[trigger] queue@[k])@ == DirEntryView::Dir(
                    self@[i - 1 - k],
                ),
                forall|k: int| 0 <= k < queue@.len() ==> (#[trigger] queue@[k])@.wf()
                    && entry_rooted(queue@[k]@, self@),
            decreases self@.len() - i,
        {
            let d = self.dirs[i].clone();
            proof {
                assert(self.dirs@[i as int]@ == self@[i as int]);
                assert(dir_in_tree(d@, self@[i as int]));
            }
            let e = DirEntry::from_dir(d);
            proof {
                assert(forall|k: int|
                    0 <= k < queue@.len() ==> queue@.insert(0, e)[k + 1] == queue@[k]);
            }
            queue.insert(0, e);
            i = i + 1;
        }
        let ghost rs = self@;
        let ghost owners = Seq::new(rs.len(), |k: int| rs.len() - 1 - k);
        let w = OverrideWalk {
            queue,
            seen: Vec::new(),
            budget: usize::MAX,
            roots: Ghost(rs),
            owners: Ghost(owners),
        };
        proof {
            assert(w.yielded() =~= Seq::<Seq<char>>::empty());
            assert forall|k: int| 0 <= k < w.queue@.len() implies (#[trigger] w.queue@[k])@.wf()
                && entry_in_tree(w.queue@[k]@, rs[owners[k]]) by {
                assert(w.queue@[k]@ == DirEntryView::Dir(rs[rs.len() - 1 - k]));
                assert(owners[k] == rs.len() - 1 - k);
            }
            assert forall|i2: int, ri: int|
                0 <= i2 < rs.len() && 0 <= ri < root_table(rs[i2]).len() && is_under(
                    (#[trigger] root_table(rs[i2])[ri]).path,
                    rs[i2].rel,
                ) implies w.yielded().contains(root_table(rs[i2])[ri].path) || covered_by_owner(
                w.queue@,
                owners,
                i2,
                root_table(rs[i2])[ri].path,
            ) by {
                let k = rs.len() - 1 - i2;
                assert(w.queue@[k]@ == DirEntryView::Dir(rs[i2]));
                assert(owners[k] == i2);
                assert(entry_covers(w.queue@[k]@, root_table(rs[i2])[ri].path));
            }
        }
        w
    }
}

/// A lazy recursive traversal over one or more roots: an explicit queue of
/// pending entries, drained one `next` call at a time.  Consuming the walker
/// drains it; a fresh walk over the same roots starts from the beginning.
/// A step budget, too large to exhaust in practice, makes every call
/// provably finite even on a pathological on-disk tree.
pub struct DirWalk {
    queue: Vec<DirEntry>,
    budget: usize,
    roots: Ghost<Seq<DirView>>,
    yielded: Ghost<Seq<FileView>>,
}

impl DirWalk {
    /// Every pending entry is well formed and lies in one of the roots.
    pub closed spec fn wf(&self) -> bool {
        &&& all_wf(self.roots@)
        &&& forall|k: int| 0 <= k < self.queue@.len() ==> (#[trigger] self.queue@[k])@.wf()
            && entry_rooted(self.queue@[k]@, self.roots@)
    }

    /// The roots this traversal covers.
    pub closed spec fn roots(&self) -> Seq<DirView> {
        self.roots@
    }

    /// The views of the files yielded so far, in order.
    pub closed spec fn yielded(&self) -> Seq<FileView> {
        self.yielded@
    }

    /// The steps left before the walk gives up.
    pub closed spec fn fuel(&self) -> nat {
        self.budget as nat
    }

    /// Nothing is pending: the traversal is drained.
    pub closed spec fn done(&self) -> bool {
        self.queue@.len() == 0
    }

    /// Every embedded file of every root has been yielded or is still
    /// reachable from the pending queue.
    pub closed spec fn complete(&self) -> bool {
        walk_complete(self.queue@, self.roots@, self.yielded@)
    }

    /// Reports whether the traversal is drained; a drained, complete walk
    /// has yielded every embedded file of its roots.
    pub fn is_done(&self) -> (r: bool)
        ensures
            r == self.done(),
    {
        self.queue.len() == 0
    }

    /// Produces the next file, or `None` once the traversal is exhausted.
    /// Every file handed out is well formed and lies in one of the roots; an
    /// embedded file carries exactly its root's table record.  No embedded
    /// file is lost: each one is either already in the yielded log or still
    /// reachable, and a walker that reports `None` with fuel left is drained.
    pub fn next(&mut self) -> (r: Option<File>)
        requires
            old(self).wf(),
            old(self).complete(),
        ensures
            final(self).wf(),
            final(self).complete(),
            final(self).roots() == old(self).roots(),
            final(self).fuel() <= old(self).fuel(),
            match r {
                Some(f) => f@.wf() && file_rooted(f@, old(self).roots()) && final(self).yielded()
                    == old(self).yielded().push(f@),
                None => final(self).yielded() == old(self).yielded() && (final(self).fuel() > 0
                    ==> final(self).done()),
            },
    {
        while self.queue.len() > 0 && self.budget > 0
            invariant
                self.wf(),
                self.complete(),
                self.fuel() <= old(self).fuel(),
                self.roots() == old(self).roots(),
                self.yielded() == old(self).yielded(),
            decreases self.budget,
        {
            self.budget = self.budget - 1;
            let ghost bcur = self.budget;
            let ghost q_pre = self.queue@;
            let ghost y_pre = self.yielded@;
            let e = self.queue.remove(0);
            match e.inner {
                EntryInner::File(f) => {
                    proof {
                        self.yielded@ = y_pre.push(f@);
                        assert forall|i: int, ri: int|
                            0 <= i < self.roots@.len() && 0 <= ri < root_table(
                                self.roots@[i],
                            ).len() && is_under(
                                (#[trigger] root_table(self.roots@[i])[ri]).path,
                                self.roots@[i].rel,
                            ) implies self.yielded@.contains(
                            record_file(root_table(self.roots@[i])[ri]),
                        ) || covered_by_queue(
                            self.queue@,
                            self.roots@[i],
                            root_table(self.roots@[i])[ri].path,
                        ) by {
                            let v = self.roots@[i];
                            let rec = root_table(v)[ri];
                            if y_pre.contains(record_file(rec)) {
                                let j = choose|j: int|
                                    0 <= j < y_pre.len() && y_pre[j] == record_file(rec);
                                assert(self.yielded@[j] == record_file(rec));
                            } else {
                                assert(covered_by_queue(q_pre, v, rec.path));
                                let k = choose|k: int|
                                    0 <= k < q_pre.len() && entry_in_tree(
                                        (#[trigger] q_pre[k])@,
                                        v,
                                    ) && entry_covers(q_pre[k]@, rec.path);
                                if k == 0 {
                                    assert(q_pre[0]@ == DirEntryView::File(f@));
                                    assert(v.wf());
                                    lemma_table_lookup(root_table(v), ri);
                                    assert(f@ == record_file(rec));
                                    assert(self.yielded@.last() == f@);
                                } else {
                                    assert(self.queue@[k - 1] == q_pre[k]);
                                    assert(covered_by_queue(self.queue@, v, rec.path));
                                }
                            }
                        }
                    }
                    return Some(f);
                },
                EntryInner::Dir(d) => {
                    let ghost c = d@;
                    let ghost i = choose|i: int|
                        0 <= i < self.roots@.len() && entry_in_tree(
                            DirEntryView::Dir(c),
                            #[trigger] self.roots@[i],
                        );
                    let children = d.entries();
                    let ghost q0 = self.queue@;
                    let mut k: usize = 0;
                    while k < children.len()
                        invariant
                            0 <= k <= children@.len(),
                            self.wf(),
                            self.budget == bcur,
                            self.fuel() <= old(self).fuel(),
                            self.roots() == old(self).roots(),
                            self.yielded() == old(self).yielded(),
                            0 <= i < self.roots@.len(),
                            dir_in_tree(c, self.roots@[i]),
                            self.queue@.len() == q0.len() + k,
                            forall|j: int| 0 <= j < q0.len() ==> self.queue@[j] == q0[j],
                            forall|k0: int| 0 <= k0 < k ==> (#[trigger] self.queue@[q0.len()
                                + k0])@ == children@[k0]@,
                            forall|k0: int| 0 <= k0 < children@.len() ==> (
                            #[trigger] children@[k0])@.wf() && entry_child_of(children@[k0]@, c),
                        decreases children@.len() - k,
                    {
                        let child = (&children[k]).clone();
                        proof {
                            lemma_child_in_tree(child@, c, self.roots@[i]);
                        }
                        self.queue.push(child);
                        k = k + 1;
                    }
                    proof {
                        assert forall|i2: int, ri: int|
                            0 <= i2 < self.roots@.len() && 0 <= ri < root_table(
                                self.roots@[i2],
                            ).len() && is_under(
                                (#[trigger] root_table(self.roots@[i2])[ri]).path,
                                self.roots@[i2].rel,
                            ) implies self.yielded@.contains(
                            record_file(root_table(self.roots@[i2])[ri]),
                        ) || covered_by_queue(
                            self.queue@,
                            self.roots@[i2],
                            root_table(self.roots@[i2])[ri].path,
                        ) by {
                            let v = self.roots@[i2];
                            let rec = root_table(v)[ri];
                            if !self.yielded@.contains(record_file(rec)) {
                                assert(covered_by_queue(q_pre, v, rec.path));
                                let kq = choose|kq: int|
                                    0 <= kq < q_pre.len() && entry_in_tree(
                                        (#[trigger] q_pre[kq])@,
                                        v,
                                    ) && entry_covers(q_pre[kq]@, rec.path);
                                if kq == 0 {
                                    assert(q_pre[0]@ == DirEntryView::Dir(c));
                                    assert(dir_in_tree(c, v));
                                    assert(v.wf());
                                    assert(valid_rel_path(rec.path));
                                    assert(c.wf());
                                    assert(c.backing == v.backing);
                                    if no_slash(rest_under(rec.path, c.rel)) {
                                        assert(has_file_entry(children@, rec.path));
                                        let kc = choose|kc: int|
                                            0 <= kc < children@.len() && ((
                                            #[trigger] children@[kc])@
                                                matches DirEntryView::File(ff) && ff.rel
                                                == rec.path);
                                        lemma_child_in_tree(children@[kc]@, c, v);
                                        assert(self.queue@[q0.len() + kc]@ == children@[kc]@);
                                        assert(covered_by_queue(self.queue@, v, rec.path));
                                    } else {
                                        assert(has_dir_entry(
                                            children@,
                                            spec_join(
                                                c.rel,
                                                first_segment(rest_under(rec.path, c.rel)),
                                            ),
                                        ));
                                        let kc = choose|kc: int|
                                            0 <= kc < children@.len() && ((
                                            #[trigger] children@[kc])@
                                                matches DirEntryView::Dir(cc) && cc.rel
                                                == spec_join(
                                                c.rel,
                                                first_segment(rest_under(rec.path, c.rel)),
                                            ));
                                        lemma_child_in_tree(children@[kc]@, c, v);
                                        lemma_under_first_segment(rec.path, c.rel);
                                        assert(self.queue@[q0.len() + kc]@ == children@[kc]@);
                                        assert(covered_by_queue(self.queue@, v, rec.path));
                                    }
                                } else {
                                    assert(q0[kq - 1] == q_pre[kq]);
                                    assert(self.queue@[kq - 1] == q_pre[kq]);
                                    assert(covered_by_queue(self.queue@, v, rec.path));
                                }
                            }
                        }
                    }
                },
            }
        }
        None
    }
}

/// A drained walk has yielded every embedded file of its roots: once
/// nothing is pending, each record under each embedded root's path is in
/// the yielded log.
pub proof fn lemma_drained_walk_yields_all(w: &DirWalk, i: int, ri: int)
    requires
        w.complete(),
        w.done(),
        0 <= i < w.roots().len(),
        0 <= ri < root_table(w.roots()[i]).len(),
        is_under(root_table(w.roots()[i])[ri].path, w.roots()[i].rel),
    ensures
        w.yielded().contains(record_file(root_table(w.roots()[i])[ri])),
{
    if covered_by_queue(w.queue@, w.roots()[i], root_table(w.roots()[i])[ri].path) {
        let k = choose|k: int|
            0 <= k < w.queue@.len() && entry_in_tree((#[trigger] w.queue@[k])@, w.roots()[i])
                && entry_covers(w.queue@[k]@, root_table(w.roots()[i])[ri].path);
    }
}

/// The sequence of views of a vector of strings.
pub open spec fn str_views(v: Seq<String>) -> Seq<Seq<char>> {
    Seq::new(v.len(), |i: int| v[i]@)
}

/// Tests whether `v` holds a string equal to `s`.
pub(crate) fn contains_str(v: &Vec<String>, s: &str) -> (r: bool)
    ensures
        r == str_views(v@).contains(s@),
{
    let mut k: usize = 0;
    while k < v.len()
        invariant
            0 <= k <= v@.len(),
            forall|j: int| 0 <= j < k ==> (#[trigger] v@[j])@ != s@,
        decreases v@.len() - k,
    {
        if str_eq(v[k].as_str(), s) {
            proof {
                assert(str_views(v@)[k as int] == s@);
            }
            return true;
        }
        k = k + 1;
    }
    proof {
        assert(!str_views(v@).contains(s@)) by {
            if str_views(v@).contains(s@) {
                let j = choose|j: int| 0 <= j < str_views(v@).len() && str_views(v@)[j] == s@;
                assert(v@[j]@ != s@);
            }
        }
    }
    false
}

/// Some entry of `q` that the walk charges to root `i` accounts for `p`.
pub open spec fn covered_by_owner(
    q: Seq<DirEntry>,
    owners: Seq<int>,
    i: int,
    p: Seq<char>,
) -> bool {
    exists|k: int| 0 <= k < q.len() && #[trigger] owners[k] == i && entry_covers(q[k]@, p)
}

/// Every embedded path of every root has been yielded or is still
/// reachable from the pending entries charged to that root.
pub open spec fn override_walk_complete(
    q: Seq<DirEntry>,
    owners: Seq<int>,
    roots: Seq<DirView>,
    seen: Seq<Seq<char>>,
) -> bool {
    forall|i: int, ri: int|
        0 <= i < roots.len() && 0 <= ri < root_table(roots[i]).len() && is_under(
            (#[trigger] root_table(roots[i])[ri]).path,
            roots[i].rel,
        ) ==> seen.contains(root_table(roots[i])[ri].path) || covered_by_owner(
            q,
            owners,
            i,
            root_table(roots[i])[ri].path,
        )
}

/// The override-aware traversal: it threads a set of already-yielded paths
/// through the whole walk, and a path is yielded at most once.  Each
/// pending entry is charged (in ghost state) to the root it came from;
/// entries of higher-precedence roots always stand in front of those of
/// lower ones, which is what makes the first file seen at a path the
/// override winner's.
pub struct OverrideWalk {
    queue: Vec<DirEntry>,
    seen: Vec<String>,
    budget: usize,
    roots: Ghost<Seq<DirView>>,
    owners: Ghost<Seq<int>>,
}

impl OverrideWalk {
    /// Every pending entry is well formed and lies in the tree of the root
    /// it is charged to; charges never increase along the queue; and no
    /// path has been yielded twice.
    pub closed spec fn wf(&self) -> bool {
        &&& all_wf(self.roots@)
        &&& self.owners@.len() == self.queue@.len()
        &&& forall|k: int|
            0 <= k < self.queue@.len() ==> 0 <= #[trigger] self.owners@[k] < self.roots@.len()
        &&& forall|k: int| 0 <= k < self.queue@.len() ==> (#[trigger] self.queue@[k])@.wf()
            && entry_in_tree(self.queue@[k]@, self.roots@[self.owners@[k]])
        &&& forall|k1: int, k2: int|
            0 <= k1 < k2 < self.owners@.len() ==> self.owners@[k1] >= self.owners@[k2]
        &&& self.yielded().no_duplicates()
    }

    /// The roots this traversal covers.
    pub closed spec fn roots(&self) -> Seq<DirView> {
        self.roots@
    }

    /// The relative paths yielded so far, in order.
    pub closed spec fn yielded(&self) -> Seq<Seq<char>> {
        str_views(self.seen@)
    }

    /// The steps left before the walk gives up.
    pub closed spec fn fuel(&self) -> nat {
        self.budget as nat
    }

    /// Nothing is pending: the traversal is drained.
    pub closed spec fn done(&self) -> bool {
        self.queue@.len() == 0
    }

    /// Every embedded path of every root has been yielded or is still
    /// reachable from the pending entries charged to that root.
    pub closed spec fn complete(&self) -> bool {
        override_walk_complete(self.queue@, self.owners@, self.roots@, self.yielded())
    }

    /// Reports whether the traversal is drained; a drained, complete
    /// override walk has yielded every embedded path of its roots, each
    /// exactly once.
    pub fn is_done(&self) -> (r: bool)
        ensures
            r == self.done(),
    {
        self.queue.len() == 0
    }

    /// Produces the next file, or `None` once the traversal is exhausted.
    /// A yielded file's relative path differs from every path yielded
    /// before, so the sequence produced over the walker's lifetime holds no
    /// relative path twice; files whose path was already yielded are passed
    /// over, which realizes override precedence.  With embedded roots the
    /// yielded file is the override winner's record: the copy of the
    /// highest-precedence root holding its path.  No embedded path is
    /// lost, and a walker that reports `None` with fuel left is drained.
    pub fn next(&mut self) -> (r: Option<File>)
        requires
            old(self).wf(),
            old(self).complete(),
        ensures
            final(self).wf(),
            final(self).complete(),
            final(self).roots() == old(self).roots(),
            final(self).fuel() <= old(self).fuel(),
            match r {
                Some(f) => f@.wf() && file_rooted(f@, old(self).roots()) && !old(
                    self,
                ).yielded().contains(f@.rel) && final(self).yielded() == old(
                    self,
                ).yielded().push(f@.rel) && (all_embedded(old(self).roots()) ==> f@
                    == record_file(walk_resolve(old(self).roots(), f@.rel))),
                None => final(self).yielded() == old(self).yielded() && (final(self).fuel() > 0
                    ==> final(self).done()),
            },
    {
        while self.queue.len() > 0 && self.budget > 0
            invariant
                self.wf(),
                self.complete(),
                self.fuel() <= old(self).fuel(),
                self.roots() == old(self).roots(),
                self.yielded() == old(self).yielded(),
            decreases self.budget,
        {
            self.budget = self.budget - 1;
            let ghost bcur = self.budget;
            let ghost q_pre = self.queue@;
            let ghost owners_pre = self.owners@;
            let ghost seen_pre = self.yielded();
            let ghost i0 = owners_pre[0];
            let e = self.queue.remove(0);
            proof {
                self.owners@ = owners_pre.skip(1);
            }
            match e.inner {
                EntryInner::File(f) => {
                    let fresh = !contains_str(&self.seen, f.rel.as_str());
                    if fresh {
                        self.seen.push(f.rel.clone());
                        proof {
                            assert(self.yielded() =~= seen_pre.push(f@.rel));
                            assert forall|a: int, b: int|
                                0 <= a < b < self.yielded().len() implies self.yielded()[a]
                                != self.yielded()[b] by {
                                if b == self.yielded().len() - 1 {
                                    assert(seen_pre.contains(seen_pre[a]));
                                }
                            }
                        }
                    }
                    proof {
                        assert forall|i: int, ri: int|
                            0 <= i < self.roots@.len() && 0 <= ri < root_table(
                                self.roots@[i],
                            ).len() && is_under(
                                (#[trigger] root_table(self.roots@[i])[ri]).path,
                                self.roots@[i].rel,
                            ) implies self.yielded().contains(
                            root_table(self.roots@[i])[ri].path,
                        ) || covered_by_owner(
                            self.queue@,
                            self.owners@,
                            i,
                            root_table(self.roots@[i])[ri].path,
                        ) by {
                            let v = self.roots@[i];
                            let rec = root_table(v)[ri];
                            if seen_pre.contains(rec.path) {
                                let j = choose|j: int|
                                    0 <= j < seen_pre.len() && seen_pre[j] == rec.path;
                                assert(self.yielded()[j] == rec.path);
                            } else {
                                assert(covered_by_owner(q_pre, owners_pre, i, rec.path));
                                let k = choose|k: int|
                                    0 <= k < q_pre.len() && #[trigger] owners_pre[k] == i
                                        && entry_covers(q_pre[k]@, rec.path);
                                if k == 0 {
                                    assert(q_pre[0]@ == DirEntryView::File(f@));
                                    assert(rec.path == f@.rel);
                                    assert(fresh);
                                    assert(self.yielded().last() == rec.path);
                                } else {
                                    assert(self.queue@[k - 1] == q_pre[k]);
                                    assert(self.owners@[k - 1] == owners_pre[k]);
                                    assert(covered_by_owner(
                                        self.queue@,
                                        self.owners@,
                                        i,
                                        rec.path,
                                    ));
                                }
                            }
                        }
                    }
                    if fresh {
                        proof {
                            if all_embedded(self.roots@) {
                                let p = f@.rel;
                                assert(entry_in_tree(q_pre[0]@, self.roots@[i0]));
                                assert(file_in_tree(f@, self.roots@[i0]));
                                assert(self.roots@[i0].is_embed());
                                assert(root_holds(self.roots@[i0], p));
                                lemma_walk_winner_at_least(self.roots@, p, i0);
                                lemma_walk_winner_props(self.roots@, p);
                                let w = walk_winner(self.roots@, p);
                                if w > i0 {
                                    assert(root_holds(self.roots@[w], p));
                                    let ri = choose|ri: int|
                                        0 <= ri < root_table(self.roots@[w]).len() && (
                                        #[trigger] root_table(self.roots@[w])[ri]).path == p;
                                    assert(!seen_pre.contains(p));
                                    assert(covered_by_owner(q_pre, owners_pre, w, p));
                                    let kq = choose|kq: int|
                                        0 <= kq < q_pre.len() && #[trigger] owners_pre[kq] == w
                                            && entry_covers(q_pre[kq]@, p);
                                    assert(owners_pre[0] >= owners_pre[kq]);
                                }
                                assert(w == i0);
                                assert(f@ == record_file(table_lookup(
                                    root_table(self.roots@[i0]),
                                    p,
                                )));
                            }
                        }
                        return Some(f);
                    }
                },
                EntryInner::Dir(d) => {
                    let ghost c = d@;
                    let children = d.entries();
                    let ghost q0 = self.queue@;
                    let ghost owners0 = self.owners@;
                    let mut k: usize = 0;
                    while k < children.len()
                        invariant
                            0 <= k <= children@.len(),
                            self.wf(),
                            self.budget == bcur,
                            self.fuel() <= old(self).fuel(),
                            self.roots() == old(self).roots(),
                            self.yielded() == old(self).yielded(),
                            0 <= i0 < self.roots@.len(),
                            dir_in_tree(c, self.roots@[i0]),
                            owners0.len() == q0.len(),
                            forall|j: int| 0 <= j < owners0.len() ==> #[trigger] owners0[j]
                                <= i0,
                            self.queue@.len() == q0.len() + k,
                            forall|j: int| 0 <= j < q0.len() ==> self.queue@[k + j] == q0[j],
                            forall|j: int| 0 <= j < q0.len() ==> #[trigger] self.owners@[k + j]
                                == owners0[j],
                            forall|k0: int| 0 <= k0 < k ==> (#[trigger] self.queue@[k - 1 - k0])@
                                == children@[k0]@,
                            forall|k0: int| 0 <= k0 < k ==> #[trigger] self.owners@[k - 1 - k0]
                                == i0,
                            forall|k0: int| 0 <= k0 < children@.len() ==> (
                            #[trigger] children@[k0])@.wf() && entry_child_of(children@[k0]@, c),
                        decreases children@.len() - k,
                    {
                        let child = (&children[k]).clone();
                        let ghost qb = self.queue@;
                        let ghost ob = self.owners@;
                        proof {
                            lemma_child_in_tree(child@, c, self.roots@[i0]);
                            assert(forall|q: int|
                                0 <= q < self.queue@.len() ==> self.queue@.insert(0, child)[q + 1]
                                    == self.queue@[q]);
                        }
                        self.queue.insert(0, child);
                        proof {
                            self.owners@ = seq![i0] + ob;
                            assert(self.queue@[0] == child);
                            assert(self.owners@[0] == i0);
                            assert(forall|q: int|
                                0 <= q < ob.len() ==> #[trigger] self.owners@[q + 1] == ob[q]);
                            assert forall|k0: int| 0 <= k0 < k + 1 implies (#[trigger] self.queue@[k + 1 - 1 - k0])@ == children@[k0]@ by {
                                if k0 < k {
                                    assert(self.queue@[k - k0] == qb[k - 1 - k0]);
                                }
                            }
                            assert forall|k0: int| 0 <= k0 < k + 1 implies #[trigger] self.owners@[k + 1 - 1 - k0] == i0 by {
                                if k0 < k {
                                    assert(self.owners@[k - k0] == ob[k - 1 - k0]);
                                }
                            }
                            assert forall|j: int| 0 <= j < q0.len() implies self.queue@[k + 1 + j]
                                == q0[j] by {
                                assert(self.queue@[k + 1 + j] == qb[k + j]);
                            }
                            assert forall|j: int| 0 <= j < q0.len() implies #[trigger] self.owners@[k + 1 + j] == owners0[j] by {
                                assert(self.owners@[k + 1 + j] == ob[k + j]);
                            }
                            assert forall|k1: int, k2: int|
                                0 <= k1 < k2 < self.owners@.len() implies self.owners@[k1]
                                >= self.owners@[k2] by {
                                if k1 > 0 {
                                    assert(self.owners@[k1] == ob[k1 - 1]);
                                    assert(self.owners@[k2] == ob[k2 - 1]);
                                } else {
                                    assert(self.owners@[k2] == ob[k2 - 1]);
                                    if k2 - 1 < k {
                                        assert(ob[k - 1 - (k - k2)] == i0);
                                        assert(ob[k2 - 1] == i0);
                                    } else {
                                        let j = k2 - 1 - k;
                                        assert(ob[k + j] == owners0[j]);
                                        assert(owners0[j] <= i0);
                                    }
                                }
                            }
                        }
                        k = k + 1;
                    }
                    proof {
                        let kf = children@.len() as int;
                        assert forall|i2: int, ri: int|
                            0 <= i2 < self.roots@.len() && 0 <= ri < root_table(
                                self.roots@[i2],
                            ).len() && is_under(
                                (#[trigger] root_table(self.roots@[i2])[ri]).path,
                                self.roots@[i2].rel,
                            ) implies self.yielded().contains(
                            root_table(self.roots@[i2])[ri].path,
                        ) || covered_by_owner(
                            self.queue@,
                            self.owners@,
                            i2,
                            root_table(self.roots@[i2])[ri].path,
                        ) by {
                            let v = self.roots@[i2];
                            let rec = root_table(v)[ri];
                            if !self.yielded().contains(rec.path) {
                                assert(covered_by_owner(q_pre, owners_pre, i2, rec.path));
                                let kq = choose|kq: int|
                                    0 <= kq < q_pre.len() && #[trigger] owners_pre[kq] == i2
                                        && entry_covers(q_pre[kq]@, rec.path);
                                if kq == 0 {
                                    assert(q_pre[0]@ == DirEntryView::Dir(c));
                                    assert(i2 == i0);
                                    assert(entry_in_tree(q_pre[0]@, self.roots@[i0]));
                                    assert(dir_in_tree(c, v));
                                    assert(v.wf());
                                    assert(valid_rel_path(rec.path));
                                    assert(c.wf());
                                    assert(c.backing == v.backing);
                                    if no_slash(rest_under(rec.path, c.rel)) {
                                        assert(has_file_entry(children@, rec.path));
                                        let kc = choose|kc: int|
                                            0 <= kc < children@.len() && ((
                                            #[trigger] children@[kc])@
                                                matches DirEntryView::File(ff) && ff.rel
                                                == rec.path);
                                        assert(self.queue@[kf - 1 - kc]@ == children@[kc]@);
                                        assert(self.owners@[kf - 1 - kc] == i0);
                                        assert(covered_by_owner(
                                            self.queue@,
                                            self.owners@,
                                            i2,
                                            rec.path,
                                        ));
                                    } else {
                                        assert(has_dir_entry(
                                            children@,
                                            spec_join(
                                                c.rel,
                                                first_segment(rest_under(rec.path, c.rel)),
                                            ),
                                        ));
                                        let kc = choose|kc: int|
                                            0 <= kc < children@.len() && ((
                                            #[trigger] children@[kc])@
                                                matches DirEntryView::Dir(cc) && cc.rel
                                                == spec_join(
                                                c.rel,
                                                first_segment(rest_under(rec.path, c.rel)),
                                            ));
                                        lemma_under_first_segment(rec.path, c.rel);
                                        assert(self.queue@[kf - 1 - kc]@ == children@[kc]@);
                                        assert(self.owners@[kf - 1 - kc] == i0);
                                        assert(covered_by_owner(
                                            self.queue@,
                                            self.owners@,
                                            i2,
                                            rec.path,
                                        ));
                                    }
                                } else {
                                    assert(q0[kq - 1] == q_pre[kq]);
                                    assert(owners0[kq - 1] == owners_pre[kq]);
                                    assert(self.queue@[kf + kq - 1] == q_pre[kq]);
                                    assert(self.owners@[kf + kq - 1] == owners_pre[kq]);
                                    assert(covered_by_owner(
                                        self.queue@,
                                        self.owners@,
                                        i2,
                                        rec.path,
                                    ));
                                }
                            }
                        }
                    }
                },
            }
        }
        None
    }
}

/// A drained override walk has yielded every embedded path of its roots;
/// since the yielded log never repeats a path, each is yielded exactly once.
pub proof fn lemma_drained_override_yields_all(w: &OverrideWalk, i: int, ri: int)
    requires
        w.complete(),
        w.done(),
        0 <= i < w.roots().len(),
        0 <= ri < root_table(w.roots()[i]).len(),
        is_under(root_table(w.roots()[i])[ri].path, w.roots()[i].rel),
    ensures
        w.yielded().contains(root_table(w.roots()[i])[ri].path),
{
    if covered_by_owner(w.queue@, w.owners@, i, root_table(w.roots()[i])[ri].path) {
        let k = choose|k: int|
            0 <= k < w.queue@.len() && #[trigger] w.owners@[k] == i && entry_covers(
                w.queue@[k]@,
                root_table(w.roots()[i])[ri].path,
            );
    }
}

impl Dir {
    /// Begins a lazy breadth-first walk over all files in this directory's
    /// subtree.
    pub fn walk(&self) -> (w: DirWalk)
        requires
            self@.wf(),
        ensures
            w.wf(),
            w.complete(),
            w.roots() == seq![self@],
            w.yielded() == Seq::<FileView>::empty(),
            w.fuel() == usize::MAX as nat,
    {
        let entries = self.entries();
        proof {
            assert forall|k: int| 0 <= k < entries@.len() implies (#[trigger] entries@[k])@.wf()
                && entry_rooted(entries@[k]@, seq![self@]) by {
                assert(seq![self@][0] == self@);
                match entries@[k]@ {
                    DirEntryView::File(f) => {},
                    DirEntryView::Dir(c) => {},
                }
            }
        }
        let ghost rs = seq![self@];
        let w = DirWalk {
            queue: entries,
            budget: usize::MAX,
            roots: Ghost(rs),
            yielded: Ghost(Seq::empty()),
        };
        proof {
            assert forall|i2: int, ri: int|
                0 <= i2 < rs.len() && 0 <= ri < root_table(rs[i2]).len() && is_under(
                    (#[trigger] root_table(rs[i2])[ri]).path,
                    rs[i2].rel,
                ) implies w.yielded@.contains(record_file(root_table(rs[i2])[ri]))
                || covered_by_queue(w.queue@, rs[i2], root_table(rs[i2])[ri].path) by {
                let v = rs[i2];
                assert(v == self@);
                let rec = root_table(v)[ri];
                assert(valid_rel_path(rec.path));
                if no_slash(rest_under(rec.path, v.rel)) {
                    assert(has_file_entry(entries@, rec.path));
                    let kc = choose|kc: int|
                        0 <= kc < entries@.len() && ((#[trigger] entries@[kc])@
                            matches DirEntryView::File(ff) && ff.rel == rec.path);
                    assert(entry_in_tree(entries@[kc]@, v));
                    assert(covered_by_queue(w.queue@, v, rec.path));
                } else {
                    assert(has_dir_entry(
                        entries@,
                        spec_join(v.rel, first_segment(rest_under(rec.path, v.rel))),
                    ));
                    let kc = choose|kc: int|
                        0 <= kc < entries@.len() && ((#[trigger] entries@[kc])@
                            matches DirEntryView::Dir(cc) && cc.rel == spec_join(
                            v.rel,
                            first_segment(rest_under(rec.path, v.rel)),
                        ));
                    lemma_under_first_segment(rec.path, v.rel);
                    assert(entry_in_tree(entries@[kc]@, v));
                    assert(covered_by_queue(w.queue@, v, rec.path));
                }
            }
        }
        w
    }
}

/// Path identity: two file handles are equal exactly when their relative
/// paths are equal, whatever their backing variant or contents.
pub proof fn lemma_file_identity(a: &File, b: &File)
    ensures
        a.eq_spec(b) <==> a@.rel == b@.rel,
{
}

/// Directory identity: two directory handles are equal exactly when their
/// relative paths are equal, whatever their backing.
pub proof fn lemma_dir_identity(a: &Dir, b: &Dir)
    ensures
        a.eq_spec(b) <==> a@.rel == b@.rel,
{
}

/// Override precedence: when two embedded roots both define a name, the set
/// `[a, b]` resolves it to `b`'s record and the set `[b, a]` to `a`'s —
/// reversing the order reverses the winner.
pub proof fn lemma_override_precedence(a: DirView, b: DirView, name: Seq<char>)
    requires
        root_defines(a, name),
        root_defines(b, name),
    ensures
        winner_index(seq![a, b], name) == 1,
        winner_index(seq![b, a], name) == 1,
        resolve(seq![a, b], name) == table_lookup(root_table(b), spec_join(b.rel, name)),
        resolve(seq![b, a], name) == table_lookup(root_table(a), spec_join(a.rel, name)),
{
    assert(seq![a, b].last() == b);
    assert(seq![b, a].last() == a);
    assert(seq![a, b][1] == b);
    assert(seq![b, a][1] == a);
}

/// An empty root set yields nothing: every file a walk produces lies in one
/// of the roots, so with no roots there is none to produce.
pub proof fn lemma_empty_roots_yield_nothing(roots: Seq<DirView>, f: FileView)
    requires
        roots.len() == 0,
    ensures
        !file_rooted(f, roots),
{
}

/// The relative paths of the records of `t` that lie under the path `d`, in
/// table order.
pub open spec fn paths_under(t: Seq<RecordView>, d: Seq<char>) -> Seq<Seq<char>>
    decreases t.len(),
{
    if t.len() == 0 {
        Seq::empty()
    } else if is_under(t.last().path, d) {
        paths_under(t.drop_last(), d).push(t.last().path)
    } else {
        paths_under(t.drop_last(), d)
    }
}

pub proof fn lemma_paths_under(t: Seq<RecordView>, d: Seq<char>)
    ensures
        paths_under(t, d).len() <= t.len(),
        forall|p: Seq<char>| #[trigger] paths_under(t, d).contains(p) <==> (exists|i: int|
            0 <= i < t.len() && (#[trigger] t[i]).path == p && is_under(p, d)),
        table_wf(t) ==> paths_under(t, d).no_duplicates(),
    decreases t.len(),
{
    if t.len() > 0 {
        let t0 = t.drop_last();
        lemma_paths_under(t0, d);
        assert(forall|i: int| 0 <= i < t0.len() ==> #[trigger] t0[i] == t[i]);
        if table_wf(t) {
            assert(table_wf(t0));
        }
        assert forall|p: Seq<char>| #[trigger] paths_under(t, d).contains(p) implies (exists|
            i: int,
        |
            0 <= i < t.len() && (#[trigger] t[i]).path == p && is_under(p, d)) by {
            if is_under(t.last().path, d) {
                let s = paths_under(t0, d).push(t.last().path);
                let j = choose|j: int| 0 <= j < s.len() && s[j] == p;
                if j < s.len() - 1 {
                    assert(paths_under(t0, d).contains(p));
                } else {
                    assert(t[t.len() - 1].path == p);
                }
            } else {
                assert(paths_under(t0, d).contains(p));
            }
        }
        assert forall|p: Seq<char>|
            (exists|i: int| 0 <= i < t.len() && (#[trigger] t[i]).path == p && is_under(p, d))
                implies #[trigger] paths_under(t, d).contains(p) by {
            let i = choose|i: int|
                0 <= i < t.len() && (#[trigger] t[i]).path == p && is_under(p, d);
            if i < t.len() - 1 {
                assert(t0[i].path == p && is_under(p, d));
                assert(paths_under(t0, d).contains(p));
                let j = choose|j: int|
                    0 <= j < paths_under(t0, d).len() && paths_under(t0, d)[j] == p;
                assert(paths_under(t, d)[j] == p);
            } else {
                assert(paths_under(t, d).last() == p);
            }
        }
        if table_wf(t) && is_under(t.last().path, d) {
            let s0 = paths_under(t0, d);
            assert(!s0.contains(t.last().path)) by {
                if s0.contains(t.last().path) {
                    let i = choose|i: int|
                        0 <= i < t0.len() && (#[trigger] t0[i]).path == t.last().path && is_under(
                            t.last().path,
                            d,
                        );
                    assert(t[i].path != t[t.len() - 1].path);
                }
            }
            assert forall|x: int, y: int|
                0 <= x < y < paths_under(t, d).len() implies paths_under(t, d)[x] != paths_under(
                t,
                d,
            )[y] by {
                if y < paths_under(t, d).len() - 1 {
                    assert(paths_under(t, d)[x] == s0[x] && paths_under(t, d)[y] == s0[y]);
                } else {
                    assert(paths_under(t, d)[x] == s0[x]);
                    assert(s0.contains(s0[x]));
                }
            }
        }
    }
}

/// The number of files a plain walk over these roots visits: every record
/// of every root that lies under the root's path, duplicates across roots
/// included.
pub open spec fn walk_total(roots: Seq<DirView>) -> nat
    decreases roots.len(),
{
    if roots.len() == 0 {
        0
    } else {
        walk_total(roots.drop_last()) + paths_under(
            root_table(roots.last()),
            roots.last().rel,
        ).len()
    }
}

/// The distinct relative paths an override walk over these roots can yield.
pub open spec fn override_paths(roots: Seq<DirView>) -> Set<Seq<char>>
    decreases roots.len(),
{
    if roots.len() == 0 {
        Set::empty()
    } else {
        override_paths(roots.drop_last()) + paths_under(
            root_table(roots.last()),
            roots.last().rel,
        ).to_set()
    }
}

/// No relative path lies in the subtrees of two different roots.
pub open spec fn no_cross_duplicates(roots: Seq<DirView>) -> bool {
    forall|i: int, j: int|
        0 <= i < j < roots.len() ==> paths_under(
            root_table(#[trigger] roots[i]),
            roots[i].rel,
        ).to_set().disjoint(paths_under(root_table(#[trigger] roots[j]), roots[j].rel).to_set())
}

pub proof fn lemma_override_paths_membership(roots: Seq<DirView>, p: Seq<char>)
    ensures
        override_paths(roots).contains(p) <==> (exists|i: int|
            0 <= i < roots.len() && paths_under(
                root_table(#[trigger] roots[i]),
                roots[i].rel,
            ).to_set().contains(p)),
    decreases roots.len(),
{
    broadcast use vstd::seq_lib::seq_to_set_is_finite;

    if roots.len() > 0 {
        let r0 = roots.drop_last();
        lemma_override_paths_membership(r0, p);
        assert(forall|i: int| 0 <= i < r0.len() ==> #[trigger] r0[i] == roots[i]);
        if override_paths(roots).contains(p) {
            if override_paths(r0).contains(p) {
                let i = choose|i: int|
                    0 <= i < r0.len() && paths_under(
                        root_table(#[trigger] r0[i]),
                        r0[i].rel,
                    ).to_set().contains(p);
                assert(paths_under(root_table(roots[i]), roots[i].rel).to_set().contains(p));
            } else {
                assert(paths_under(
                    root_table(roots[roots.len() - 1]),
                    roots[roots.len() - 1].rel,
                ).to_set().contains(p));
            }
        }
        if exists|i: int|
            0 <= i < roots.len() && paths_under(
                root_table(#[trigger] roots[i]),
                roots[i].rel,
            ).to_set().contains(p) {
            let i = choose|i: int|
                0 <= i < roots.len() && paths_under(
                    root_table(#[trigger] roots[i]),
                    roots[i].rel,
                ).to_set().contains(p);
            if i < roots.len() - 1 {
                assert(paths_under(root_table(r0[i]), r0[i].rel).to_set().contains(p));
            }
        }
    }
}

/// Two finite sets whose union is as large as their sizes added share no
/// element.
proof fn lemma_union_len_eq_disjoint<A>(s1: Set<A>, s2: Set<A>)
    requires
        s1.finite(),
        s2.finite(),
        (s1 + s2).len() == s1.len() + s2.len(),
    ensures
        s1.disjoint(s2),
{
    if !s1.disjoint(s2) {
        let x = choose|x: A| s1.contains(x) && s2.contains(x);
        assert(s1 + s2 =~= s1 + s2.remove(x));
        vstd::set_lib::lemma_len_union(s1, s2.remove(x));
        assert(s2.remove(x).len() == s2.len() - 1);
    }
}

/// Walk versus override-walk cardinality: an override walk yields no more
/// files than a plain walk, and exactly as many precisely when no relative
/// path is defined by two different roots.
pub proof fn lemma_walk_override_cardinality(roots: Seq<DirView>)
    requires
        all_wf(roots),
    ensures
        override_paths(roots).finite(),
        override_paths(roots).len() <= walk_total(roots),
        (override_paths(roots).len() == walk_total(roots)) <==> no_cross_duplicates(roots),
    decreases roots.len(),
{
    broadcast use vstd::seq_lib::seq_to_set_is_finite;

    if roots.len() == 0 {
        assert(override_paths(roots).len() == 0);
    } else {
        let r0 = roots.drop_last();
        let last = roots.last();
        assert(all_wf(r0)) by {
            assert(forall|i: int| 0 <= i < r0.len() ==> #[trigger] r0[i] == roots[i]);
        }
        lemma_walk_override_cardinality(r0);
        let s = override_paths(r0);
        let tseq = paths_under(root_table(last), last.rel);
        let t = tseq.to_set();
        lemma_paths_under(root_table(last), last.rel);
        assert(last.wf()) by {
            assert(roots[roots.len() - 1].wf());
        }
        assert(table_wf(root_table(last)));
        tseq.unique_seq_to_set();
        assert(t.len() == tseq.len());
        vstd::set_lib::lemma_len_union(s, t);
        assert(override_paths(roots).len() <= walk_total(roots));
        assert(forall|i: int| 0 <= i < r0.len() ==> #[trigger] r0[i] == roots[i]);
        if no_cross_duplicates(roots) {
            assert(no_cross_duplicates(r0));
            assert(s.disjoint(t)) by {
                if !s.disjoint(t) {
                    let p = choose|p: Seq<char>| s.contains(p) && t.contains(p);
                    lemma_override_paths_membership(r0, p);
                    let i = choose|i: int|
                        0 <= i < r0.len() && paths_under(
                            root_table(#[trigger] r0[i]),
                            r0[i].rel,
                        ).to_set().contains(p);
                    assert(paths_under(
                        root_table(roots[i]),
                        roots[i].rel,
                    ).to_set().disjoint(t));
                }
            }
            vstd::set_lib::lemma_set_disjoint_lens(s, t);
            assert(override_paths(roots).len() == walk_total(roots));
        }
        if override_paths(roots).len() == walk_total(roots) {
            assert(s.len() == walk_total(r0) && (s + t).len() == s.len() + t.len());
            lemma_union_len_eq_disjoint(s, t);
            assert(no_cross_duplicates(r0));
            assert forall|i: int, j: int| 0 <= i < j < roots.len() implies paths_under(
                root_table(#[trigger] roots[i]),
                roots[i].rel,
            ).to_set().disjoint(
                paths_under(root_table(#[trigger] roots[j]), roots[j].rel).to_set(),
            ) by {
                if j == roots.len() - 1 {
                    let ti = paths_under(root_table(roots[i]), roots[i].rel).to_set();
                    assert forall|p: Seq<char>| ti.contains(p) implies !t.contains(p) by {
                        lemma_override_paths_membership(r0, p);
                        assert(paths_under(
                            root_table(r0[i]),
                            r0[i].rel,
                        ).to_set().contains(p));
                        assert(s.contains(p));
                    }
                } else {
                    assert(paths_under(
                        root_table(r0[i]),
                        r0[i].rel,
                    ).to_set().disjoint(paths_under(root_table(r0[j]), r0[j].rel).to_set()));
                }
            }
        }
    }
}

} // verus!
