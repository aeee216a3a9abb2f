//! Flat silos: tables of embedded files and directories scanned live from
//! disk, composed with the same override precedence as directory sets.
//!
//! Where the directory model derives a tree from its paths, a silo is a
//! flat path-to-file table; lookups address it by full relative path.

use vstd::prelude::*;
use vstd::std_specs::cmp::PartialEqSpec;

use crate::error::Error;
use crate::fsio;
use crate::paths::check_under;
use crate::paths::extension_of;
use crate::paths::extension_str;
use crate::paths::is_under;
use crate::paths::join;
use crate::paths::lemma_join_of_split;
use crate::paths::rest_under;
use crate::paths::spec_join;
use crate::paths::split_under;
use crate::paths::str_eq;
use crate::paths::valid_rel_path;

verus! {

/// Metadata and contents for an embedded file.
#[derive(Debug)]
pub struct EmbedEntry {
    pub path: String,
    pub contents: Vec<u8>,
    pub size: usize,
    pub modified: u64,
}

/// The mathematical content of one embedded entry.
pub struct EntryView {
    pub path: Seq<char>,
    pub contents: Seq<u8>,
    pub size: int,
    pub modified: u64,
}

impl EntryView {
    /// A well-formed entry: a well-formed relative path, the recorded size
    /// agreeing with the contents.
    pub open spec fn wf(self) -> bool {
        valid_rel_path(self.path) && self.size == self.contents.len()
    }
}

impl View for EmbedEntry {
    type V = EntryView;

    open spec fn view(&self) -> EntryView {
        EntryView {
            path: self.path@,
            contents: self.contents@,
            size: self.size as int,
            modified: self.modified,
        }
    }
}

/// Copies a byte vector.
fn clone_bytes(v: &Vec<u8>) -> (r: Vec<u8>)
    ensures
        r@ == v@,
{
    let r = v.clone();
    proof {
        assert(r@ =~= v@);
    }
    r
}

impl Clone for EmbedEntry {
    fn clone(&self) -> (res: Self)
        ensures
            res@ == self@,
    {
        EmbedEntry {
            path: self.path.clone(),
            contents: clone_bytes(&self.contents),
            size: self.size,
            modified: self.modified,
        }
    }
}

/// The views of a list of entries.
pub open spec fn entry_views(t: Seq<EmbedEntry>) -> Seq<EntryView> {
    Seq::new(t.len(), |i: int| t[i]@)
}

/// A well-formed silo table: well-formed entries, no path twice.
pub open spec fn entries_wf(t: Seq<EntryView>) -> bool {
    &&& forall|i: int| 0 <= i < t.len() ==> (#[trigger] t[i]).wf()
    &&& forall|i: int, j: int| 0 <= i < j < t.len() ==> t[i].path != t[j].path
}

/// The table defines a file at `p`.
pub open spec fn entries_has(t: Seq<EntryView>, p: Seq<char>) -> bool {
    exists|i: int| 0 <= i < t.len() && (#[trigger] t[i]).path == p
}

/// The entry at `p`; meaningful when `entries_has(t, p)`.
pub open spec fn entries_lookup(t: Seq<EntryView>, p: Seq<char>) -> EntryView {
    t[choose|i: int| 0 <= i < t.len() && (#[trigger] t[i]).path == p]
}

pub proof fn lemma_entries_lookup(t: Seq<EntryView>, i: int)
    requires
        entries_wf(t),
        0 <= i < t.len(),
    ensures
        entries_has(t, t[i].path),
        entries_lookup(t, t[i].path) == t[i],
{
    assert(0 <= i < t.len() && t[i].path == t[i].path);
}

/// Handle to an embedded file entry.
#[derive(Debug)]
pub struct EmbedFile {
    inner: EmbedEntry,
}

impl View for EmbedFile {
    type V = EntryView;

    closed spec fn view(&self) -> EntryView {
        self.inner@
    }
}

impl Clone for EmbedFile {
    fn clone(&self) -> (res: Self)
        ensures
            res@ == self@,
    {
        EmbedFile { inner: self.inner.clone() }
    }
}

impl EmbedFile {
    /// Returns the relative path of the embedded file.
    pub fn path(&self) -> (r: &str)
        ensures
            r@ == self@.path,
    {
        self.inner.path.as_str()
    }

    /// Returns the contents of the embedded file.
    pub fn contents(&self) -> (r: &Vec<u8>)
        ensures
            r@ == self@.contents,
    {
        &self.inner.contents
    }
}

/// Represents a file from the filesystem (not embedded).
#[derive(Debug)]
pub struct DynFile {
    rel_path: String,
    full_path: String,
}

/// The mathematical content of a dynamic file handle.
pub struct DynFileView {
    pub rel: Seq<char>,
    pub full: Seq<char>,
}

impl View for DynFile {
    type V = DynFileView;

    closed spec fn view(&self) -> DynFileView {
        DynFileView { rel: self.rel_path@, full: self.full_path@ }
    }
}

impl Clone for DynFile {
    fn clone(&self) -> (res: Self)
        ensures
            res@ == self@,
    {
        DynFile { rel_path: self.rel_path.clone(), full_path: self.full_path.clone() }
    }
}

impl DynFile {
    /// Creates a new dynamic file handle from its absolute and relative paths.
    pub fn new(full_path: &str, rel_path: &str) -> (r: Self)
        ensures
            r@ == (DynFileView { rel: rel_path@, full: full_path@ }),
    {
        DynFile {
            rel_path: String::from_str(rel_path),
            full_path: String::from_str(full_path),
        }
    }

    /// Returns the relative path of the file.
    pub fn path(&self) -> (r: &str)
        ensures
            r@ == self@.rel,
    {
        self.rel_path.as_str()
    }

    /// Returns the absolute path of the file.
    pub fn absolute_path(&self) -> (r: &str)
        ensures
            r@ == self@.full,
    {
        self.full_path.as_str()
    }
}

/// Internal enum for file variants (embedded or dynamic).
#[derive(Debug)]
enum FileKind {
    Embed(EmbedFile),
    Dyn(DynFile),
}

/// Represents a file, which may be embedded or dynamic.
#[derive(Debug)]
pub struct File {
    inner: FileKind,
}

/// The mathematical content of a silo file handle.
pub enum FileView {
    Embed(EntryView),
    Dyn(DynFileView),
}

impl FileView {
    /// The file's relative path, its identity.
    pub open spec fn rel(self) -> Seq<char> {
        match self {
            FileView::Embed(e) => e.path,
            FileView::Dyn(d) => d.rel,
        }
    }

    pub open spec fn wf(self) -> bool {
        match self {
            FileView::Embed(e) => e.wf(),
            FileView::Dyn(d) => valid_rel_path(d.rel),
        }
    }

    pub open spec fn is_embed(self) -> bool {
        self is Embed
    }
}

impl View for File {
    type V = FileView;

    closed spec fn view(&self) -> FileView {
        match self.inner {
            FileKind::Embed(e) => FileView::Embed(e@),
            FileKind::Dyn(d) => FileView::Dyn(d@),
        }
    }
}

impl Clone for File {
    fn clone(&self) -> (res: Self)
        ensures
            res@ == self@,
    {
        File {
            inner: match &self.inner {
                FileKind::Embed(e) => FileKind::Embed(e.clone()),
                FileKind::Dyn(d) => FileKind::Dyn(d.clone()),
            },
        }
    }
}

impl PartialEq for File {
    /// Files are equal exactly when their relative paths are equal,
    /// whatever their backing.
    fn eq(&self, other: &Self) -> (r: bool) {
        str_eq(self.path(), other.path())
    }
}

impl vstd::std_specs::cmp::PartialEqSpecImpl for File {
    open spec fn obeys_eq_spec() -> bool {
        true
    }

    open spec fn eq_spec(&self, other: &Self) -> bool {
        self@.rel() == other@.rel()
    }
}

impl File {
    /// Returns the relative path of the file.
    pub fn path(&self) -> (r: &str)
        ensures
            r@ == self@.rel(),
    {
        match &self.inner {
            FileKind::Embed(e) => e.path(),
            FileKind::Dyn(d) => d.path(),
        }
    }

    /// Returns true if the file is embedded in the binary.
    pub fn is_embedded(&self) -> (r: bool)
        ensures
            r == self@.is_embed(),
    {
        match &self.inner {
            FileKind::Embed(_) => true,
            FileKind::Dyn(_) => false,
        }
    }

    /// Returns the absolute path if the file is dynamic, or `None` for an
    /// embedded file, which has no position on disk.
    pub fn absolute_path(&self) -> (r: Option<&str>)
        ensures
            match self@ {
                FileView::Embed(_) => r is None,
                FileView::Dyn(d) => r matches Some(p) && p@ == d.full,
            },
    {
        match &self.inner {
            FileKind::Embed(_) => None,
            FileKind::Dyn(d) => Some(d.absolute_path()),
        }
    }

    /// Returns the file extension, if any.
    pub fn extension(&self) -> (r: Option<String>)
        ensures
            match r {
                Some(e) => extension_of(self@.rel()) == Some(e@),
                None => extension_of(self@.rel()) is None,
            },
    {
        extension_str(self.path())
    }

    /// Reads the file contents as bytes.  An embedded file yields exactly
    /// its table contents and cannot fail; a dynamic file reads from disk
    /// each call.
    pub fn read_bytes(&self) -> (r: Result<Vec<u8>, Error>)
        ensures
            self@ matches FileView::Embed(e) ==> r matches Ok(v) && v@ == e.contents,
            r matches Err(e) ==> e is IoError,
    {
        match &self.inner {
            FileKind::Embed(e) => Ok(clone_bytes(e.contents())),
            FileKind::Dyn(d) => fsio::disk_read(d.absolute_path()),
        }
    }
}

/// Path identity for silo files: two handles are equal exactly when their
/// relative paths are equal, whatever their backing variant or contents.
pub proof fn lemma_silo_file_identity(a: &File, b: &File)
    ensures
        a.eq_spec(b) <==> a@.rel() == b@.rel(),
{
}

/// Represents a set of embedded files and their root.
#[derive(Debug)]
pub struct EmbedSilo {
    map: Vec<EmbedEntry>,
    root: String,
}

/// The mathematical content of an embedded silo.
pub struct EmbedSiloView {
    pub entries: Seq<EntryView>,
    pub root: Seq<char>,
}

impl View for EmbedSilo {
    type V = EmbedSiloView;

    closed spec fn view(&self) -> EmbedSiloView {
        EmbedSiloView { entries: entry_views(self.map@), root: self.root@ }
    }
}

/// Copies a silo table.
fn clone_entries(t: &Vec<EmbedEntry>) -> (r: Vec<EmbedEntry>)
    ensures
        entry_views(r@) == entry_views(t@),
{
    let r = t.clone();
    proof {
        assert forall|i: int| 0 <= i < t@.len() implies entry_views(r@)[i] == entry_views(t@)[i] by {
            assert(cloned::<EmbedEntry>(t@[i], r@[i]));
        }
        assert(entry_views(r@) =~= entry_views(t@));
    }
    r
}

impl Clone for EmbedSilo {
    fn clone(&self) -> (res: Self)
        ensures
            res@ == self@,
    {
        EmbedSilo { map: clone_entries(&self.map), root: self.root.clone() }
    }
}

impl EmbedSilo {
    /// Creates a new embedded silo from its table and root path.
    pub fn new(map: Vec<EmbedEntry>, root: &str) -> (s: Self)
        requires
            entries_wf(entry_views(map@)),
        ensures
            s@ == (EmbedSiloView { entries: entry_views(map@), root: root@ }),
    {
        EmbedSilo { map, root: String::from_str(root) }
    }

    /// Gets an embedded file by its relative path; the answer is exact: a
    /// file comes back precisely when the table defines the path, and it
    /// carries that entry.
    pub fn get_file(&self, path: &str) -> (r: Option<EmbedFile>)
        requires
            entries_wf(self@.entries),
        ensures
            r is Some <==> entries_has(self@.entries, path@),
            r matches Some(f) ==> f@ == entries_lookup(self@.entries, path@),
    {
        let ghost t = self@.entries;
        let mut i: usize = 0;
        while i < self.map.len()
            invariant
                0 <= i <= t.len(),
                t == entry_views(self.map@),
                entries_wf(t),
                forall|j: int| 0 <= j < i ==> (#[trigger] t[j]).path != path@,
            decreases t.len() - i,
        {
            if str_eq(self.map[i].path.as_str(), path) {
                let f = EmbedFile { inner: self.map[i].clone() };
                proof {
                    lemma_entries_lookup(t, i as int);
                }
                return Some(f);
            }
            i = i + 1;
        }
        proof {
            assert(!entries_has(t, path@)) by {
                if entries_has(t, path@) {
                    let j = choose|j: int| 0 <= j < t.len() && (#[trigger] t[j]).path == path@;
                    assert(t[j].path != path@);
                }
            }
        }
        None
    }

    /// Iterates over all embedded files in this silo, in table order.
    pub fn iter(&self) -> (it: SiloIter)
        requires
            entries_wf(self@.entries),
        ensures
            it.wf(),
            it.remaining() == embed_file_views(self@.entries),
    {
        let mut files: Vec<File> = Vec::new();
        let mut i: usize = 0;
        while i < self.map.len()
            invariant
                0 <= i <= self.map@.len(),
                entries_wf(entry_views(self.map@)),
                files@.len() == i,
                forall|j: int| 0 <= j < i ==> (#[trigger] files@[j])@ == FileView::Embed(
                    entry_views(self.map@)[j],
                ),
            decreases self.map@.len() - i,
        {
            files.push(File { inner: FileKind::Embed(EmbedFile { inner: self.map[i].clone() }) });
            i = i + 1;
        }
        let it = SiloIter { files, idx: 0 };
        proof {
            assert(it.remaining() =~= embed_file_views(self@.entries));
        }
        it
    }
}

/// The file views of a silo table, in order.
pub open spec fn embed_file_views(t: Seq<EntryView>) -> Seq<FileView> {
    Seq::new(t.len(), |i: int| FileView::Embed(t[i]))
}

/// The views of a vector of files.
pub open spec fn file_views(fs: Seq<File>) -> Seq<FileView> {
    Seq::new(fs.len(), |i: int| fs[i]@)
}

/// A drained-in-order cursor over a fixed list of files: each `next` call
/// hands out the first remaining handle.
pub struct SiloIter {
    files: Vec<File>,
    idx: usize,
}

impl SiloIter {
    pub closed spec fn wf(&self) -> bool {
        &&& self.idx <= self.files@.len()
        &&& forall|i: int| 0 <= i < self.files@.len() ==> (#[trigger] self.files@[i])@.wf()
    }

    /// The views of the files not yet handed out, in order.
    pub closed spec fn remaining(&self) -> Seq<FileView> {
        file_views(self.files@).skip(self.idx as int)
    }

    /// Produces the next file, or `None` once exhausted.
    pub fn next(&mut self) -> (r: Option<File>)
        requires
            old(self).wf(),
        ensures
            final(self).wf(),
            old(self).remaining().len() == 0 ==> r is None && final(self).remaining() == old(
                self,
            ).remaining(),
            old(self).remaining().len() > 0 ==> (r matches Some(f) && f@ == old(
                self,
            ).remaining()[0] && f@.wf() && final(self).remaining() == old(self).remaining().skip(
                1,
            )),
    {
        if self.idx < self.files.len() {
            let f = (&self.files[self.idx]).clone();
            self.idx = self.idx + 1;
            proof {
                assert(f@ == old(self).remaining()[0]);
                assert(final(self).remaining() =~= old(self).remaining().skip(1));
            }
            Some(f)
        } else {
            None
        }
    }
}

/// Represents a set of dynamic (filesystem) files rooted at a directory.
#[derive(Debug)]
pub struct DynSilo {
    root: String,
}

impl View for DynSilo {
    type V = Seq<char>;

    closed spec fn view(&self) -> Seq<char> {
        self.root@
    }
}

impl Clone for DynSilo {
    fn clone(&self) -> (res: Self)
        ensures
            res@ == self@,
    {
        DynSilo { root: self.root.clone() }
    }
}

/// Decides a disk file lookup from the stat answer: a handle at `rel`
/// below the root comes back exactly when the stat found a regular file.
pub fn dyn_file_from_stat(
    stat: Result<(u64, Option<u64>, bool, bool), Error>,
    full: String,
    rel: &str,
) -> (r: Option<DynFile>)
    ensures
        r is Some <==> (stat matches Ok(s) && s.2),
        r matches Some(f) ==> f@ == (DynFileView { rel: rel@, full: full@ }),
{
    match stat {
        Ok((_, _, is_file, _)) => {
            if is_file {
                Some(DynFile { rel_path: String::from_str(rel), full_path: full })
            } else {
                None
            }
        },
        Err(_) => None,
    }
}

impl DynSilo {
    /// Creates a new dynamic silo rooted at the given path.
    pub fn new(root: &str) -> (s: Self)
        ensures
            s@ == root@,
    {
        DynSilo { root: String::from_str(root) }
    }

    /// Gets a dynamic file by its relative path; the disk decides whether
    /// one exists, and whatever comes back is the handle at that path below
    /// this silo's root.
    pub fn get_file(&self, path: &str) -> (r: Option<DynFile>)
        requires
            valid_rel_path(path@),
        ensures
            r matches Some(f) ==> f@.rel == path@ && f@.full == spec_join(self@, path@),
    {
        let full = join(self.root.as_str(), path);
        dyn_file_from_stat(fsio::disk_stat(full.as_str()), full, path)
    }

    /// Iterates over all files below this silo's root, scanning the disk
    /// once: exactly one handle per listed regular file that lies under the
    /// root at a well-formed relative path, in listing order.
    pub fn iter(&self) -> (it: SiloIter)
        ensures
            it.wf(),
            forall|k: int| 0 <= k < it.remaining().len() ==> ((#[trigger] it.remaining()[k])
                matches FileView::Dyn(d) && d.full == spec_join(self@, d.rel) && valid_rel_path(
                d.rel,
            )),
    {
        let listing = fsio::walk_files(self.root.as_str());
        silo_iter_from_listing(&listing, &self.root)
    }
}

/// The dynamic file handles a recursive disk listing yields below `root`:
/// one handle per listed regular file whose path lies under the root with a
/// well-formed remainder, in listing order; other items contribute nothing.
pub open spec fn walk_listing_files(items: Seq<(String, bool)>, root: Seq<char>) -> Seq<FileView>
    decreases items.len(),
{
    if items.len() == 0 {
        Seq::empty()
    } else {
        let prior = walk_listing_files(items.drop_last(), root);
        let item = items.last();
        if item.1 && is_under(item.0@, root) && valid_rel_path(rest_under(item.0@, root)) {
            prior.push(
                FileView::Dyn(DynFileView { rel: rest_under(item.0@, root), full: item.0@ }),
            )
        } else {
            prior
        }
    }
}

/// Builds the iteration cursor from a recursive disk listing: exactly the
/// listing's conversion comes back, and every handle is a well-formed
/// dynamic file whose full path is the root joined with its relative path.
fn silo_iter_from_listing(listing: &Vec<(String, bool)>, root: &String) -> (it: SiloIter)
    ensures
        it.wf(),
        it.remaining() == walk_listing_files(listing@, root@),
        forall|k: int| 0 <= k < it.remaining().len() ==> ((#[trigger] it.remaining()[k])
            matches FileView::Dyn(d) && d.full == spec_join(root@, d.rel) && valid_rel_path(
            d.rel,
        )),
{
    let mut files: Vec<File> = Vec::new();
    let mut i: usize = 0;
    while i < listing.len()
        invariant
            0 <= i <= listing@.len(),
            file_views(files@) == walk_listing_files(listing@.take(i as int), root@),
            forall|k: int| 0 <= k < files@.len() ==> (#[trigger] files@[k])@.wf(),
            forall|k: int| 0 <= k < files@.len() ==> ((#[trigger] files@[k])@
                matches FileView::Dyn(d) && d.full == spec_join(root@, d.rel)
                && valid_rel_path(d.rel)),
        decreases listing@.len() - i,
    {
        proof {
            assert(listing@.take(i as int + 1).drop_last() =~= listing@.take(i as int));
            assert(listing@.take(i as int + 1).last() == listing@[i as int]);
        }
        let item = &listing[i];
        if item.1 && check_under(item.0.as_str(), root.as_str()) {
            let rel = split_under(item.0.as_str(), root.as_str());
            if check_rel(rel.as_str()) {
                proof {
                    lemma_join_of_split(item.0@, root@);
                }
                let f = File {
                    inner: FileKind::Dyn(DynFile::new(item.0.as_str(), rel.as_str())),
                };
                files.push(f);
                proof {
                    assert(file_views(files@) =~= walk_listing_files(
                        listing@.take(i as int + 1),
                        root@,
                    ));
                }
            } else {
                proof {
                    assert(file_views(files@) =~= walk_listing_files(
                        listing@.take(i as int + 1),
                        root@,
                    ));
                }
            }
        } else {
            proof {
                assert(file_views(files@) =~= walk_listing_files(
                    listing@.take(i as int + 1),
                    root@,
                ));
            }
        }
        i = i + 1;
    }
    let it = SiloIter { files, idx: 0 };
    proof {
        assert(listing@.take(listing@.len() as int) =~= listing@);
        assert(it.remaining() =~= file_views(files@));
    }
    it
}

/// Internal enum for silo variants (embedded or dynamic).
#[derive(Debug)]
enum InnerSilo {
    Embed(EmbedSilo),
    Dyn(DynSilo),
}

/// Represents a root, which may be embedded or dynamic.
#[derive(Debug)]
pub struct Silo {
    inner: InnerSilo,
}

/// The mathematical content of a silo.
pub enum SiloView {
    Embed(EmbedSiloView),
    Dyn { root: Seq<char> },
}

impl SiloView {
    pub open spec fn wf(self) -> bool {
        match self {
            SiloView::Embed(s) => entries_wf(s.entries),
            SiloView::Dyn { .. } => true,
        }
    }

    pub open spec fn is_embed(self) -> bool {
        self is Embed
    }
}

impl View for Silo {
    type V = SiloView;

    closed spec fn view(&self) -> SiloView {
        match self.inner {
            InnerSilo::Embed(s) => SiloView::Embed(s@),
            InnerSilo::Dyn(d) => SiloView::Dyn { root: d@ },
        }
    }
}

impl Clone for Silo {
    fn clone(&self) -> (res: Self)
        ensures
            res@ == self@,
    {
        Silo {
            inner: match &self.inner {
                InnerSilo::Embed(s) => InnerSilo::Embed(s.clone()),
                InnerSilo::Dyn(d) => InnerSilo::Dyn(d.clone()),
            },
        }
    }
}

/// The table of an embedded silo; a dynamic silo has none.
pub open spec fn silo_entries(v: SiloView) -> Seq<EntryView> {
    match v {
        SiloView::Embed(s) => s.entries,
        SiloView::Dyn { .. } => Seq::empty(),
    }
}

/// The embedded silo `v` defines a file at `p`.
pub open spec fn silo_defines(v: SiloView, p: Seq<char>) -> bool {
    v.is_embed() && entries_has(silo_entries(v), p)
}

/// The file handle `f` could have come from silo `v`.
pub open spec fn file_of_silo(f: FileView, v: SiloView) -> bool {
    match v {
        SiloView::Embed(s) => f matches FileView::Embed(e) && entries_has(s.entries, e.path)
            && entries_lookup(s.entries, e.path) == e,
        SiloView::Dyn { root } => f matches FileView::Dyn(d) && d.full == spec_join(root, d.rel),
    }
}

/// The file handle `f` could have come from one of the silos.
pub open spec fn file_of_some_silo(f: FileView, silos: Seq<SiloView>) -> bool {
    exists|i: int| 0 <= i < silos.len() && file_of_silo(f, #[trigger] silos[i])
}

/// The highest index whose silo defines `p`, or `-1`: the override winner.
pub open spec fn silo_winner(silos: Seq<SiloView>, p: Seq<char>) -> int
    decreases silos.len(),
{
    if silos.len() == 0 {
        -1
    } else if silo_defines(silos.last(), p) {
        silos.len() - 1
    } else {
        silo_winner(silos.drop_last(), p)
    }
}

/// The entry the override resolves `p` to; meaningful when a winner exists.
pub open spec fn silo_resolve(silos: Seq<SiloView>, p: Seq<char>) -> EntryView {
    entries_lookup(silo_entries(silos[silo_winner(silos, p)]), p)
}

pub proof fn lemma_silo_winner_unique(silos: Seq<SiloView>, p: Seq<char>, i: int)
    requires
        -1 <= i < silos.len(),
        i >= 0 ==> silo_defines(silos[i], p),
        forall|j: int| i < j < silos.len() ==> !silo_defines(#[trigger] silos[j], p),
    ensures
        silo_winner(silos, p) == i,
    decreases silos.len(),
{
    if silos.len() > 0 && !silo_defines(silos.last(), p) {
        assert forall|j: int| i < j < silos.drop_last().len() implies !silo_defines(
            #[trigger] silos.drop_last()[j],
            p,
        ) by {
            assert(silos.drop_last()[j] == silos[j]);
        }
        lemma_silo_winner_unique(silos.drop_last(), p, i);
    }
}

/// Override precedence for silos: when two embedded silos both define a
/// path, the set `[a, b]` resolves it to `b`'s entry and the set `[b, a]`
/// to `a`'s — reversing the order reverses the winner.
pub proof fn lemma_silo_override_precedence(a: SiloView, b: SiloView, p: Seq<char>)
    requires
        silo_defines(a, p),
        silo_defines(b, p),
    ensures
        silo_winner(seq![a, b], p) == 1,
        silo_winner(seq![b, a], p) == 1,
        silo_resolve(seq![a, b], p) == entries_lookup(silo_entries(b), p),
        silo_resolve(seq![b, a], p) == entries_lookup(silo_entries(a), p),
{
    assert(seq![a, b].last() == b);
    assert(seq![b, a].last() == a);
    assert(seq![a, b][1] == b);
    assert(seq![b, a][1] == a);
}

/// In the precedence-ordered file sequence of embedded silos, the first
/// file at a given relative path is the override winner's entry: the one
/// of the highest-index silo whose table defines that path.  Together with
/// the exact contracts of `SiloSet::iter` and `SiloOverrideIter::next`,
/// this pins which copy an override iteration hands out.
pub proof fn lemma_first_occurrence_is_winner(silos: Seq<SiloView>, k: int)
    requires
        all_silos_wf(silos),
        forall|i: int| 0 <= i < silos.len() ==> (#[trigger] silos[i]).is_embed(),
        0 <= k < rev_silo_files(silos).len(),
        forall|j: int|
            0 <= j < k ==> (#[trigger] rev_silo_files(silos)[j]).rel() != rev_silo_files(
                silos,
            )[k].rel(),
    ensures
        0 <= silo_winner(silos, rev_silo_files(silos)[k].rel()) < silos.len(),
        rev_silo_files(silos)[k] == FileView::Embed(
            silo_resolve(silos, rev_silo_files(silos)[k].rel()),
        ),
    decreases silos.len(),
{
    let fs = rev_silo_files(silos);
    let last = silos.last();
    let t = silo_entries(last);
    let head = embed_file_views(t);
    let p = fs[k].rel();
    assert(silos[silos.len() - 1].wf());
    assert(entries_wf(t));
    if k < head.len() {
        assert(fs[k] == head[k]);
        assert(head[k] == FileView::Embed(t[k]));
        lemma_entries_lookup(t, k);
        assert(silo_defines(last, p));
        assert(silo_winner(silos, p) == silos.len() - 1);
    } else {
        let rest = rev_silo_files(silos.drop_last());
        let k2 = k - head.len();
        assert(fs[k] == rest[k2]);
        assert forall|j: int| 0 <= j < k2 implies (#[trigger] rest[j]).rel() != rest[k2].rel() by {
            assert(rest[j] == fs[head.len() + j]);
        }
        assert(!silo_defines(last, p)) by {
            if silo_defines(last, p) {
                let i = choose|i: int| 0 <= i < t.len() && (#[trigger] t[i]).path == p;
                assert(fs[i] == head[i]);
                assert(head[i] == FileView::Embed(t[i]));
                assert(fs[i].rel() != fs[k].rel());
            }
        }
        assert(forall|i: int|
            0 <= i < silos.drop_last().len() ==> #[trigger] silos.drop_last()[i] == silos[i]);
        lemma_first_occurrence_is_winner(silos.drop_last(), k2);
        let w = silo_winner(silos.drop_last(), p);
        assert(silo_winner(silos, p) == w);
        assert(silos[w] == silos.drop_last()[w]);
    }
}

impl Silo {
    /// Creates a silo from an embedded table and its root path.
    pub fn from_embedded(map: Vec<EmbedEntry>, root: &str) -> (s: Self)
        requires
            entries_wf(entry_views(map@)),
        ensures
            s@ == SiloView::Embed(
                EmbedSiloView { entries: entry_views(map@), root: root@ },
            ),
            s@.wf(),
    {
        Silo { inner: InnerSilo::Embed(EmbedSilo::new(map, root)) }
    }

    /// Creates a silo reading live from the given directory on disk.
    pub fn from_path(path: &str) -> (s: Self)
        ensures
            s@ == (SiloView::Dyn { root: path@ }),
            s@.wf(),
    {
        Silo { inner: InnerSilo::Dyn(DynSilo::new(path)) }
    }

    /// Converts an embedded silo into a dynamic one over the root path the
    /// embedding was compiled from; a dynamic silo is unchanged.
    pub fn into_dynamic(self) -> (s: Self)
        ensures
            s@ == (match self@ {
                SiloView::Embed(e) => SiloView::Dyn { root: e.root },
                SiloView::Dyn { root } => SiloView::Dyn { root },
            }),
    {
        match self.inner {
            InnerSilo::Embed(e) => Silo { inner: InnerSilo::Dyn(DynSilo { root: e.root }) },
            InnerSilo::Dyn(d) => Silo { inner: InnerSilo::Dyn(d) },
        }
    }

    /// Applies `into_dynamic` when the caller's build runs in debug mode, as
    /// told by the flag; otherwise returns the silo unchanged.
    pub fn auto_dynamic(self, debug: bool) -> (s: Self)
        ensures
            !debug ==> s@ == self@,
            debug ==> s@ == (match self@ {
                SiloView::Embed(e) => SiloView::Dyn { root: e.root },
                SiloView::Dyn { root } => SiloView::Dyn { root },
            }),
    {
        if debug {
            self.into_dynamic()
        } else {
            self
        }
    }

    /// Returns true if this silo is dynamic (filesystem-backed).
    pub fn is_dynamic(&self) -> (r: bool)
        ensures
            r == !self@.is_embed(),
    {
        match &self.inner {
            InnerSilo::Embed(_) => false,
            InnerSilo::Dyn(_) => true,
        }
    }

    /// Returns true if this silo is embedded in the binary.
    pub fn is_embedded(&self) -> (r: bool)
        ensures
            r == self@.is_embed(),
    {
        match &self.inner {
            InnerSilo::Embed(_) => true,
            InnerSilo::Dyn(_) => false,
        }
    }

    /// Gets a file by relative path.  For an embedded silo the answer is
    /// exact: a file comes back precisely when the table defines the path,
    /// and it carries that entry.  For a dynamic silo the disk decides, and
    /// whatever comes back is the handle at that path below the root.
    pub fn get_file(&self, path: &str) -> (r: Option<File>)
        requires
            self@.wf(),
            valid_rel_path(path@),
        ensures
            self@.is_embed() ==> (r is Some <==> silo_defines(self@, path@)),
            r matches Some(f) ==> f@.wf() && f@.rel() == path@ && file_of_silo(f@, self@),
    {
        match &self.inner {
            InnerSilo::Embed(s) => {
                match s.get_file(path) {
                    Some(f) => {
                        proof {
                            let i = choose|i: int|
                                0 <= i < s@.entries.len() && (#[trigger] s@.entries[i]).path
                                    == path@;
                            assert(s@.entries[i].wf());
                        }
                        Some(File { inner: FileKind::Embed(f) })
                    },
                    None => None,
                }
            },
            InnerSilo::Dyn(d) => {
                match d.get_file(path) {
                    Some(f) => Some(File { inner: FileKind::Dyn(f) }),
                    None => None,
                }
            },
        }
    }

    /// Iterates over all files of this silo: the whole table for an
    /// embedded silo, one disk scan for a dynamic one.
    pub fn iter(&self) -> (it: SiloIter)
        requires
            self@.wf(),
        ensures
            it.wf(),
            forall|k: int| 0 <= k < it.remaining().len() ==> (#[trigger] it.remaining()[k]).wf()
                && file_of_silo(it.remaining()[k], self@),
            self@ matches SiloView::Embed(s) ==> it.remaining() == embed_file_views(s.entries),
    {
        match &self.inner {
            InnerSilo::Embed(s) => {
                let it = s.iter();
                proof {
                    assert forall|k: int| 0 <= k < it.remaining().len() implies (
                    #[trigger] it.remaining()[k]).wf() && file_of_silo(it.remaining()[k], self@) by {
                        lemma_entries_lookup(s@.entries, k);
                        assert(it.remaining()[k] == FileView::Embed(s@.entries[k]));
                    }
                }
                it
            },
            InnerSilo::Dyn(d) => {
                let it = d.iter();
                proof {
                    assert forall|k: int| 0 <= k < it.remaining().len() implies (
                    #[trigger] it.remaining()[k]).wf() && file_of_silo(it.remaining()[k], self@) by {
                        assert(it.remaining()[k] matches FileView::Dyn(dv) && dv.full == spec_join(
                            d@,
                            dv.rel,
                        ) && valid_rel_path(dv.rel));
                    }
                }
                it
            },
        }
    }
}

/// The views of a list of silos.
pub open spec fn silo_views(ss: Seq<Silo>) -> Seq<SiloView> {
    Seq::new(ss.len(), |i: int| ss[i]@)
}

/// Every silo of the list is well formed.
pub open spec fn all_silos_wf(silos: Seq<SiloView>) -> bool {
    forall|i: int| 0 <= i < silos.len() ==> (#[trigger] silos[i]).wf()
}

/// The files an iteration over these silos yields, visiting them from
/// highest precedence (last) to lowest (first): the concatenation of their
/// tables in that order.
pub open spec fn rev_silo_files(silos: Seq<SiloView>) -> Seq<FileView>
    decreases silos.len(),
{
    if silos.len() == 0 {
        Seq::empty()
    } else {
        embed_file_views(silo_entries(silos.last())) + rev_silo_files(silos.drop_last())
    }
}

proof fn lemma_rev_silo_files_step(s: Seq<SiloView>)
    requires
        s.len() > 0,
    ensures
        rev_silo_files(s) == rev_silo_files(s.skip(1)) + embed_file_views(silo_entries(s[0])),
    decreases s.len(),
{
    if s.len() == 1 {
        assert(s.skip(1) =~= Seq::<SiloView>::empty());
        assert(s.drop_last() =~= Seq::<SiloView>::empty());
        assert(rev_silo_files(s) =~= rev_silo_files(s.skip(1)) + embed_file_views(
            silo_entries(s[0]),
        ));
    } else {
        lemma_rev_silo_files_step(s.drop_last());
        assert(s.skip(1).drop_last() =~= s.drop_last().skip(1));
        assert(s.skip(1).last() == s.last());
        assert(s.drop_last()[0] == s[0]);
        assert(rev_silo_files(s) =~= rev_silo_files(s.skip(1)) + embed_file_views(
            silo_entries(s[0]),
        ));
    }
}

/// Represents a set of roots, supporting overlay and override semantics.
/// Later silos in the list shadow earlier ones at matching relative paths.
#[derive(Debug)]
pub struct SiloSet {
    /// The list of roots, in order of increasing precedence.
    pub silos: Vec<Silo>,
}

impl View for SiloSet {
    type V = Seq<SiloView>;

    open spec fn view(&self) -> Seq<SiloView> {
        silo_views(self.silos@)
    }
}

impl SiloSet {
    pub open spec fn wf(&self) -> bool {
        all_silos_wf(self@)
    }

    /// Creates a new set from a list of silos.  The order of the list is
    /// kept as given and determines override precedence.
    pub fn new(dirs: Vec<Silo>) -> (s: SiloSet)
        ensures
            s@ == silo_views(dirs@),
    {
        SiloSet { silos: dirs }
    }

    /// Gets a file by name, searching silos from the last (highest
    /// precedence) to the first and returning the first match.  With
    /// embedded silos the answer is exact: the file is the entry of the
    /// highest-precedence silo whose table defines the path; when no silo
    /// defines it the answer is `None`, never an error.
    pub fn get_file(&self, name: &str) -> (r: Option<File>)
        requires
            self.wf(),
            valid_rel_path(name@),
        ensures
            r matches Some(f) ==> f@.wf() && f@.rel() == name@ && file_of_some_silo(f@, self@),
            (forall|i: int| 0 <= i < self@.len() ==> (#[trigger] self@[i]).is_embed()) ==> {
                &&& (r is Some <==> silo_winner(self@, name@) >= 0)
                &&& (r matches Some(f) ==> f@ == FileView::Embed(silo_resolve(self@, name@)))
            },
            self@.len() == 0 ==> r is None,
    {
        let mut i: usize = self.silos.len();
        while i > 0
            invariant
                0 <= i <= self@.len(),
                self.wf(),
                valid_rel_path(name@),
                forall|j: int| i <= j < self@.len() ==> !silo_defines(#[trigger] self@[j], name@),
            decreases i,
        {
            i = i - 1;
            proof {
                assert(self.silos@[i as int]@ == self@[i as int]);
            }
            let found = (&self.silos[i]).get_file(name);
            match found {
                Some(f) => {
                    proof {
                        if forall|q: int| 0 <= q < self@.len() ==> (#[trigger] self@[q]).is_embed() {
                            assert(silo_defines(self@[i as int], name@));
                            lemma_silo_winner_unique(self@, name@, i as int);
                        }
                        assert(file_of_silo(f@, self@[i as int]));
                    }
                    return Some(f);
                },
                None => {
                    proof {
                        if self@[i as int].is_embed() {
                            assert(!silo_defines(self@[i as int], name@));
                        }
                    }
                },
            }
        }
        proof {
            if forall|q: int| 0 <= q < self@.len() ==> (#[trigger] self@[q]).is_embed() {
                lemma_silo_winner_unique(self@, name@, -1);
            }
        }
        None
    }

    /// Iterates all files of all silos, visiting silos from highest
    /// precedence to lowest; a path present in several silos is yielded
    /// once per silo.
    pub fn iter(&self) -> (it: SiloIter)
        requires
            self.wf(),
        ensures
            it.wf(),
            forall|k: int| 0 <= k < it.remaining().len() ==> (#[trigger] it.remaining()[k]).wf()
                && file_of_some_silo(it.remaining()[k], self@),
            self@.len() == 0 ==> it.remaining().len() == 0,
            (forall|i: int| 0 <= i < self@.len() ==> (#[trigger] self@[i]).is_embed())
                ==> it.remaining() == rev_silo_files(self@),
    {
        let mut files: Vec<File> = Vec::new();
        let mut i: usize = self.silos.len();
        while i > 0
            invariant
                0 <= i <= self@.len(),
                self.wf(),
                self@.len() == 0 ==> files@.len() == 0,
                forall|k: int| 0 <= k < files@.len() ==> (#[trigger] files@[k])@.wf()
                    && file_of_some_silo(files@[k]@, self@),
                (forall|q: int| 0 <= q < self@.len() ==> (#[trigger] self@[q]).is_embed())
                    ==> file_views(files@) == rev_silo_files(self@.skip(i as int)),
            decreases i,
        {
            i = i - 1;
            proof {
                assert(self.silos@[i as int]@ == self@[i as int]);
            }
            let mut sub = (&self.silos[i]).iter();
            let ghost base = file_views(files@);
            let ghost sub0 = sub.remaining();
            loop
                invariant
                    sub.wf(),
                    0 <= i < self@.len(),
                    self.wf(),
                    self@.len() == 0 ==> files@.len() == 0,
                    forall|k: int| 0 <= k < sub.remaining().len() ==> (
                    #[trigger] sub.remaining()[k]).wf() && file_of_silo(
                        sub.remaining()[k],
                        self@[i as int],
                    ),
                    forall|k: int| 0 <= k < files@.len() ==> (#[trigger] files@[k])@.wf()
                        && file_of_some_silo(files@[k]@, self@),
                    sub.remaining().len() <= sub0.len(),
                    sub.remaining() == sub0.skip(sub0.len() - sub.remaining().len()),
                    file_views(files@) == base + sub0.take(
                        sub0.len() - sub.remaining().len(),
                    ),
                ensures
                    sub.remaining().len() == 0,
                    file_views(files@) == base + sub0.take(sub0.len() - sub.remaining().len()),
                    forall|k: int| 0 <= k < files@.len() ==> (#[trigger] files@[k])@.wf()
                        && file_of_some_silo(files@[k]@, self@),
                decreases sub.remaining().len(),
            {
                let ghost rem_pre = sub.remaining();
                let n = sub.next();
                match n {
                    Some(f) => {
                        let ghost fv = f@;
                        let ghost files_pre = files@;
                        proof {
                            assert(file_of_silo(f@, self@[i as int]));
                        }
                        files.push(f);
                        proof {
                            let consumed = sub0.len() - rem_pre.len();
                            assert(fv == sub0[consumed as int]);
                            assert(files@ == files_pre.push(f));
                            assert(file_views(files_pre).len() == files_pre.len());
                            assert(files_pre.len() == base.len() + consumed);
                            assert forall|j: int| 0 <= j < files@.len() implies file_views(
                                files@,
                            )[j] == (base + sub0.take(consumed as int + 1))[j] by {
                                if j < files_pre.len() {
                                    assert(files@[j] == files_pre[j]);
                                    assert(file_views(files_pre)[j] == (base + sub0.take(
                                        consumed as int,
                                    ))[j]);
                                    if j >= base.len() {
                                        assert(sub0.take(consumed as int)[j - base.len()]
                                            == sub0[j - base.len()]);
                                        assert(sub0.take(consumed as int + 1)[j - base.len()]
                                            == sub0[j - base.len()]);
                                    }
                                } else {
                                    assert(files@[j] == f);
                                    assert(sub0.take(consumed as int + 1)[j - base.len()]
                                        == sub0[consumed as int]);
                                }
                            }
                            assert(file_views(files@) =~= base + sub0.take(consumed as int + 1));
                            assert(sub.remaining() =~= sub0.skip(sub0.len()
                                - sub.remaining().len()));
                        }
                    },
                    None => {
                        break;
                    },
                }
            }
            proof {
                assert(sub0.take(sub0.len() as int) =~= sub0);
                if forall|q: int| 0 <= q < self@.len() ==> (#[trigger] self@[q]).is_embed() {
                    assert(self@[i as int].is_embed());
                    assert(self@[i as int] matches SiloView::Embed(sv) && sub0
                        == embed_file_views(sv.entries));
                    assert(sub0 == embed_file_views(silo_entries(self@[i as int])));
                    assert(base == rev_silo_files(self@.skip(i as int + 1)));
                    assert(file_views(files@) == base + sub0);
                    lemma_rev_silo_files_step(self@.skip(i as int));
                    assert(self@.skip(i as int).skip(1) =~= self@.skip(i as int + 1));
                    assert(self@.skip(i as int)[0] == self@[i as int]);
                    assert(file_views(files@) == rev_silo_files(self@.skip(i as int)));
                }
            }
        }
        let it = SiloIter { files, idx: 0 };
        proof {
            assert(it.remaining() =~= file_views(files@));
            assert(self@.skip(0) =~= self@);
        }
        it
    }

    /// Iterates all files, yielding only the highest-precedence file for
    /// each relative path: silos are visited from highest precedence to
    /// lowest, and only the first file seen at each path is yielded.
    pub fn iter_override(&self) -> (it: SiloOverrideIter)
        requires
            self.wf(),
        ensures
            it.wf(),
            it.yielded() == Seq::<Seq<char>>::empty(),
            forall|k: int| 0 <= k < it.remaining().len() ==> (#[trigger] it.remaining()[k]).wf()
                && file_of_some_silo(it.remaining()[k], self@),
            self@.len() == 0 ==> it.remaining().len() == 0,
            (forall|i: int| 0 <= i < self@.len() ==> (#[trigger] self@[i]).is_embed())
                ==> it.remaining() == rev_silo_files(self@),
            it.silos() == self@,
    {
        let inner = self.iter();
        let ghost sv = self@;
        let ghost orig = inner.remaining();
        let it = SiloOverrideIter { inner, seen: Vec::new(), silos: Ghost(sv), orig: Ghost(orig) };
        proof {
            assert(it.yielded() =~= Seq::<Seq<char>>::empty());
            assert(it.remaining() =~= orig.skip(0));
            assert forall|p: Seq<char>| #[trigger] it.yielded().contains(p) <==> (exists|j: int|
                0 <= j < orig.len() - it.remaining().len() && (#[trigger] orig[j]).rel() == p) by {
                if it.yielded().contains(p) {
                    let q = choose|q: int| 0 <= q < it.yielded().len() && it.yielded()[q] == p;
                }
            }
        }
        it
    }
}

/// The override-aware cursor: it threads the set of already-yielded paths
/// through the iteration and yields each relative path at most once.  It
/// remembers (in ghost state) the silos and the full precedence-ordered
/// sequence it was built over, which is what ties each yielded file to the
/// override winner.
pub struct SiloOverrideIter {
    inner: SiloIter,
    seen: Vec<String>,
    silos: Ghost<Seq<SiloView>>,
    orig: Ghost<Seq<FileView>>,
}

impl SiloOverrideIter {
    pub closed spec fn wf(&self) -> bool {
        &&& self.inner.wf()
        &&& self.yielded().no_duplicates()
        &&& self.remaining().len() <= self.orig@.len()
        &&& self.remaining() == self.orig@.skip(self.orig@.len() - self.remaining().len())
        &&& (all_silos_wf(self.silos@) && (forall|i: int|
            0 <= i < self.silos@.len() ==> (#[trigger] self.silos@[i]).is_embed())
            ==> self.orig@ == rev_silo_files(self.silos@))
        &&& forall|p: Seq<char>| #[trigger] self.yielded().contains(p) <==> (exists|j: int|
            0 <= j < self.orig@.len() - self.remaining().len() && (#[trigger] self.orig@[j]).rel()
                == p)
        &&& all_silos_wf(self.silos@)
    }

    /// The silos this cursor iterates over.
    pub closed spec fn silos(&self) -> Seq<SiloView> {
        self.silos@
    }

    /// The relative paths yielded so far, in order.
    pub closed spec fn yielded(&self) -> Seq<Seq<char>> {
        crate::dir::str_views(self.seen@)
    }

    /// The views of the files not yet considered.
    pub closed spec fn remaining(&self) -> Seq<FileView> {
        self.inner.remaining()
    }

    /// Produces the first remaining file whose relative path has not been
    /// yielded yet, or `None` once every remaining path has been: the files
    /// passed over on the way all carry already-yielded paths, so the
    /// sequence produced over the cursor's lifetime holds each relative
    /// path at most once — and, drained, exactly once.
    pub fn next(&mut self) -> (r: Option<File>)
        requires
            old(self).wf(),
        ensures
            final(self).wf(),
            final(self).silos() == old(self).silos(),
            match r {
                Some(f) => {
                    &&& f@.wf()
                    &&& !old(self).yielded().contains(f@.rel())
                    &&& final(self).yielded() == old(self).yielded().push(f@.rel())
                    &&& exists|k: int|
                        0 <= k < old(self).remaining().len() && f@ == old(self).remaining()[k]
                            && final(self).remaining() == old(self).remaining().skip(k + 1) && (
                        forall|j: int|
                            0 <= j < k ==> old(self).yielded().contains(
                                (#[trigger] old(self).remaining()[j]).rel(),
                            ))
                    &&& ((forall|i: int|
                        0 <= i < old(self).silos().len() ==> (#[trigger] old(
                            self,
                        ).silos()[i]).is_embed()) ==> f@ == FileView::Embed(
                        silo_resolve(old(self).silos(), f@.rel()),
                    ))
                },
                None => {
                    &&& final(self).yielded() == old(self).yielded()
                    &&& final(self).remaining().len() == 0
                    &&& forall|j: int|
                        0 <= j < old(self).remaining().len() ==> old(self).yielded().contains(
                            (#[trigger] old(self).remaining()[j]).rel(),
                        )
                },
            },
    {
        let ghost rem0 = self.remaining();
        let ghost orig = self.orig@;
        let ghost gbase = orig.len() - rem0.len();
        loop
            invariant
                self.wf(),
                rem0 == old(self).remaining(),
                orig == self.orig@,
                gbase == orig.len() - rem0.len(),
                self.silos@ == old(self).silos@,
                self.yielded() == old(self).yielded(),
                self.remaining().len() <= rem0.len(),
                self.remaining() == rem0.skip(rem0.len() - self.remaining().len()),
                forall|j: int|
                    0 <= j < rem0.len() - self.remaining().len() ==> self.yielded().contains(
                        (#[trigger] rem0[j]).rel(),
                    ),
            decreases self.remaining().len(),
        {
            let ghost c = rem0.len() - self.remaining().len();
            let ghost rem_pre = self.remaining();
            let ghost seen_pre = self.yielded();
            let n = self.inner.next();
            match n {
                Some(f) => {
                    proof {
                        assert(f@ == rem_pre[0]);
                        assert(rem_pre[0] == rem0[c as int]);
                        assert(rem0[c as int] == orig[gbase + c]);
                        assert(self.remaining() =~= rem0.skip(c as int + 1));
                        assert(self.remaining() =~= orig.skip(gbase + c + 1));
                    }
                    if !crate::dir::contains_str(&self.seen, f.path()) {
                        let rel = String::from_str(f.path());
                        self.seen.push(rel);
                        proof {
                            assert(self.yielded() =~= seen_pre.push(f@.rel()));
                            assert forall|a: int, b: int|
                                0 <= a < b < self.yielded().len() implies self.yielded()[a]
                                != self.yielded()[b] by {
                                if b == self.yielded().len() - 1 {
                                    assert(seen_pre.contains(seen_pre[a]));
                                }
                            }
                            assert forall|p: Seq<char>| #[trigger] self.yielded().contains(p)
                                implies (exists|j: int|
                                0 <= j < gbase + c + 1 && (#[trigger] orig[j]).rel() == p) by {
                                let q = choose|q: int|
                                    0 <= q < self.yielded().len() && self.yielded()[q] == p;
                                if q < seen_pre.len() {
                                    assert(seen_pre.contains(p));
                                } else {
                                    assert(orig[gbase + c].rel() == p);
                                }
                            }
                            assert forall|p: Seq<char>|
                                (exists|j: int|
                                    0 <= j < gbase + c + 1 && (#[trigger] orig[j]).rel()
                                        == p) implies #[trigger] self.yielded().contains(p) by {
                                let j = choose|j: int|
                                    0 <= j < gbase + c + 1 && (#[trigger] orig[j]).rel() == p;
                                if j < gbase + c {
                                    assert(seen_pre.contains(p));
                                    let q = choose|q: int|
                                        0 <= q < seen_pre.len() && seen_pre[q] == p;
                                    assert(self.yielded()[q] == p);
                                } else {
                                    assert(self.yielded().last() == p);
                                }
                            }
                            assert(0 <= c < old(self).remaining().len());
                            assert(f@ == old(self).remaining()[c as int]);
                            assert(self.remaining() == old(self).remaining().skip(c as int + 1));
                            assert(forall|j: int|
                                0 <= j < c ==> old(self).yielded().contains(
                                    (#[trigger] old(self).remaining()[j]).rel(),
                                ));
                            if forall|i: int|
                                0 <= i < self.silos@.len() ==> (#[trigger] self.silos@[i]).is_embed() {
                                let p = f@.rel();
                                assert(orig == rev_silo_files(self.silos@));
                                assert forall|j: int| 0 <= j < gbase + c implies (
                                #[trigger] orig[j]).rel() != p by {
                                    if orig[j].rel() == p {
                                        assert(seen_pre.contains(p));
                                    }
                                }
                                lemma_first_occurrence_is_winner(self.silos@, gbase + c);
                            }
                        }
                        return Some(f);
                    } else {
                        proof {
                            assert(seen_pre.contains(f@.rel()));
                            assert forall|p: Seq<char>| #[trigger] self.yielded().contains(p)
                                implies (exists|j: int|
                                0 <= j < gbase + c + 1 && (#[trigger] orig[j]).rel() == p) by {
                                let q = choose|q: int|
                                    0 <= q < self.yielded().len() && self.yielded()[q] == p;
                                assert(seen_pre.contains(p));
                            }
                            assert forall|p: Seq<char>|
                                (exists|j: int|
                                    0 <= j < gbase + c + 1 && (#[trigger] orig[j]).rel()
                                        == p) implies #[trigger] self.yielded().contains(p) by {
                                let j = choose|j: int|
                                    0 <= j < gbase + c + 1 && (#[trigger] orig[j]).rel() == p;
                                if j == gbase + c {
                                    assert(orig[gbase + c].rel() == f@.rel());
                                }
                            }
                        }
                    }
                },
                None => {
                    proof {
                        assert(rem_pre.len() == 0);
                        assert(c == rem0.len());
                        assert(forall|j: int|
                            0 <= j < old(self).remaining().len() ==> old(
                                self,
                            ).yielded().contains((#[trigger] old(self).remaining()[j]).rel()));
                    }
                    return None;
                },
            }
        }
    }
}

/// Checks that a string is a well-formed relative path.
fn check_rel(s: &str) -> (r: bool)
    ensures
        r == valid_rel_path(s@),
{
    let n = s.unicode_len();
    if n == 0 {
        return false;
    }
    if s.get_char(0) == '/' {
        return false;
    }
    if s.get_char(n - 1) == '/' {
        return false;
    }
    let mut i: usize = 0;
    while i < n - 1
        invariant
            0 <= i <= n,
            n == s@.len(),
            n > 0,
            forall|j: int| 0 <= j < i ==> !(#[trigger] s@[j] == '/' && s@[j + 1] == '/'),
        decreases n - i,
    {
        if s.get_char(i) == '/' {
            if s.get_char(i + 1) == '/' {
                return false;
            }
        }
        i = i + 1;
    }
    true
}

} // verus!
