//! The loader of packaged mods: an archive with a manifest of the files it
//! supplies, read through one handle that every reader shares.

pub mod nesting;

use crate::resource::{canonical, canonicalize};
use crate::text::{join2, join3};
use crate::unpack::nesting::{nests_within, stays_within};
use std::sync::Arc;
use vstd::hash_set::StringHashSet;
use vstd::prelude::*;

verus! {

/// `zip::ZipArchive`, the reader of an archive, as a type that is carried
/// about and never looked into.
#[verifier::external_type_specification]
#[verifier::external_body]
#[verifier::reject_recursive_types(R)]
pub struct ExZipArchive<R>(zip::ZipArchive<R>);

/// `std::io::Cursor`, the reader over bytes in memory, as a type that is
/// carried about and never looked into.
#[verifier::external_type_specification]
#[verifier::external_body]
#[verifier::reject_recursive_types(T)]
pub struct ExCursor<T>(std::io::Cursor<T>);

/// `parking_lot::RawMutex`, the lock inside a `parking_lot::Mutex`, as a
/// type that is carried about and never looked into.
#[verifier::external_type_specification]
#[verifier::external_body]
pub struct ExRawMutex(parking_lot::RawMutex);

/// `lock_api::Mutex`, which `parking_lot::Mutex` is made of, as a type
/// that is carried about and never looked into.
#[verifier::external_type_specification]
#[verifier::external_body]
#[verifier::reject_recursive_types(R)]
#[verifier::reject_recursive_types(T)]
pub struct ExMutex<R, T: ?Sized>(parking_lot::lock_api::Mutex<R, T>);

/// The shared handle of an open archive: the archive over its bytes,
/// behind a lock that one reader holds at a time.
pub type ZipReader = Arc<
    parking_lot::lock_api::Mutex<parking_lot::RawMutex, zip::ZipArchive<std::io::Cursor<Vec<u8>>>>,
>;

/// What went wrong outside the library, by kind.
#[derive(Debug, Clone, Copy, PartialEq, Eq, Structural)]
pub enum FaultKind {
    /// The archive has no entry of the name.
    NotFound,
    /// The bytes are no archive, or the archive cannot hand the entry out.
    Archive,
    /// Reading the entry failed.
    Io,
}

/// What went wrong outside the library: the kind, and the words of the
/// failure.
#[derive(Debug)]
pub struct Fault {
    pub kind: FaultKind,
    pub text: String,
}

/// The mathematical value of a fault.
pub struct FaultView {
    pub kind: FaultKind,
    pub text: Seq<char>,
}

impl DeepView for Fault {
    type V = FaultView;

    open spec fn deep_view(&self) -> FaultView {
        FaultView { kind: self.kind, text: self.text@ }
    }
}

/// What reading an entry gave: the size that the archive declares for the
/// entry, and the bytes that were read, up to that size, until the entry
/// ended.
#[derive(Debug)]
pub struct EntryRead {
    pub size: u64,
    pub buffer: Vec<u8>,
}

/// The mathematical value of a read.
pub struct EntryReadView {
    pub size: u64,
    pub buffer: Seq<u8>,
}

impl DeepView for EntryRead {
    type V = EntryReadView;

    open spec fn deep_view(&self) -> EntryReadView {
        EntryReadView { size: self.size, buffer: self.buffer@ }
    }
}

/// What a document holds under a key, as far as a list of strings goes.
#[derive(Debug)]
pub enum Listing {
    /// The document has no such key.
    Missing,
    /// The key holds something that is no array.
    NotArray,
    /// The items of the array: each string, and `None` for what is no
    /// string.
    Items(Vec<Option<String>>),
}

/// The mathematical value of a listing.
pub enum ListingView {
    Missing,
    NotArray,
    Items(Seq<Option<Seq<char>>>),
}

impl DeepView for Listing {
    type V = ListingView;

    open spec fn deep_view(&self) -> ListingView {
        match self {
            Listing::Missing => ListingView::Missing,
            Listing::NotArray => ListingView::NotArray,
            Listing::Items(items) => ListingView::Items(items.deep_view()),
        }
    }
}

/// The bytes of the archive behind a handle.
pub uninterp spec fn archive_bytes(handle: ZipReader) -> Seq<u8>;

/// The words with which bytes fail to open as an archive, if they do.
pub uninterp spec fn open_fault(data: Seq<u8>) -> Option<Seq<char>>;

/// What reading the entry `name` of the archive `data` gives: the size
/// that the archive declares for it, and the bytes of the entry up to that
/// size.
pub uninterp spec fn entry_bytes(data: Seq<u8>, name: Seq<char>) -> Result<
    EntryReadView,
    FaultView,
>;

/// The names of the entries of the archive `data`, `None` for a name that
/// is no text, or nothing at all where the bytes do not open as an
/// archive.
pub uninterp spec fn entry_names(data: Seq<u8>) -> Option<Seq<Option<Seq<char>>>>;

/// What the TOML document `text` holds under `key`, or the words with
/// which it fails to parse.
pub uninterp spec fn toml_listing(text: Seq<u8>, key: Seq<char>) -> Result<ListingView, Seq<char>>;

/// Calls `zip::ZipArchive::new` on a cursor over `data` and puts the
/// archive behind a `parking_lot::Mutex` in an `Arc`. The contract says
/// that whether the bytes open, and with which words they do not, depends
/// on the bytes alone, and that the handle stands for these bytes.
#[verifier::external_body]
fn open_archive(data: Vec<u8>) -> (r: Result<ZipReader, String>)
    ensures
        match r {
            Ok(handle) => open_fault(data@) is None && archive_bytes(handle) == data@,
            Err(text) => open_fault(data@) == Some(text@),
        },
{
    match zip::ZipArchive::new(std::io::Cursor::new(data)) {
        Ok(archive) => Ok(Arc::new(parking_lot::Mutex::new(archive))),
        Err(e) => Err(e.to_string()),
    }
}

/// Takes the lock once, calls `zip::ZipArchive::by_name` and
/// `ZipFile::size`, and calls `std::io::Read::read_to_end` on the entry,
/// limited to the declared size by `std::io::Read::take`: the entry is read
/// until that many bytes have come or the entry has ended. The contract
/// says that no more bytes come than were declared, and that the size and
/// the bytes, or the fault, depend on the archive's bytes and the name
/// alone, and calls them `entry_bytes`.
#[verifier::external_body]
fn read_whole_entry(zip: &ZipReader, name: &str) -> (r: Result<EntryRead, Fault>)
    ensures
        match r {
            Ok(read) => read.buffer@.len() <= read.size && entry_bytes(
                archive_bytes(*zip),
                name@,
            ) == Ok::<EntryReadView, FaultView>(read.deep_view()),
            Err(fault) => entry_bytes(archive_bytes(*zip), name@) == Err::<
                EntryReadView,
                FaultView,
            >(fault.deep_view()),
        },
{
    let mut archive = zip.lock();
    let mut file = match archive.by_name(name) {
        Ok(file) => file,
        Err(zip::result::ZipError::FileNotFound) => {
            return Err(Fault { kind: FaultKind::NotFound, text: String::new() });
        },
        Err(e) => return Err(Fault { kind: FaultKind::Archive, text: e.to_string() }),
    };
    let size = file.size();
    let mut buffer = Vec::new();
    match std::io::Read::read_to_end(&mut std::io::Read::take(&mut file, size), &mut buffer) {
        Ok(_) => Ok(EntryRead { size, buffer }),
        Err(e) => Err(Fault { kind: FaultKind::Io, text: e.to_string() }),
    }
}

/// Calls `zip::ZipArchive::new` on a cursor over `data` and
/// `ZipArchive::file_names`. The contract says that the names depend on
/// the bytes alone, and calls them `entry_names`.
#[verifier::external_body]
pub(crate) fn list_names(data: &[u8]) -> (r: Option<Vec<Option<String>>>)
    ensures
        r.deep_view() == entry_names(data@),
{
    match zip::ZipArchive::new(std::io::Cursor::new(data)) {
        Ok(archive) => Some(
            archive.file_names().map(|name| name.ok().map(|text| text.into_owned())).collect(),
        ),
        Err(_) => None,
    }
}

/// Calls `toml::from_slice` to parse `text`, `toml::Value::get` for what
/// stands under `key`, `Value::as_array` for its items and `Value::as_str`
/// for each of them. The parser descends once for each array or inline
/// table that is open and for each part of a dotted key, so the text must
/// stay within the nesting limit. The contract says that what comes back
/// depends on the text and the key alone, and calls it `toml_listing`.
#[verifier::external_body]
fn list_strings(text: &[u8], key: &str) -> (r: Result<Listing, String>)
    requires
        nests_within(text@),
    ensures
        match r {
            Ok(listing) => toml_listing(text@, key@) == Ok::<ListingView, Seq<char>>(
                listing.deep_view(),
            ),
            Err(words) => toml_listing(text@, key@) == Err::<ListingView, Seq<char>>(words@),
        },
{
    let document: toml::Value = match toml::from_slice(text) {
        Ok(document) => document,
        Err(e) => return Err(e.to_string()),
    };
    Ok(
        match document.get(key).map(|value| value.as_array()) {
            None => Listing::Missing,
            Some(None) => Listing::NotArray,
            Some(Some(items)) => Listing::Items(
                items.iter().map(|item| item.as_str().map(|s| s.to_owned())).collect(),
            ),
        },
    )
}


/// A part of a mod that the user may switch on.
#[derive(Debug)]
pub struct ModOption {
    pub name: String,
    pub description: String,
    pub path: String,
}

/// The mathematical value of an option.
pub struct ModOptionView {
    pub name: Seq<char>,
    pub description: Seq<char>,
    pub path: Seq<char>,
}

impl DeepView for ModOption {
    type V = ModOptionView;

    open spec fn deep_view(&self) -> ModOptionView {
        ModOptionView { name: self.name@, description: self.description@, path: self.path@ }
    }
}

impl crate::datum::Datum for ModOption {
    fn same(&self, other: &Self) -> (r: bool) {
        self.name == other.name && self.description == other.description && self.path
            == other.path
    }

    fn dup(&self) -> (r: Self) {
        ModOption {
            name: self.name.clone(),
            description: self.description.clone(),
            path: self.path.clone(),
        }
    }
}

/// What a packaged mod supplies: the canonical paths of its content files
/// and of its add-on content files. It is made once, when the archive is
/// opened, and never changed.
pub struct Manifest {
    content_files: PathSet,
    aoc_files: PathSet,
}

/// A set of paths: the paths as a list, each once and in the order in
/// which they came, and an index that finds a path without a walk.
pub struct PathSet {
    names: Vec<String>,
    index: StringHashSet,
}

impl View for PathSet {
    type V = Set<Seq<char>>;

    closed spec fn view(&self) -> Set<Seq<char>> {
        self.index@
    }
}

impl PathSet {
    /// The index holds the paths of the list and no others.
    #[verifier::type_invariant]
    spec fn wf(self) -> bool {
        &&& self.names.deep_view().no_duplicates()
        &&& forall|x: Seq<char>|
            #[trigger] self.index@.contains(x) <==> self.names.deep_view().contains(x)
    }

    /// Whether `path` is in the set.
    pub fn contains(&self, path: &str) -> (r: bool)
        ensures
            r == self@.contains(path@),
    {
        self.index.contains(path)
    }

    /// The paths of the set, each once, in the order in which they came.
    pub fn names(&self) -> (r: &Vec<String>)
        ensures
            r.deep_view().no_duplicates(),
            forall|x: Seq<char>| #[trigger] r.deep_view().contains(x) <==> self@.contains(x),
    {
        proof {
            use_type_invariant(self);
        }
        &self.names
    }
}

/// The mathematical value of a manifest.
pub struct ManifestView {
    pub content_files: Set<Seq<char>>,
    pub aoc_files: Set<Seq<char>>,
}

impl View for Manifest {
    type V = ManifestView;

    closed spec fn view(&self) -> ManifestView {
        ManifestView { content_files: self.content_files@, aoc_files: self.aoc_files@ }
    }
}

/// Why a manifest could not be read.
#[derive(Debug)]
pub enum ManifestError {
    /// The text is no TOML document that can be read: the words are the
    /// parser's, or say that the text nests too deep for it.
    Malformed(String),
    /// The document lacks the key.
    MissingField(&'static str),
    /// The key does not hold an array of strings.
    WrongType(&'static str),
}

/// The mathematical value of a manifest failure.
pub enum ManifestErrorView {
    Malformed(Seq<char>),
    MissingField(&'static str),
    WrongType(&'static str),
}

impl DeepView for ManifestError {
    type V = ManifestErrorView;

    open spec fn deep_view(&self) -> ManifestErrorView {
        match self {
            ManifestError::Malformed(s) => ManifestErrorView::Malformed(s@),
            ManifestError::MissingField(k) => ManifestErrorView::MissingField(*k),
            ManifestError::WrongType(k) => ManifestErrorView::WrongType(*k),
        }
    }
}

/// Every item is a string.
pub open spec fn all_text(items: Seq<Option<Seq<char>>>) -> bool {
    forall|i: int| 0 <= i < items.len() ==> (#[trigger] items[i]) is Some
}

/// The strings among the items, as a set.
pub open spec fn names_in(items: Seq<Option<Seq<char>>>) -> Set<Seq<char>> {
    Set::new(|s: Seq<char>| items.contains(Some(s)))
}

/// The set of paths that a listing stands for: the key must be there and
/// hold an array of nothing but strings.
pub open spec fn paths_of(listing: ListingView, key: &'static str) -> Result<
    Set<Seq<char>>,
    ManifestErrorView,
> {
    match listing {
        ListingView::Missing => Err(ManifestErrorView::MissingField(key)),
        ListingView::NotArray => Err(ManifestErrorView::WrongType(key)),
        ListingView::Items(items) => if all_text(items) {
            Ok(names_in(items))
        } else {
            Err(ManifestErrorView::WrongType(key))
        },
    }
}

/// The manifest that two listings stand for, that of the content files
/// first.
pub open spec fn manifest_from(content: ListingView, aoc: ListingView) -> Result<
    ManifestView,
    ManifestErrorView,
> {
    match paths_of(content, "content_files") {
        Err(e) => Err(e),
        Ok(c) => match paths_of(aoc, "aoc_files") {
            Err(e) => Err(e),
            Ok(a) => Ok(ManifestView { content_files: c, aoc_files: a }),
        },
    }
}

/// The manifest that a TOML document holds: the two arrays of paths under
/// `content_files` and `aoc_files`. A text that nests beyond the limit is
/// refused before it is parsed.
pub open spec fn manifest_of(text: Seq<u8>) -> Result<ManifestView, ManifestErrorView> {
    if !nests_within(text) {
        Err(ManifestErrorView::Malformed("manifest nests too deep"@))
    } else {
        match toml_listing(text, "content_files"@) {
            Err(words) => Err(ManifestErrorView::Malformed(words)),
            Ok(content) => match paths_of(content, "content_files") {
                Err(e) => Err(e),
                Ok(c) => match toml_listing(text, "aoc_files"@) {
                    Err(words) => Err(ManifestErrorView::Malformed(words)),
                    Ok(aoc) => match paths_of(aoc, "aoc_files") {
                        Err(e) => Err(e),
                        Ok(a) => Ok(ManifestView { content_files: c, aoc_files: a }),
                    },
                },
            },
        }
    }
}

/// The set of paths that a listing stands for.
fn read_paths(listing: &Listing, key: &'static str) -> (r: Result<PathSet, ManifestError>)
    ensures
        match r {
            Ok(set) => paths_of(listing.deep_view(), key) == Ok::<
                Set<Seq<char>>,
                ManifestErrorView,
            >(set@),
            Err(e) => paths_of(listing.deep_view(), key) == Err::<
                Set<Seq<char>>,
                ManifestErrorView,
            >(e.deep_view()),
        },
{
    match listing {
        Listing::Missing => Err(ManifestError::MissingField(key)),
        Listing::NotArray => Err(ManifestError::WrongType(key)),
        Listing::Items(items) => {
            let ghost s = items.deep_view();
            let mut set = StringHashSet::new();
            let mut names: Vec<String> = Vec::new();
            let mut i: usize = 0;
            proof {
                assert(set@ =~= names_in(s.take(0)));
            }
            while i < items.len()
                invariant
                    i <= items.len(),
                    s == items.deep_view(),
                    listing.deep_view() == ListingView::Items(s),
                    all_text(s.take(i as int)),
                    set@ == names_in(s.take(i as int)),
                    names.deep_view().no_duplicates(),
                    forall|x: Seq<char>|
                        #[trigger] set@.contains(x) <==> names.deep_view().contains(x),
                decreases items.len() - i,
            {
                match &items[i] {
                    None => {
                        proof {
                            assert(s[i as int] is None);
                            assert(!all_text(s));
                        }
                        return Err(ManifestError::WrongType(key));
                    },
                    Some(path) => {
                        let ghost before = set@;
                        let ghost listed = names.deep_view();
                        if set.insert(path.clone()) {
                            names.push(path.clone());
                            proof {
                                assert(names.deep_view() =~= listed.push(path@));
                                assert(!listed.contains(path@));
                                assert(names.deep_view().no_duplicates()) by {
                                    let n = names.deep_view();
                                    assert forall|a: int, b: int|
                                        0 <= a < n.len() && 0 <= b < n.len() && a != b implies n[a]
                                        != n[b] by {
                                        if a < listed.len() && b < listed.len() {
                                            assert(listed[a] != listed[b]);
                                        } else if a < listed.len() {
                                            assert(listed.contains(listed[a]));
                                        } else if b < listed.len() {
                                            assert(listed.contains(listed[b]));
                                        }
                                    }
                                }
                                assert forall|x: Seq<char>| #[trigger]
                                    set@.contains(x) <==> names.deep_view().contains(x) by {
                                    if listed.contains(x) {
                                        let j = choose|j: int|
                                            0 <= j < listed.len() && listed[j] == x;
                                        assert(names.deep_view()[j] == x);
                                    }
                                    if x == path@ {
                                        assert(names.deep_view()[listed.len() as int] == x);
                                    }
                                    if names.deep_view().contains(x) {
                                        let j = choose|j: int|
                                            0 <= j < names.deep_view().len()
                                                && names.deep_view()[j] == x;
                                        if j < listed.len() {
                                            assert(listed[j] == x);
                                        }
                                    }
                                }
                            }
                        }
                        proof {
                            let a = s.take(i as int);
                            let b = s.take(i + 1);
                            assert(b =~= a.push(s[i as int]));
                            assert forall|x: Seq<char>| #[trigger]
                                names_in(b).contains(x) == before.insert(path@).contains(x) by {
                                if a.contains(Some(x)) {
                                    let j = choose|j: int| 0 <= j < a.len() && a[j] == Some(x);
                                    assert(b[j] == Some(x));
                                }
                                if x == path@ {
                                    assert(b[i as int] == Some(x));
                                }
                                if b.contains(Some(x)) {
                                    let j = choose|j: int| 0 <= j < b.len() && b[j] == Some(x);
                                    if j < i {
                                        assert(a[j] == Some(x));
                                    }
                                }
                            }
                            assert(set@ =~= names_in(b));
                            assert forall|j: int| 0 <= j < b.len() implies (#[trigger] b[j])
                                is Some by {
                                if j < i {
                                    assert(a[j] is Some);
                                }
                            }
                        }
                    },
                }
                i = i + 1;
            }
            proof {
                assert(s.take(i as int) =~= s);
            }
            Ok(PathSet { names, index: set })
        },
    }
}

impl Manifest {
    /// The manifest that two listings stand for: that of the content files
    /// and that of the add-on content files.
    pub fn from_listings(content: Listing, aoc: Listing) -> (r: Result<Self, ManifestError>)
        ensures
            match r {
                Ok(m) => manifest_from(content.deep_view(), aoc.deep_view()) == Ok::<
                    ManifestView,
                    ManifestErrorView,
                >(m@),
                Err(e) => manifest_from(content.deep_view(), aoc.deep_view()) == Err::<
                    ManifestView,
                    ManifestErrorView,
                >(e.deep_view()),
            },
    {
        let content_files = read_paths(&content, "content_files")?;
        let aoc_files = read_paths(&aoc, "aoc_files")?;
        Ok(Manifest { content_files, aoc_files })
    }

    /// Reads a manifest from the text of a TOML document.
    pub fn parse(text: &[u8]) -> (r: Result<Self, ManifestError>)
        ensures
            match r {
                Ok(m) => manifest_of(text@) == Ok::<ManifestView, ManifestErrorView>(m@),
                Err(e) => manifest_of(text@) == Err::<ManifestView, ManifestErrorView>(
                    e.deep_view(),
                ),
            },
    {
        if !stays_within(text) {
            return Err(ManifestError::Malformed("manifest nests too deep".to_owned()));
        }
        let content = match list_strings(text, "content_files") {
            Ok(l) => l,
            Err(words) => {
                return Err(ManifestError::Malformed(words));
            },
        };
        let content_files = read_paths(&content, "content_files")?;
        let aoc = match list_strings(text, "aoc_files") {
            Ok(l) => l,
            Err(words) => {
                return Err(ManifestError::Malformed(words));
            },
        };
        let aoc_files = read_paths(&aoc, "aoc_files")?;
        Ok(Manifest { content_files, aoc_files })
    }

    /// Whether the mod supplies the content file `path`.
    pub fn has_content_file(&self, path: &str) -> (r: bool)
        ensures
            r == self@.content_files.contains(path@),
    {
        self.content_files.contains(path)
    }

    /// Whether the mod supplies the add-on content file `path`.
    pub fn has_aoc_file(&self, path: &str) -> (r: bool)
        ensures
            r == self@.aoc_files.contains(path@),
    {
        self.aoc_files.contains(path)
    }

    /// The content files that the mod supplies, each once.
    pub fn content_files(&self) -> (r: &Vec<String>)
        ensures
            r.deep_view().no_duplicates(),
            forall|x: Seq<char>|
                #[trigger] r.deep_view().contains(x) <==> self@.content_files.contains(x),
    {
        self.content_files.names()
    }

    /// The add-on content files that the mod supplies, each once.
    pub fn aoc_files(&self) -> (r: &Vec<String>)
        ensures
            r.deep_view().no_duplicates(),
            forall|x: Seq<char>|
                #[trigger] r.deep_view().contains(x) <==> self@.aoc_files.contains(x),
    {
        self.aoc_files.names()
    }
}

/// Why the loader could not do what it was asked.
#[derive(Debug)]
pub enum LoaderError {
    /// The bytes did not open as an archive, or the archive could not hand
    /// an entry out; the words are the archive reader's.
    Archive(String),
    /// The archive has no manifest that can be opened.
    MissingManifest,
    /// The manifest was not read in full.
    ManifestShortRead,
    /// The manifest is malformed.
    Manifest(ManifestError),
    /// The archive has no entry for the file.
    MissingEntry { name: String, canonical: String },
    /// Fewer bytes were read than the archive declares for the entry.
    ShortRead { name: String, canonical: String },
    /// Reading failed; the words are the reader's.
    Io(String),
}

/// The mathematical value of a loader failure.
pub enum LoaderErrorView {
    Archive(Seq<char>),
    MissingManifest,
    ManifestShortRead,
    Manifest(ManifestErrorView),
    MissingEntry { name: Seq<char>, canonical: Seq<char> },
    ShortRead { name: Seq<char>, canonical: Seq<char> },
    Io(Seq<char>),
}

impl DeepView for LoaderError {
    type V = LoaderErrorView;

    open spec fn deep_view(&self) -> LoaderErrorView {
        match self {
            LoaderError::Archive(s) => LoaderErrorView::Archive(s@),
            LoaderError::MissingManifest => LoaderErrorView::MissingManifest,
            LoaderError::ManifestShortRead => LoaderErrorView::ManifestShortRead,
            LoaderError::Manifest(e) => LoaderErrorView::Manifest(e.deep_view()),
            LoaderError::MissingEntry { name, canonical } => LoaderErrorView::MissingEntry {
                name: name@,
                canonical: canonical@,
            },
            LoaderError::ShortRead { name, canonical } => LoaderErrorView::ShortRead {
                name: name@,
                canonical: canonical@,
            },
            LoaderError::Io(s) => LoaderErrorView::Io(s@),
        }
    }
}

/// The words of a manifest failure.
pub open spec fn manifest_words(e: ManifestErrorView) -> Seq<char> {
    match e {
        ManifestErrorView::Malformed(s) => s,
        ManifestErrorView::MissingField(k) => "missing field "@ + k@,
        ManifestErrorView::WrongType(k) => "invalid type for field "@ + k@,
    }
}

/// The words of a loader failure.
pub open spec fn loader_words(e: LoaderErrorView) -> Seq<char> {
    match e {
        LoaderErrorView::Archive(s) => s,
        LoaderErrorView::MissingManifest => "Mod missing manifest file"@,
        LoaderErrorView::ManifestShortRead => "Failed to read manifest file from mod"@,
        LoaderErrorView::Manifest(m) => manifest_words(m),
        LoaderErrorView::MissingEntry { name, canonical } => "specified file not found in archive"@,
        LoaderErrorView::ShortRead { name, canonical } => "Failed to read file "@ + name
            + " (canonical path "@ + canonical + ") from mod"@,
        LoaderErrorView::Io(s) => s,
    }
}

impl ManifestError {
    /// The words of the failure.
    pub fn message(&self) -> (r: String)
        ensures
            r@ == manifest_words(self.deep_view()),
    {
        match self {
            ManifestError::Malformed(s) => s.clone(),
            ManifestError::MissingField(k) => join2("missing field ", k),
            ManifestError::WrongType(k) => join2("invalid type for field ", k),
        }
    }
}

impl LoaderError {
    /// The words of the failure.
    pub fn message(&self) -> (r: String)
        ensures
            r@ == loader_words(self.deep_view()),
    {
        match self {
            LoaderError::Archive(s) => s.clone(),
            LoaderError::MissingManifest => "Mod missing manifest file".to_owned(),
            LoaderError::ManifestShortRead => "Failed to read manifest file from mod".to_owned(),
            LoaderError::Manifest(m) => m.message(),
            LoaderError::MissingEntry { name, canonical } => {
                "specified file not found in archive".to_owned()
            },
            LoaderError::ShortRead { name, canonical } => {
                let mut out = join3("Failed to read file ", name.as_str(), " (canonical path ");
                out.append(canonical.as_str());
                out.append(") from mod");
                out
            },
            LoaderError::Io(s) => s.clone(),
        }
    }
}

/// What a read of a file comes to: the bytes where the entry held as many
/// as the archive declares, else a short read.
pub open spec fn checked_read(read: EntryReadView, name: Seq<char>, canonical: Seq<char>)
    -> Result<Seq<u8>, LoaderErrorView> {
    if read.buffer.len() == read.size {
        Ok(read.buffer)
    } else {
        Err(LoaderErrorView::ShortRead { name, canonical })
    }
}

/// The failure that a fault of the archive comes to.
pub open spec fn fault_error(fault: FaultView, name: Seq<char>, canonical: Seq<char>)
    -> LoaderErrorView {
    match fault.kind {
        FaultKind::NotFound => LoaderErrorView::MissingEntry { name, canonical },
        FaultKind::Archive => LoaderErrorView::Archive(fault.text),
        FaultKind::Io => LoaderErrorView::Io(fault.text),
    }
}

/// What reading the entry `canonical` of the archive `data` comes to: the
/// size that the archive declares, and the bytes of the entry up to that
/// size.
pub open spec fn entry_read(data: Seq<u8>, name: Seq<char>, canonical: Seq<char>) -> Result<
    EntryReadView,
    LoaderErrorView,
> {
    match entry_bytes(data, canonical) {
        Err(fault) => Err(fault_error(fault, name, canonical)),
        Ok(read) => Ok(read),
    }
}

/// What asking the archive `data` for the file `name` comes to, under the
/// entry name `canonical`.
pub open spec fn file_data(data: Seq<u8>, name: Seq<char>, canonical: Seq<char>) -> Result<
    Seq<u8>,
    LoaderErrorView,
> {
    match entry_read(data, name, canonical) {
        Err(e) => Err(e),
        Ok(read) => checked_read(read, name, canonical),
    }
}

/// The manifest that opening the archive `data` finds, or the failure.
pub open spec fn opened(data: Seq<u8>) -> Result<ManifestView, LoaderErrorView> {
    match open_fault(data) {
        Some(words) => Err(LoaderErrorView::Archive(words)),
        None => match entry_read(data, "manifest.toml"@, "manifest.toml"@) {
            Err(LoaderErrorView::MissingEntry { .. }) => Err(LoaderErrorView::MissingManifest),
            Err(LoaderErrorView::Archive(_)) => Err(LoaderErrorView::MissingManifest),
            Err(e) => Err(e),
            Ok(read) => if read.buffer.len() != read.size {
                Err(LoaderErrorView::ManifestShortRead)
            } else {
                match manifest_of(read.buffer) {
                    Err(e) => Err(LoaderErrorView::Manifest(e)),
                    Ok(m) => Ok(m),
                }
            },
        },
    }
}

/// Reads the entry `canonical` of the archive for the file `name`, in
/// full, while the lock on the archive is held.
fn read_entry(zip: &ZipReader, name: &str, canonical: &str) -> (r: Result<EntryRead, LoaderError>)
    ensures
        match r {
            Ok(read) => read.buffer@.len() <= read.size && entry_read(
                archive_bytes(*zip),
                name@,
                canonical@,
            ) == Ok::<EntryReadView, LoaderErrorView>(read.deep_view()),
            Err(e) => entry_read(archive_bytes(*zip), name@, canonical@) == Err::<
                EntryReadView,
                LoaderErrorView,
            >(e.deep_view()),
        },
{
    match read_whole_entry(zip, canonical) {
        Ok(read) => Ok(read),
        Err(fault) => Err(fault_to_error(fault, name, canonical)),
    }
}

/// The failure that a fault of the archive comes to.
fn fault_to_error(fault: Fault, name: &str, canonical: &str) -> (r: LoaderError)
    ensures
        r.deep_view() == fault_error(fault.deep_view(), name@, canonical@),
{
    match fault.kind {
        FaultKind::NotFound => LoaderError::MissingEntry {
            name: name.to_owned(),
            canonical: canonical.to_owned(),
        },
        FaultKind::Archive => LoaderError::Archive(fault.text),
        FaultKind::Io => LoaderError::Io(fault.text),
    }
}

/// Checks a read against the size that the archive declares: an entry
/// that held fewer bytes fails, and never hands its bytes out.
pub fn check_read(read: EntryRead, name: &str, canonical: &str) -> (r: Result<
    Vec<u8>,
    LoaderError,
>)
    ensures
        r is Ok <==> read.buffer@.len() == read.size,
        match r {
            Ok(buffer) => checked_read(read.deep_view(), name@, canonical@) == Ok::<
                Seq<u8>,
                LoaderErrorView,
            >(buffer@),
            Err(e) => checked_read(read.deep_view(), name@, canonical@) == Err::<
                Seq<u8>,
                LoaderErrorView,
            >(e.deep_view()),
        },
{
    if read.buffer.len() as u64 == read.size {
        Ok(read.buffer)
    } else {
        Err(LoaderError::ShortRead { name: name.to_owned(), canonical: canonical.to_owned() })
    }
}

/// An open packaged mod. It holds the manifest and the shared handle of
/// the archive for as long as it lives.
pub struct ModReader {
    path: String,
    enabled_opts: Vec<ModOption>,
    manifest: Manifest,
    zip: ZipReader,
}

impl ModReader {
    /// The bytes of the archive.
    pub closed spec fn bytes(&self) -> Seq<u8> {
        archive_bytes(self.zip)
    }

    /// The manifest.
    pub closed spec fn manifest_view(&self) -> ManifestView {
        self.manifest@
    }

    /// The path that the mod was opened from.
    pub closed spec fn path_view(&self) -> Seq<char> {
        self.path@
    }

    /// The options that the mod was opened with.
    pub closed spec fn options_view(&self) -> Seq<ModOptionView> {
        self.enabled_opts.deep_view()
    }

    /// Opens the packaged mod with the bytes `data`, found at `path`:
    /// opens the archive, reads the entry `manifest.toml` and parses it.
    pub fn open(path: &str, data: Vec<u8>, options: Vec<ModOption>) -> (r: Result<
        Self,
        LoaderError,
    >)
        ensures
            match r {
                Ok(reader) => opened(data@) == Ok::<ManifestView, LoaderErrorView>(
                    reader.manifest_view(),
                ) && reader.bytes() == data@ && reader.path_view() == path@
                    && reader.options_view() == options.deep_view(),
                Err(e) => opened(data@) == Err::<ManifestView, LoaderErrorView>(e.deep_view()),
            },
    {
        let zip = match open_archive(data) {
            Ok(zip) => zip,
            Err(words) => {
                return Err(LoaderError::Archive(words));
            },
        };
        let read = match read_entry(&zip, "manifest.toml", "manifest.toml") {
            Ok(read) => read,
            Err(LoaderError::MissingEntry { .. }) => {
                return Err(LoaderError::MissingManifest);
            },
            Err(LoaderError::Archive(_)) => {
                return Err(LoaderError::MissingManifest);
            },
            Err(e) => {
                return Err(e);
            },
        };
        if read.buffer.len() as u64 != read.size {
            return Err(LoaderError::ManifestShortRead);
        }
        let manifest = match Manifest::parse(read.buffer.as_slice()) {
            Ok(m) => m,
            Err(e) => {
                return Err(LoaderError::Manifest(e));
            },
        };
        Ok(ModReader { path: path.to_owned(), enabled_opts: options, manifest, zip })
    }

    /// The manifest of the mod.
    pub fn manifest(&self) -> (r: &Manifest)
        ensures
            r@ == self.manifest_view(),
    {
        &self.manifest
    }

    /// The options that the mod was opened with.
    pub fn enabled_opts(&self) -> (r: &Vec<ModOption>)
        ensures
            r.deep_view() == self.options_view(),
    {
        &self.enabled_opts
    }

    /// Closes the mod and hands out the options that it was opened with.
    pub fn into_options(self) -> (r: Vec<ModOption>)
        ensures
            r.deep_view() == self.options_view(),
    {
        self.enabled_opts
    }

    /// The path that the mod was opened from.
    pub fn host_path(&self) -> (r: &str)
        ensures
            r@ == self.path_view(),
    {
        self.path.as_str()
    }

    /// Whether the mod supplies the file with the canonical path `name`:
    /// whether the manifest lists it among the content files or among the
    /// add-on content files. The archive is not touched.
    pub fn file_exists(&self, name: &str) -> (r: bool)
        ensures
            r == (self.manifest_view().content_files.contains(name@)
                || self.manifest_view().aoc_files.contains(name@)),
    {
        self.manifest.has_content_file(name) || self.manifest.has_aoc_file(name)
    }

    /// The bytes of the file `name`, read from the entry of its canonical
    /// path while the lock on the archive is held. A missing entry and a
    /// read that delivers fewer bytes than the archive declares both fail.
    pub fn get_file_data(&self, name: &str) -> (r: Result<Vec<u8>, LoaderError>)
        ensures
            match r {
                Ok(buffer) => file_data(self.bytes(), name@, canonical(name@)) == Ok::<
                    Seq<u8>,
                    LoaderErrorView,
                >(buffer@),
                Err(e) => file_data(self.bytes(), name@, canonical(name@)) == Err::<
                    Seq<u8>,
                    LoaderErrorView,
                >(e.deep_view()),
            },
    {
        let canon = canonicalize(name);
        self.read_file(name, canon)
    }

    /// The bytes of the add-on content file `name`, which is stored under
    /// the root `Aoc/0010`.
    pub fn get_aoc_file_data(&self, name: &str) -> (r: Result<Vec<u8>, LoaderError>)
        ensures
            match r {
                Ok(buffer) => file_data(
                    self.bytes(),
                    name@,
                    canonical("Aoc/0010/"@ + name@),
                ) == Ok::<Seq<u8>, LoaderErrorView>(buffer@),
                Err(e) => file_data(self.bytes(), name@, canonical("Aoc/0010/"@ + name@))
                    == Err::<Seq<u8>, LoaderErrorView>(e.deep_view()),
            },
    {
        let stored = join2("Aoc/0010/", name);
        let canon = canonicalize(stored.as_str());
        self.read_file(name, canon)
    }

    /// Reads the entry `canon` for the file `name`.
    fn read_file(&self, name: &str, canon: String) -> (r: Result<Vec<u8>, LoaderError>)
        ensures
            match r {
                Ok(buffer) => file_data(self.bytes(), name@, canon@) == Ok::<
                    Seq<u8>,
                    LoaderErrorView,
                >(buffer@),
                Err(e) => file_data(self.bytes(), name@, canon@) == Err::<
                    Seq<u8>,
                    LoaderErrorView,
                >(e.deep_view()),
            },
    {
        match read_entry(&self.zip, name, canon.as_str()) {
            Ok(read) => check_read(read, name, canon.as_str()),
            Err(e) => Err(e),
        }
    }
}

/// The mods that are to be unpacked, each with the options that are
/// switched on.
pub struct ModUnpacker {
    mods: Vec<(ModReader, Vec<ModOption>)>,
}

impl ModUnpacker {
    /// An unpacker for `mods`.
    pub fn new(mods: Vec<(ModReader, Vec<ModOption>)>) -> (r: Self)
        ensures
            r.count() == mods.len(),
    {
        ModUnpacker { mods }
    }

    /// The number of mods.
    pub closed spec fn count(&self) -> nat {
        self.mods.len() as nat
    }

    /// Unpacks the mods. Nothing is written yet, and nothing fails.
    pub fn unpack(self) -> (r: Result<(), LoaderError>)
        ensures
            r is Ok,
    {
        Ok(())
    }
}

} // verus!
