//! Opening a mod for the shell: the archive is opened; where that fails
//! because the file is no packaged mod of this kind but looks like a mod
//! of another, the shell is told to convert it first.

use crate::gui::{Message, Mod};
use crate::resource::{extension, extension_chars};
use crate::text::{begins_at, begins_with, mentions, occurs_in, to_chars};
use crate::unpack::{
    entry_names, list_names, loader_words, opened, LoaderError, LoaderErrorView, ModReader,
};
use vstd::prelude::*;

verus! {

/// `c` in lower case, as far as the letters of `zip` go.
pub open spec fn folded(c: char) -> char {
    if c == 'Z' {
        'z'
    } else if c == 'I' {
        'i'
    } else if c == 'P' {
        'p'
    } else {
        c
    }
}

/// Whether `ext` is `word` but for the case of its letters.
pub open spec fn spells(ext: Seq<char>, word: Seq<char>) -> bool {
    ext.len() == word.len() && forall|i: int| 0 <= i < ext.len() ==> folded(ext[i]) == word[i]
}

/// Whether an entry of this name makes an archive look like a mod: whether
/// the name begins with one of the roots that mods are packed under.
pub open spec fn rooted(name: Seq<char>) -> bool {
    ||| begins_with(name, "content"@)
    ||| begins_with(name, "aoc"@)
    ||| begins_with(name, "romfs"@)
    ||| begins_with(name, "RomFS"@)
    ||| begins_with(name, "atmosphere"@)
    ||| begins_with(name, "contents"@)
    ||| begins_with(name, "01007EF00011E000"@)
    ||| begins_with(name, "01007EF00011F001"@)
    ||| begins_with(name, "BreathOfTheWild"@)
}

/// Whether one of the names is rooted like the files of a mod.
pub open spec fn any_rooted(names: Seq<Option<Seq<char>>>) -> bool {
    exists|i: int| 0 <= i < names.len() && (#[trigger] names[i]) is Some && rooted(names[i]->0)
}

/// Whether a file looks like a mod of some kind: a 7z archive always, a
/// zip archive where one of its entries lies under a root that mods are
/// packed under, anything else never.
pub open spec fn probable(path: Seq<char>, names: Option<Seq<Option<Seq<char>>>>) -> bool {
    match extension(path) {
        None => false,
        Some(ext) => if spells(ext, "7z"@) {
            true
        } else if spells(ext, "zip"@) {
            match names {
                Some(list) => any_rooted(list),
                None => false,
            }
        } else {
            false
        },
    }
}

/// Whether `ext` is `word` but for the case of its letters.
fn spelled(ext: &Vec<char>, word: &str) -> (r: bool)
    ensures
        r == spells(ext@, word@),
{
    let w = to_chars(word);
    if ext.len() != w.len() {
        return false;
    }
    let mut i: usize = 0;
    while i < ext.len()
        invariant
            i <= ext.len(),
            ext.len() == w.len(),
            w@ == word@,
            forall|j: int| 0 <= j < i ==> folded(ext@[j]) == w@[j],
        decreases ext.len() - i,
    {
        let c = ext[i];
        let f = if c == 'Z' {
            'z'
        } else if c == 'I' {
            'i'
        } else if c == 'P' {
            'p'
        } else {
            c
        };
        if f != w[i] {
            return false;
        }
        i = i + 1;
    }
    true
}

/// Whether `name` begins with `root`.
fn under(name: &Vec<char>, root: &str) -> (r: bool)
    ensures
        r == begins_with(name@, root@),
{
    let chars = to_chars(root);
    proof {
        assert(name@.skip(0) =~= name@);
    }
    begins_at(name, 0, &chars)
}

/// Whether `name` lies under one of the roots that mods are packed under.
fn is_rooted(name: &str) -> (r: bool)
    ensures
        r == rooted(name@),
{
    let n = to_chars(name);
    under(&n, "content") || under(&n, "aoc") || under(&n, "romfs") || under(&n, "RomFS") || under(
        &n,
        "atmosphere",
    ) || under(&n, "contents") || under(&n, "01007EF00011E000") || under(&n, "01007EF00011F001")
        || under(&n, "BreathOfTheWild")
}

/// Whether the file at `path`, whose archive lists `names`, looks like a
/// mod of some kind.
pub fn looks_like_a_mod(path: &str, names: &Option<Vec<Option<String>>>) -> (r: bool)
    ensures
        r == probable(path@, names.deep_view()),
{
    let ext = match extension_chars(path) {
        None => {
            return false;
        },
        Some(e) => e,
    };
    if spelled(&ext, "7z") {
        return true;
    }
    if !spelled(&ext, "zip") {
        return false;
    }
    match names {
        None => false,
        Some(list) => {
            let ghost s = list.deep_view();
            let mut i: usize = 0;
            while i < list.len()
                invariant
                    i <= list.len(),
                    s == list.deep_view(),
                    probable(path@, names.deep_view()) == any_rooted(s),
                    forall|j: int|
                        0 <= j < i ==> !((#[trigger] s[j]) is Some && rooted(s[j]->0)),
                decreases list.len() - i,
            {
                match &list[i] {
                    Some(name) => {
                        if is_rooted(name.as_str()) {
                            proof {
                                assert(s[i as int] is Some && rooted(s[i as int]->0));
                            }
                            return true;
                        }
                    },
                    None => {},
                }
                i = i + 1;
            }
            false
        },
    }
}

/// Whether the file at `path` with the bytes `data` looks like a mod of
/// some kind.
pub fn is_probably_a_mod(path: &str, data: &[u8]) -> (r: bool)
    ensures
        r == probable(path@, entry_names(data@)),
{
    let names = list_names(data);
    looks_like_a_mod(path, &names)
}

/// What opening a mod came to.
#[derive(Debug)]
pub enum OpenStep {
    /// The mod is open: the message that hands it to the shell.
    Done(Message),
    /// The file is no packaged mod of this kind but looks like a mod of
    /// another: it is to be converted and opened again.
    Convert(LoaderError),
    /// The file could not be opened.
    Failed(LoaderError),
}

/// Whether `message` hands the shell the mod that was opened at `path`
/// without options: a mod at that path, not switched on, with no option.
pub open spec fn handles(message: Message, path: Seq<char>) -> bool {
    message.deep_view() == crate::gui::MessageView::HandleMod(
        crate::gui::ModView { path, enabled: false, options: Seq::empty() },
    )
}

/// Whether a failure to open is one that a conversion may mend: whether
/// its words speak of a missing meta file or of an invalid archive.
pub open spec fn mendable(e: LoaderErrorView) -> bool {
    occurs_in(loader_words(e), "meta file"@) || occurs_in(loader_words(e), "invalid Zip"@)
}

/// What a failure to open comes to, for a file that looks or does not
/// look like a mod.
pub fn after_failure(err: LoaderError, probable: bool) -> (r: OpenStep)
    ensures
        match r {
            OpenStep::Done(_) => false,
            OpenStep::Convert(e) => e.deep_view() == err.deep_view() && mendable(err.deep_view())
                && probable,
            OpenStep::Failed(e) => e.deep_view() == err.deep_view() && !(mendable(err.deep_view())
                && probable),
        },
{
    let words = err.message();
    if (mentions(words.as_str(), "meta file") || mentions(words.as_str(), "invalid Zip"))
        && probable {
        OpenStep::Convert(err)
    } else {
        OpenStep::Failed(err)
    }
}

/// Opens the mod at `path` with the bytes `data`. Where the archive opens
/// and holds a manifest, the mod is handed to the shell. Where it does not,
/// and the failure is one that a conversion may mend, and the file looks
/// like a mod, the shell is told to convert it; else the failure stands.
pub fn open_mod(path: &str, data: Vec<u8>) -> (r: OpenStep)
    ensures
        match r {
            OpenStep::Done(message) => opened(data@) is Ok && handles(message, path@),
            OpenStep::Convert(e) => opened(data@) == Err::<
                crate::unpack::ManifestView,
                LoaderErrorView,
            >(e.deep_view()) && mendable(e.deep_view()) && probable(path@, entry_names(data@)),
            OpenStep::Failed(e) => opened(data@) == Err::<
                crate::unpack::ManifestView,
                LoaderErrorView,
            >(e.deep_view()) && !(mendable(e.deep_view()) && probable(
                path@,
                entry_names(data@),
            )),
        },
{
    let likely = is_probably_a_mod(path, data.as_slice());
    let options: Vec<crate::unpack::ModOption> = Vec::new();
    proof {
        assert(options.deep_view() =~= Seq::empty());
    }
    match ModReader::open(path, data, options) {
        Ok(reader) => OpenStep::Done(Message::HandleMod(Mod::from_reader(reader))),
        Err(err) => after_failure(err, likely),
    }
}

/// Opens the converted mod at `path` with the bytes `data`.
pub fn open_converted(path: &str, data: Vec<u8>) -> (r: Result<Message, LoaderError>)
    ensures
        match r {
            Ok(message) => opened(data@) is Ok && handles(message, path@),
            Err(e) => opened(data@) == Err::<crate::unpack::ManifestView, LoaderErrorView>(
                e.deep_view(),
            ),
        },
{
    let options: Vec<crate::unpack::ModOption> = Vec::new();
    proof {
        assert(options.deep_view() =~= Seq::empty());
    }
    match ModReader::open(path, data, options) {
        Ok(reader) => Ok(Message::HandleMod(Mod::from_reader(reader))),
        Err(err) => Err(err),
    }
}

} // verus!
