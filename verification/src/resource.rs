//! Canonical paths and the dispatch from a path to the kind of resource
//! that claims it.
//!
//! A canonical path names a file of the game whatever root it was found
//! under: separators are forward slashes, the root of the base game, of an
//! update or of the add-on content is replaced by nothing or by `Aoc`, and
//! the mark of compression in an extension is dropped.

use crate::text::{begins_at, begins_with, from_chars, to_chars};
use vstd::prelude::*;

verus! {

/// The last place at which `s` holds `c`, or -1.
pub open spec fn last_index(s: Seq<char>, c: char) -> int
    decreases s.len(),
{
    if s.len() == 0 {
        -1
    } else if s.last() == c {
        s.len() - 1
    } else {
        last_index(s.drop_last(), c)
    }
}

/// `s` without the slashes at its end.
pub open spec fn trimmed(s: Seq<char>) -> Seq<char>
    decreases s.len(),
{
    if s.len() > 0 && s.last() == '/' {
        trimmed(s.drop_last())
    } else {
        s
    }
}

/// `s` without what may stand behind the name of a file at the end of a
/// path: slashes, and dots that stand alone behind a slash.
pub open spec fn ended(s: Seq<char>) -> Seq<char>
    decreases s.len(),
{
    if s.len() > 0 && s.last() == '/' {
        ended(s.drop_last())
    } else if s.len() >= 2 && s.last() == '.' && s[s.len() - 2] == '/' {
        ended(s.take(s.len() - 2))
    } else {
        s
    }
}

/// The name of the file that a path ends in: what stands behind the last
/// slash, with the slashes and the lone dots at the very end aside. A path
/// that ends in nothing, in `..` or is `.` names no file.
pub open spec fn file_name(path: Seq<char>) -> Option<Seq<char>> {
    let t = ended(path);
    let n = t.subrange(last_index(t, '/') + 1, t.len() as int);
    if n.len() == 0 || n == seq!['.', '.'] || n == seq!['.'] {
        None
    } else {
        Some(n)
    }
}

/// The extension of the file that a path ends in: what stands behind the
/// last dot of the file's name, unless that dot begins the name.
pub open spec fn extension(path: Seq<char>) -> Option<Seq<char>> {
    match file_name(path) {
        None => None,
        Some(n) => {
            let d = last_index(n, '.');
            if d <= 0 {
                None
            } else {
                Some(n.subrange(d + 1, n.len() as int))
            }
        },
    }
}

/// The stem of the file that a path ends in: its name without the
/// extension and the dot in front of it.
pub open spec fn file_stem(path: Seq<char>) -> Option<Seq<char>> {
    match file_name(path) {
        None => None,
        Some(n) => {
            let d = last_index(n, '.');
            if d <= 0 {
                Some(n)
            } else {
                Some(n.subrange(0, d))
            }
        },
    }
}

/// A place that holds `c` with no `c` behind it is the last.
proof fn lemma_last_index(s: Seq<char>, c: char, k: int)
    requires
        -1 <= k < s.len(),
        k >= 0 ==> s[k] == c,
        forall|j: int| k < j < s.len() ==> s[j] != c,
    ensures
        last_index(s, c) == k,
    decreases s.len(),
{
    if s.len() > 0 && k < s.len() - 1 {
        assert(s.last() == s[s.len() - 1]);
        lemma_last_index(s.drop_last(), c, k);
    }
}

/// Cutting the slashes at the end of `s` leaves the first `n` characters.
pub proof fn lemma_trimmed(s: Seq<char>, n: int)
    requires
        0 <= n <= s.len(),
        n > 0 ==> s[n - 1] != '/',
        forall|j: int| n <= j < s.len() ==> s[j] == '/',
    ensures
        trimmed(s) == s.take(n),
    decreases s.len(),
{
    if n < s.len() {
        assert(s.last() == s[s.len() - 1]);
        lemma_trimmed(s.drop_last(), n);
        assert(s.drop_last().take(n) =~= s.take(n));
    } else {
        assert(s.take(n) =~= s);
    }
}

/// The last place at which `s` holds `c` in front of `end`.
pub fn find_last(s: &Vec<char>, end: usize, c: char) -> (r: Option<usize>)
    requires
        end <= s.len(),
    ensures
        match r {
            Some(k) => k < end && last_index(s@.take(end as int), c) == k,
            None => last_index(s@.take(end as int), c) == -1,
        },
{
    let mut i: usize = end;
    while i > 0
        invariant
            i <= end,
            end <= s.len(),
            forall|j: int| i <= j < end ==> s@[j] != c,
        decreases i,
    {
        if s[i - 1] == c {
            proof {
                lemma_last_index(s@.take(end as int), c, i - 1);
            }
            return Some(i - 1);
        }
        i = i - 1;
    }
    proof {
        lemma_last_index(s@.take(end as int), c, -1);
    }
    None
}

/// The bounds of the name of the file that a path ends in.
fn name_bounds(path: &Vec<char>) -> (r: Option<(usize, usize)>)
    ensures
        match r {
            Some((from, to)) => from < to <= path.len() && file_name(path@) == Some(
                path@.subrange(from as int, to as int),
            ),
            None => file_name(path@) is None,
        },
{
    let mut end: usize = path.len();
    let mut going = true;
    proof {
        assert(path@.take(end as int) =~= path@);
    }
    while going
        invariant
            end <= path.len(),
            ended(path@) == ended(path@.take(end as int)),
            !going ==> ended(path@.take(end as int)) == path@.take(end as int),
        decreases end + if going { 1int } else { 0int },
    {
        let ghost t = path@.take(end as int);
        if end > 0 && path[end - 1] == '/' {
            proof {
                assert(t.drop_last() =~= path@.take(end - 1));
            }
            end = end - 1;
        } else if end >= 2 && path[end - 1] == '.' && path[end - 2] == '/' {
            proof {
                assert(t.take(t.len() - 2) =~= path@.take(end - 2));
            }
            end = end - 2;
        } else {
            going = false;
        }
    }
    let start = match find_last(path, end, '/') {
        Some(k) => k + 1,
        None => 0,
    };
    let ghost t = path@.take(end as int);
    proof {
        assert(t.subrange(start as int, end as int) =~= path@.subrange(start as int, end as int));
    }
    if start == end {
        return None;
    }
    if end - start == 2 && path[start] == '.' && path[start + 1] == '.' {
        proof {
            assert(path@.subrange(start as int, end as int) =~= seq!['.', '.']);
        }
        return None;
    }
    if end - start == 1 && path[start] == '.' {
        proof {
            assert(path@.subrange(start as int, end as int) =~= seq!['.']);
        }
        return None;
    }
    proof {
        let n = path@.subrange(start as int, end as int);
        if n == seq!['.', '.'] {
            assert(n[0] == '.' && n[1] == '.');
        }
        if n == seq!['.'] {
            assert(n[0] == '.');
        }
    }
    Some((start, end))
}

/// Whether the characters of `s` from `from` up to `to` are those of
/// `text`.
fn range_is(s: &Vec<char>, from: usize, to: usize, text: &str) -> (r: bool)
    requires
        from <= to <= s.len(),
    ensures
        r == (s@.subrange(from as int, to as int) == text@),
{
    let want = to_chars(text);
    if want.len() != to - from {
        return false;
    }
    let mut i: usize = 0;
    while i < want.len()
        invariant
            i <= want.len(),
            want.len() == to - from,
            want@ == text@,
            from <= to <= s.len(),
            forall|j: int| 0 <= j < i ==> s@[from + j] == want@[j],
        decreases want.len() - i,
    {
        if s[from + i] != want[i] {
            proof {
                assert(s@.subrange(from as int, to as int)[i as int] == s@[from + i]);
            }
            return false;
        }
        i = i + 1;
    }
    proof {
        assert(s@.subrange(from as int, to as int) =~= want@);
    }
    true
}

/// Whether the file that `path` ends in has the extension `ext`.
pub fn has_extension(path: &str, ext: &str) -> (r: bool)
    ensures
        r == (extension(path@) == Some(ext@)),
{
    let chars = to_chars(path);
    match name_bounds(&chars) {
        None => false,
        Some((from, to)) => {
            let ghost n = chars@.subrange(from as int, to as int);
            proof {
                assert(chars@.take(to as int).subrange(from as int, to as int) =~= n);
            }
            match find_last_in(&chars, from, to, '.') {
                None => false,
                Some(d) => {
                    if d == from {
                        false
                    } else {
                        proof {
                            assert(n.subrange(d - from + 1, n.len() as int) =~= chars@.subrange(
                                d + 1,
                                to as int,
                            ));
                        }
                        range_is(&chars, d + 1, to, ext)
                    }
                },
            }
        },
    }
}

/// The last place from `from` up to `to` at which `s` holds `c`.
fn find_last_in(s: &Vec<char>, from: usize, to: usize, c: char) -> (r: Option<usize>)
    requires
        from <= to <= s.len(),
    ensures
        match r {
            Some(k) => from <= k < to && last_index(s@.subrange(from as int, to as int), c) == k
                - from,
            None => last_index(s@.subrange(from as int, to as int), c) == -1,
        },
{
    let mut i: usize = to;
    let ghost n = s@.subrange(from as int, to as int);
    while i > from
        invariant
            from <= i <= to,
            to <= s.len(),
            n == s@.subrange(from as int, to as int),
            forall|j: int| i <= j < to ==> s@[j] != c,
        decreases i,
    {
        if s[i - 1] == c {
            proof {
                assert forall|j: int| i - 1 - from < j < n.len() implies n[j] != c by {
                    assert(n[j] == s@[from + j]);
                }
                lemma_last_index(n, c, i - 1 - from);
            }
            return Some(i - 1);
        }
        i = i - 1;
    }
    proof {
        assert forall|j: int| -1 < j < n.len() implies n[j] != c by {
            assert(n[j] == s@[from + j]);
        }
        lemma_last_index(n, c, -1);
    }
    None
}

/// Whether the file that `path` ends in has the stem `stem`.
pub fn has_stem(path: &str, stem: &str) -> (r: bool)
    ensures
        r == (file_stem(path@) == Some(stem@)),
{
    let chars = to_chars(path);
    match name_bounds(&chars) {
        None => false,
        Some((from, to)) => {
            let ghost n = chars@.subrange(from as int, to as int);
            match find_last_in(&chars, from, to, '.') {
                None => range_is(&chars, from, to, stem),
                Some(d) => {
                    if d == from {
                        range_is(&chars, from, to, stem)
                    } else {
                        proof {
                            assert(n.subrange(0, d - from) =~= chars@.subrange(
                                from as int,
                                d as int,
                            ));
                        }
                        range_is(&chars, from, d, stem)
                    }
                },
            }
        },
    }
}


/// `s` with every backslash turned into a slash.
pub open spec fn slashed(s: Seq<char>) -> Seq<char> {
    s.map_values(
        |c: char|
            if c == '\\' {
                '/'
            } else {
                c
            },
    )
}

/// `s` without `prefix` at its start, as often as it stands there.
pub open spec fn strip_all(s: Seq<char>, prefix: Seq<char>) -> Seq<char>
    decreases s.len(),
{
    if prefix.len() > 0 && begins_with(s, prefix) {
        strip_all(s.skip(prefix.len() as int), prefix)
    } else {
        s
    }
}

/// `s` with the root `from` replaced by `to`, where it begins with that
/// root.
pub open spec fn rerooted(s: Seq<char>, from: Seq<char>, to: Seq<char>) -> Seq<char> {
    if begins_with(s, from) {
        to + strip_all(s, from)
    } else {
        s
    }
}

/// `s` with every `.s` turned into a dot, from left to right: an extension
/// loses the mark of compression.
pub open spec fn unmarked(s: Seq<char>) -> Seq<char>
    decreases s.len(),
{
    if s.len() == 0 {
        s
    } else if s.len() >= 2 && s[0] == '.' && s[1] == 's' {
        seq!['.'] + unmarked(s.skip(2))
    } else {
        seq![s[0]] + unmarked(s.skip(1))
    }
}

/// The canonical path of `path`: slashes for backslashes; then, one root
/// after the other, the roots of the base game and of its updates taken
/// away and the roots of the add-on content replaced by `Aoc`; then the
/// marks of compression dropped.
pub open spec fn canonical(path: Seq<char>) -> Seq<char> {
    let clean = slashed(path);
    let base_upper = rerooted(clean, "Content/"@, ""@);
    let base_lower = rerooted(base_upper, "content/"@, ""@);
    let titles = rerooted(base_lower, "atmosphere/titles/"@, ""@);
    let contents = rerooted(titles, "atmosphere/contents/"@, ""@);
    let game_root = rerooted(contents, "01007EF00011E000/romfs/"@, ""@);
    let update_one = rerooted(game_root, "01007EF00011E001/romfs"@, "Aoc/0010"@);
    let update_two = rerooted(update_one, "01007EF00011E002/romfs"@, "Aoc/0010"@);
    let addon_one = rerooted(update_two, "01007EF00011F001/romfs"@, "Aoc/0010"@);
    let addon_two = rerooted(addon_one, "01007EF00011F002/romfs"@, "Aoc/0010"@);
    let romfs = rerooted(addon_two, "romfs/"@, ""@);
    let aoc_content = rerooted(romfs, "aoc/content"@, "Aoc"@);
    let aoc = rerooted(aoc_content, "aoc"@, "Aoc"@);
    unmarked(aoc)
}

/// The characters with every backslash turned into a slash.
fn slash(s: &Vec<char>) -> (out: Vec<char>)
    ensures
        out@ == slashed(s@),
{
    let mut out: Vec<char> = Vec::new();
    let mut i: usize = 0;
    while i < s.len()
        invariant
            i <= s.len(),
            out.len() == i,
            forall|j: int| 0 <= j < i ==> out@[j] == slashed(s@)[j],
        decreases s.len() - i,
    {
        if s[i] == '\\' {
            out.push('/');
        } else {
            out.push(s[i]);
        }
        i = i + 1;
    }
    proof {
        assert(out@ =~= slashed(s@));
    }
    out
}

/// The characters with the root `from` replaced by `to`.
fn reroot(s: Vec<char>, from: &str, to: &str) -> (out: Vec<char>)
    ensures
        out@ == rerooted(s@, from@, to@),
{
    let root = to_chars(from);
    proof {
        assert(s@.skip(0) =~= s@);
    }
    if !begins_at(&s, 0, &root) {
        return s;
    }
    let mut at: usize = 0;
    while root.len() > 0 && begins_at(&s, at, &root)
        invariant
            at <= s.len(),
            root@ == from@,
            strip_all(s@, from@) == strip_all(s@.skip(at as int), from@),
        decreases s.len() - at,
    {
        proof {
            assert(s@.skip(at as int).skip(root.len() as int) =~= s@.skip(at + root.len()));
        }
        at = at + root.len();
    }
    let mut out = to_chars(to);
    let mut i: usize = at;
    while i < s.len()
        invariant
            at <= i <= s.len(),
            out@ == to@ + s@.subrange(at as int, i as int),
        decreases s.len() - i,
    {
        out.push(s[i]);
        proof {
            assert(s@.subrange(at as int, i + 1) =~= s@.subrange(at as int, i as int).push(
                s@[i as int],
            ));
        }
        i = i + 1;
    }
    proof {
        assert(s@.subrange(at as int, s.len() as int) =~= s@.skip(at as int));
    }
    out
}

/// The characters with every `.s` turned into a dot.
fn unmark(s: &Vec<char>) -> (out: Vec<char>)
    ensures
        out@ == unmarked(s@),
{
    let mut out: Vec<char> = Vec::new();
    let mut i: usize = 0;
    proof {
        assert(s@.skip(0) =~= s@);
        assert(out@ + unmarked(s@) =~= unmarked(s@));
    }
    while i < s.len()
        invariant
            i <= s.len(),
            out@ + unmarked(s@.skip(i as int)) == unmarked(s@),
        decreases s.len() - i,
    {
        let ghost rest = s@.skip(i as int);
        let ghost before = out@;
        if s[i] == '.' && i + 1 < s.len() && s[i + 1] == 's' {
            out.push('.');
            proof {
                assert(rest[0] == '.' && rest[1] == 's');
                assert(rest.skip(2) =~= s@.skip(i + 2));
                assert(out@ + unmarked(rest.skip(2)) =~= before + (seq!['.'] + unmarked(
                    rest.skip(2),
                )));
            }
            i = i + 2;
        } else {
            out.push(s[i]);
            proof {
                assert(rest[0] == s@[i as int]);
                if rest.len() >= 2 {
                    assert(rest[1] == s@[i + 1]);
                }
                assert(rest.skip(1) =~= s@.skip(i + 1));
                assert(out@ + unmarked(rest.skip(1)) =~= before + (seq![rest[0]] + unmarked(
                    rest.skip(1),
                )));
            }
            i = i + 1;
        }
    }
    proof {
        assert(out@ + unmarked(s@.skip(i as int)) =~= out@);
    }
    out
}

/// The canonical path of `path`, under which a packaged mod stores the
/// file and a manifest lists it.
pub fn canonicalize(path: &str) -> (r: String)
    ensures
        r@ == canonical(path@),
{
    let p = slash(&to_chars(path));
    let p = reroot(p, "Content/", "");
    let p = reroot(p, "content/", "");
    let p = reroot(p, "atmosphere/titles/", "");
    let p = reroot(p, "atmosphere/contents/", "");
    let p = reroot(p, "01007EF00011E000/romfs/", "");
    let p = reroot(p, "01007EF00011E001/romfs", "Aoc/0010");
    let p = reroot(p, "01007EF00011E002/romfs", "Aoc/0010");
    let p = reroot(p, "01007EF00011F001/romfs", "Aoc/0010");
    let p = reroot(p, "01007EF00011F002/romfs", "Aoc/0010");
    let p = reroot(p, "romfs/", "");
    let p = reroot(p, "aoc/content", "Aoc");
    let p = reroot(p, "aoc", "Aoc");
    from_chars(&unmark(&p))
}


/// The characters of the extension of the file that `path` ends in.
pub fn extension_chars(path: &str) -> (r: Option<Vec<char>>)
    ensures
        match r {
            Some(e) => extension(path@) == Some(e@),
            None => extension(path@) is None,
        },
{
    let chars = to_chars(path);
    match name_bounds(&chars) {
        None => None,
        Some((from, to)) => {
            let ghost n = chars@.subrange(from as int, to as int);
            match find_last_in(&chars, from, to, '.') {
                None => None,
                Some(d) => {
                    if d == from {
                        None
                    } else {
                        let mut out: Vec<char> = Vec::new();
                        let mut i: usize = d + 1;
                        while i < to
                            invariant
                                d + 1 <= i <= to,
                                to <= chars.len(),
                                out@ == chars@.subrange(d + 1, i as int),
                            decreases to - i,
                        {
                            out.push(chars[i]);
                            proof {
                                assert(chars@.subrange(d + 1, i + 1) =~= chars@.subrange(
                                    d + 1,
                                    i as int,
                                ).push(chars@[i as int]));
                            }
                            i = i + 1;
                        }
                        proof {
                            assert(n.subrange(d - from + 1, n.len() as int) =~= chars@.subrange(
                                d + 1,
                                to as int,
                            ));
                        }
                        Some(out)
                    }
                },
            }
        },
    }
}


/// Whether the stem of the file that `path` ends in begins with `prefix`.
pub fn stem_begins(path: &str, prefix: &str) -> (r: bool)
    ensures
        r == match file_stem(path@) {
            Some(stem) => begins_with(stem, prefix@),
            None => false,
        },
{
    let chars = to_chars(path);
    let want = to_chars(prefix);
    match name_bounds(&chars) {
        None => false,
        Some((from, to)) => {
            let ghost n = chars@.subrange(from as int, to as int);
            let end = match find_last_in(&chars, from, to, '.') {
                None => to,
                Some(d) => if d == from {
                    to
                } else {
                    d
                },
            };
            let ghost stem = chars@.subrange(from as int, end as int);
            proof {
                assert(n.subrange(0, end - from) =~= stem);
                assert(n.subrange(0, n.len() as int) =~= n);
            }
            if want.len() > end - from {
                return false;
            }
            let r = begins_at(&chars, from, &want);
            proof {
                assert(chars@.skip(from as int).take(want.len() as int) =~= stem.take(
                    want.len() as int,
                ));
            }
            r
        },
    }
}

/// The kinds of resource that are read into a typed structure and merged
/// entry by entry. A file of no kind is merged as a whole.
#[derive(Debug, Clone, Copy, PartialEq, Eq, Structural)]
pub enum ResourceKind {
    DropTable,
    UMii,
    RagdollConfig,
    SaveData,
    QuestProduct,
    Tips,
}

/// Whether the kind `kind` claims the path `path`.
pub open spec fn claims(kind: ResourceKind, path: Seq<char>) -> bool {
    match kind {
        ResourceKind::DropTable => extension(path) == Some("bdrop"@),
        ResourceKind::UMii => extension(path) == Some("bumii"@),
        ResourceKind::RagdollConfig => extension(path) == Some("brgconfig"@),
        ResourceKind::SaveData => extension(path) == Some("bgsvdata"@),
        ResourceKind::QuestProduct => file_stem(path) == Some("QuestProduct"@) && (extension(
            path,
        ) == Some("sbquestpack"@) || extension(path) == Some("bquestpack"@)),
        ResourceKind::Tips => (extension(path) == Some("sbyml"@) || extension(path) == Some(
            "byml"@,
        )) && match file_stem(path) {
            Some(stem) => begins_with(stem, "Tips"@),
            None => false,
        },
    }
}

/// The kind that `path` is read as: the first kind that claims it, or none.
pub open spec fn kind_of(path: Seq<char>) -> Option<ResourceKind> {
    if claims(ResourceKind::DropTable, path) {
        Some(ResourceKind::DropTable)
    } else if claims(ResourceKind::UMii, path) {
        Some(ResourceKind::UMii)
    } else if claims(ResourceKind::RagdollConfig, path) {
        Some(ResourceKind::RagdollConfig)
    } else if claims(ResourceKind::SaveData, path) {
        Some(ResourceKind::SaveData)
    } else if claims(ResourceKind::QuestProduct, path) {
        Some(ResourceKind::QuestProduct)
    } else if claims(ResourceKind::Tips, path) {
        Some(ResourceKind::Tips)
    } else {
        None
    }
}

/// The kind of resource that `path` is read as, if any kind claims it.
pub fn resource_kind(path: &str) -> (r: Option<ResourceKind>)
    ensures
        r == kind_of(path@),
{
    if has_extension(path, "bdrop") {
        Some(ResourceKind::DropTable)
    } else if has_extension(path, "bumii") {
        Some(ResourceKind::UMii)
    } else if has_extension(path, "brgconfig") {
        Some(ResourceKind::RagdollConfig)
    } else if has_extension(path, "bgsvdata") {
        Some(ResourceKind::SaveData)
    } else if has_stem(path, "QuestProduct") && (has_extension(path, "sbquestpack")
        || has_extension(path, "bquestpack")) {
        Some(ResourceKind::QuestProduct)
    } else if (has_extension(path, "sbyml") || has_extension(path, "byml")) && stem_begins(
        path,
        "Tips",
    ) {
        Some(ResourceKind::Tips)
    } else {
        None
    }
}

/// Dispatch does not depend on the order in which the kinds are asked: a
/// path that a kind claims is claimed by no other kind, and is read as that
/// kind.
pub proof fn lemma_one_claim(path: Seq<char>, kind: ResourceKind, other: ResourceKind)
    requires
        claims(kind, path),
    ensures
        kind_of(path) == Some(kind),
        claims(other, path) ==> other == kind,
{
    reveal_strlit("bdrop");
    reveal_strlit("bumii");
    reveal_strlit("brgconfig");
    reveal_strlit("bgsvdata");
    reveal_strlit("sbyml");
    reveal_strlit("byml");
    reveal_strlit("QuestProduct");
    reveal_strlit("Tips");
    reveal_strlit("sbquestpack");
    reveal_strlit("bquestpack");
    assert("sbquestpack"@.len() != "bdrop"@.len());
    assert("sbquestpack"@.len() != "bumii"@.len());
    assert("sbquestpack"@.len() != "brgconfig"@.len());
    assert("sbquestpack"@.len() != "bgsvdata"@.len());
    assert("sbquestpack"@.len() != "sbyml"@.len());
    assert("sbquestpack"@.len() != "byml"@.len());
    assert("bquestpack"@.len() != "bdrop"@.len());
    assert("bquestpack"@.len() != "bumii"@.len());
    assert("bquestpack"@.len() != "brgconfig"@.len());
    assert("bquestpack"@.len() != "bgsvdata"@.len());
    assert("bquestpack"@.len() != "sbyml"@.len());
    assert("bquestpack"@.len() != "byml"@.len());
    assert("bdrop"@[1] != "bumii"@[1]);
    assert("bdrop"@.len() != "brgconfig"@.len());
    assert("bdrop"@.len() != "bgsvdata"@.len());
    assert("bdrop"@.len() != "byml"@.len());
    assert("bdrop"@[0] != "sbyml"@[0]);
    assert("bumii"@.len() != "brgconfig"@.len());
    assert("bumii"@.len() != "bgsvdata"@.len());
    assert("bumii"@.len() != "byml"@.len());
    assert("bumii"@[0] != "sbyml"@[0]);
    assert("brgconfig"@.len() != "bgsvdata"@.len());
    assert("brgconfig"@.len() != "byml"@.len());
    assert("brgconfig"@.len() != "sbyml"@.len());
    assert("bgsvdata"@.len() != "byml"@.len());
    assert("bgsvdata"@.len() != "sbyml"@.len());
    if file_stem(path) == Some("QuestProduct"@) {
        let stem = "QuestProduct"@;
        assert(stem.take(4)[0] == 'Q');
        assert("Tips"@[0] == 'T');
        assert(!begins_with(stem, "Tips"@));
    }
}

} // verus!
