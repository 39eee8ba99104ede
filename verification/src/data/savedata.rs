//! The save-data format description: a header that says which save file is
//! meant, and the set of flags that the file holds, ordered by their hashes.

use crate::aamp::{hash_name, name_hash};
use crate::byml::{
    array_field, array_node, bool_field, entry, get_array, get_bool, get_int, get_string,
    hash_node, int_field, lemma_field_at, string_field, view_array, view_hash, Byml,
    BymlView,
};
use crate::datum::Datum;
use crate::error::{read_as, UKError};
use crate::util::ascending::{ascending, sorted_collected, sorted_diff, sorted_merge};
use crate::util::collections::{
    keyed, lemma_collected_live_items, live_items, with_keys, Keyed, SortedDeleteSet,
};
use crate::util::delta::is_live;
use vstd::prelude::*;

verus! {

/// Which save file a description is about. Two descriptions with different
/// headers are about different files and are never combined.
#[derive(Debug)]
pub struct SaveDataHeader {
    pub is_common: bool,
    pub is_common_at_same_account: bool,
    pub is_save_secure_code: bool,
    pub file_name: String,
}

/// The mathematical value of a header.
pub struct HeaderView {
    pub is_common: bool,
    pub is_common_at_same_account: bool,
    pub is_save_secure_code: bool,
    pub file_name: Seq<char>,
}

impl DeepView for SaveDataHeader {
    type V = HeaderView;

    open spec fn deep_view(&self) -> HeaderView {
        HeaderView {
            is_common: self.is_common,
            is_common_at_same_account: self.is_common_at_same_account,
            is_save_secure_code: self.is_save_secure_code,
            file_name: self.file_name@,
        }
    }
}

/// Two headers are equal where all their fields are.
impl PartialEq for SaveDataHeader {
    fn eq(&self, other: &Self) -> (r: bool) {
        self.same(other)
    }
}

impl vstd::std_specs::cmp::PartialEqSpecImpl for SaveDataHeader {
    open spec fn obeys_eq_spec() -> bool {
        true
    }

    open spec fn eq_spec(&self, other: &Self) -> bool {
        self.deep_view() == other.deep_view()
    }
}

impl Datum for SaveDataHeader {
    fn same(&self, other: &Self) -> (r: bool) {
        self.is_common == other.is_common && self.is_common_at_same_account
            == other.is_common_at_same_account && self.is_save_secure_code
            == other.is_save_secure_code && self.file_name == other.file_name
    }

    fn dup(&self) -> (r: Self) {
        SaveDataHeader {
            is_common: self.is_common,
            is_common_at_same_account: self.is_common_at_same_account,
            is_save_secure_code: self.is_save_secure_code,
            file_name: self.file_name.clone(),
        }
    }
}

/// The header that a node holds: the node must be a map with the three
/// bools and the file name. The first thing found wanting decides the
/// failure.
pub open spec fn header_of(v: BymlView) -> Result<HeaderView, UKError> {
    match view_hash(v) {
        Err(e) => Err(e),
        Ok(h) => match bool_field(
            h,
            "IsCommon"@,
            UKError::MissingBymlKey("bgsvdata header missing IsCommon"),
        ) {
            Err(e) => Err(e),
            Ok(a) => match bool_field(
                h,
                "IsCommonAtSameAccount"@,
                UKError::MissingBymlKey("bgsvdata header missing IsCommonAtSameAccount"),
            ) {
                Err(e) => Err(e),
                Ok(b) => match bool_field(
                    h,
                    "IsSaveSecureCode"@,
                    UKError::MissingBymlKey("bgsvdata header missing IsSaveSecureCode"),
                ) {
                    Err(e) => Err(e),
                    Ok(c) => match string_field(
                        h,
                        "file_name"@,
                        UKError::MissingBymlKey("bgsvdata header missing file_name"),
                    ) {
                        Err(e) => Err(e),
                        Ok(n) => Ok(
                            HeaderView {
                                is_common: a,
                                is_common_at_same_account: b,
                                is_save_secure_code: c,
                                file_name: n,
                            },
                        ),
                    },
                },
            },
        },
    }
}

/// The node that a header is written out as.
pub open spec fn header_node(h: HeaderView) -> BymlView {
    BymlView::Hash(
        seq![
            ("IsCommon"@, BymlView::Bool(h.is_common)),
            ("IsCommonAtSameAccount"@, BymlView::Bool(h.is_common_at_same_account)),
            ("IsSaveSecureCode"@, BymlView::Bool(h.is_save_secure_code)),
            ("file_name"@, BymlView::String(h.file_name)),
        ],
    )
}

impl SaveDataHeader {
    /// Reads a header from a node.
    pub fn try_from(val: &Byml) -> (r: Result<Self, UKError>)
        ensures
            read_as(r) == header_of(val.tree()),
    {
        let hash = val.as_hash()?;
        let is_common = get_bool(
            hash,
            "IsCommon",
            UKError::MissingBymlKey("bgsvdata header missing IsCommon"),
        )?;
        let is_common_at_same_account = get_bool(
            hash,
            "IsCommonAtSameAccount",
            UKError::MissingBymlKey("bgsvdata header missing IsCommonAtSameAccount"),
        )?;
        let is_save_secure_code = get_bool(
            hash,
            "IsSaveSecureCode",
            UKError::MissingBymlKey("bgsvdata header missing IsSaveSecureCode"),
        )?;
        let file_name = get_string(
            hash,
            "file_name",
            UKError::MissingBymlKey("bgsvdata header missing file_name"),
        )?;
        Ok(SaveDataHeader { is_common, is_common_at_same_account, is_save_secure_code, file_name })
    }

    /// The node that the header is written out as.
    pub fn to_byml(&self) -> (r: Byml)
        ensures
            r.tree() == header_node(self.deep_view()),
    {
        let mut entries: Vec<(String, Byml)> = Vec::new();
        entries.push(entry("IsCommon", Byml::Bool(self.is_common)));
        entries.push(entry("IsCommonAtSameAccount", Byml::Bool(self.is_common_at_same_account)));
        entries.push(entry("IsSaveSecureCode", Byml::Bool(self.is_save_secure_code)));
        entries.push(entry("file_name", Byml::String(self.file_name.clone())));
        proof {
            assert(entries.deep_view() =~= header_node(self.deep_view())->Hash_0);
        }
        hash_node(entries)
    }
}

/// A header that was written out is read back as it was.
pub proof fn lemma_header_round_trip(h: HeaderView)
    ensures
        header_of(header_node(h)) == Ok::<HeaderView, UKError>(h),
{
    reveal_strlit("IsCommon");
    reveal_strlit("IsCommonAtSameAccount");
    reveal_strlit("IsSaveSecureCode");
    reveal_strlit("file_name");
    let s = header_node(h)->Hash_0;
    assert("IsCommon"@.len() != "IsCommonAtSameAccount"@.len());
    assert("IsCommon"@.len() != "IsSaveSecureCode"@.len());
    assert("IsCommon"@.len() != "file_name"@.len());
    assert("IsCommonAtSameAccount"@.len() != "IsSaveSecureCode"@.len());
    assert("IsCommonAtSameAccount"@.len() != "file_name"@.len());
    assert("IsSaveSecureCode"@.len() != "file_name"@.len());
    lemma_field_at(s, 0, UKError::MissingBymlKey("bgsvdata header missing IsCommon"));
    lemma_field_at(s, 1, UKError::MissingBymlKey("bgsvdata header missing IsCommonAtSameAccount"));
    lemma_field_at(s, 2, UKError::MissingBymlKey("bgsvdata header missing IsSaveSecureCode"));
    lemma_field_at(s, 3, UKError::MissingBymlKey("bgsvdata header missing file_name"));
}

/// A flag of the save data: its name, and the hash by which it is known.
/// Two flags with the same hash are the same flag to a set.
#[derive(Debug)]
pub struct Flag(String, i32);

/// The mathematical value of a flag.
pub struct FlagView {
    pub name: Seq<char>,
    pub hash: i32,
}

impl DeepView for Flag {
    type V = FlagView;

    closed spec fn deep_view(&self) -> FlagView {
        FlagView { name: self.0@, hash: self.1 }
    }
}

impl Datum for Flag {
    fn same(&self, other: &Self) -> (r: bool) {
        self.0 == other.0 && self.1 == other.1
    }

    fn dup(&self) -> (r: Self) {
        Flag(self.0.clone(), self.1)
    }
}

/// Two flags are equal where they have the same hash, which makes them one
/// flag to a set, whatever their names.
impl PartialEq for Flag {
    fn eq(&self, other: &Self) -> (r: bool) {
        self.1 == other.1
    }
}

impl vstd::std_specs::cmp::PartialEqSpecImpl for Flag {
    open spec fn obeys_eq_spec() -> bool {
        true
    }

    open spec fn eq_spec(&self, other: &Self) -> bool {
        self.deep_view().hash == other.deep_view().hash
    }
}

impl Keyed for Flag {
    type Key = i32;

    open spec fn key_of(v: FlagView) -> i32 {
        v.hash
    }

    fn key(&self) -> (k: i32) {
        self.1
    }
}

/// The hash of a flag with the name `name`: the checksum of the name, read
/// as a signed number.
pub open spec fn flag_hash(name: Seq<char>) -> i32 {
    name_hash(name) as i32
}

/// The flag that a node holds: the node must be a map with the name and
/// the hash.
pub open spec fn flag_of(v: BymlView) -> Result<FlagView, UKError> {
    match view_hash(v) {
        Err(e) => Err(e),
        Ok(h) => match string_field(
            h,
            "DataName"@,
            UKError::MissingBymlKey("bgsvdata missing DataName"),
        ) {
            Err(e) => Err(e),
            Ok(name) => match int_field(
                h,
                "HashValue"@,
                UKError::MissingBymlKey("bgsvdata missing HashValue"),
            ) {
                Err(e) => Err(e),
                Ok(hash) => Ok(FlagView { name, hash }),
            },
        },
    }
}

/// The node that a flag is written out as.
pub open spec fn flag_node(f: FlagView) -> BymlView {
    BymlView::Hash(
        seq![("DataName"@, BymlView::String(f.name)), ("HashValue"@, BymlView::Int(f.hash))],
    )
}

impl Flag {
    /// The flag with the name `string`, under the hash of the name.
    pub fn from(string: String) -> (r: Self)
        ensures
            r.deep_view() == (FlagView { name: string@, hash: flag_hash(string@) }),
    {
        let hash = #[verifier::truncate]
        (hash_name(string.as_str()) as i32);
        Flag(string, hash)
    }

    /// The flag with the name `string`, under the hash of the name.
    pub fn from_str(string: &str) -> (r: Self)
        ensures
            r.deep_view() == (FlagView { name: string@, hash: flag_hash(string@) }),
    {
        let hash = #[verifier::truncate]
        (hash_name(string) as i32);
        Flag(string.to_owned(), hash)
    }

    /// The flag's name.
    pub fn name(&self) -> (r: &String)
        ensures
            r@ == self.deep_view().name,
    {
        &self.0
    }

    /// The flag's hash.
    pub fn hash(&self) -> (r: i32)
        ensures
            r == self.deep_view().hash,
    {
        self.1
    }

    /// Whether the flag comes before `other` in a set: whether its hash is
    /// the smaller one.
    pub fn precedes(&self, other: &Self) -> (r: bool)
        ensures
            r == (self.deep_view().hash < other.deep_view().hash),
    {
        self.1 < other.1
    }

    /// Reads a flag from a node.
    pub fn try_from(byml: &Byml) -> (r: Result<Self, UKError>)
        ensures
            read_as(r) == flag_of(byml.tree()),
    {
        let hash = byml.as_hash()?;
        let name = get_string(
            hash,
            "DataName",
            UKError::MissingBymlKey("bgsvdata missing DataName"),
        )?;
        let value = get_int(
            hash,
            "HashValue",
            UKError::MissingBymlKey("bgsvdata missing HashValue"),
        )?;
        Ok(Flag(name, value))
    }

    /// The node that the flag is written out as.
    pub fn to_byml(&self) -> (r: Byml)
        ensures
            r.tree() == flag_node(self.deep_view()),
    {
        let mut entries: Vec<(String, Byml)> = Vec::new();
        entries.push(entry("DataName", Byml::String(self.0.clone())));
        entries.push(entry("HashValue", Byml::Int(self.1)));
        proof {
            assert(entries.deep_view() =~= flag_node(self.deep_view())->Hash_0);
        }
        hash_node(entries)
    }
}

/// A flag that was written out is read back as it was.
pub proof fn lemma_flag_round_trip(f: FlagView)
    ensures
        flag_of(flag_node(f)) == Ok::<FlagView, UKError>(f),
{
    reveal_strlit("DataName");
    reveal_strlit("HashValue");
    let s = flag_node(f)->Hash_0;
    assert("DataName"@.len() != "HashValue"@.len());
    lemma_field_at(s, 0, UKError::MissingBymlKey("bgsvdata missing DataName"));
    lemma_field_at(s, 1, UKError::MissingBymlKey("bgsvdata missing HashValue"));
}


/// The description of a save file: its header and its flags. In a diff,
/// the flags may hold tombstones.
#[derive(Debug)]
pub struct SaveData {
    pub header: SaveDataHeader,
    pub flags: SortedDeleteSet<Flag>,
}

/// The mathematical value of a save-file description.
pub struct SaveDataView {
    pub header: HeaderView,
    pub flags: Seq<(i32, Option<FlagView>)>,
}

impl DeepView for SaveData {
    type V = SaveDataView;

    open spec fn deep_view(&self) -> SaveDataView {
        SaveDataView { header: self.header.deep_view(), flags: self.flags@ }
    }
}

/// Two descriptions are equal where they have the same header and the same
/// flags, names and all.
impl PartialEq for SaveData {
    fn eq(&self, other: &Self) -> (r: bool) {
        self.same(other)
    }
}

impl vstd::std_specs::cmp::PartialEqSpecImpl for SaveData {
    open spec fn obeys_eq_spec() -> bool {
        true
    }

    open spec fn eq_spec(&self, other: &Self) -> bool {
        self.deep_view() == other.deep_view()
    }
}

impl Datum for SaveData {
    fn same(&self, other: &Self) -> (r: bool) {
        self.header.same(&other.header) && self.flags.same(&other.flags)
    }

    fn dup(&self) -> (r: Self) {
        SaveData { header: self.header.dup(), flags: self.flags.dup() }
    }
}

/// The flags that the nodes hold, in order, or the failure of the first
/// node that holds none.
pub open spec fn flags_of(items: Seq<BymlView>) -> Result<Seq<FlagView>, UKError>
    decreases items.len(),
{
    if items.len() == 0 {
        Ok(Seq::empty())
    } else {
        match flags_of(items.drop_last()) {
            Err(e) => Err(e),
            Ok(flags) => match flag_of(items.last()) {
                Err(e) => Err(e),
                Ok(f) => Ok(flags.push(f)),
            },
        }
    }
}

/// The description that a node holds: a map with a two-item array under
/// `file_list`, the header and the array of the flags. The first thing
/// found wanting decides the failure.
pub open spec fn savedata_of(v: BymlView) -> Result<SaveDataView, UKError> {
    match view_hash(v) {
        Err(e) => Err(e),
        Ok(h) => match array_field(
            h,
            "file_list"@,
            UKError::MissingBymlKey("bgsvdata missing file_list"),
        ) {
            Err(e) => Err(e),
            Ok(list) => if list.len() < 1 {
                Err(UKError::MissingBymlKey("bgsvdata missing header"))
            } else {
                match header_of(list[0]) {
                    Err(e) => Err(e),
                    Ok(header) => if list.len() < 2 {
                        Err(UKError::MissingBymlKey("bgsvdata missing flag array"))
                    } else {
                        match view_array(list[1]) {
                            Err(e) => Err(e),
                            Ok(items) => match flags_of(items) {
                                Err(e) => Err(e),
                                Ok(flags) => Ok(
                                    SaveDataView {
                                        header,
                                        flags: sorted_collected::<i32, FlagView>(
                                            with_keys::<Flag>(flags),
                                        ),
                                    },
                                ),
                            },
                        }
                    },
                }
            },
        },
    }
}

/// The facts about the saving machine that every description is written
/// out with.
pub open spec fn save_info_node() -> BymlView {
    BymlView::Array(
        seq![
            BymlView::Hash(
                seq![
                    ("directory_num"@, BymlView::Int(8)),
                    ("is_build_machine"@, BymlView::Bool(true)),
                    ("revision"@, BymlView::Int(18203)),
                ],
            ),
        ],
    )
}

/// The node that a description is written out as: the header and the live
/// flags in the order of their hashes, and the facts about the saving
/// machine. No tombstone is written.
pub open spec fn savedata_node(s: SaveDataView) -> BymlView {
    BymlView::Hash(
        seq![
            (
                "file_list"@,
                BymlView::Array(
                    seq![
                        header_node(s.header),
                        BymlView::Array(
                            live_items(s.flags).map_values(|f: FlagView| flag_node(f)),
                        ),
                    ],
                ),
            ),
            ("save_info"@, save_info_node()),
        ],
    )
}

/// The diff between two descriptions of one save file.
pub open spec fn savedata_diff(base: SaveDataView, other: SaveDataView) -> SaveDataView {
    SaveDataView {
        header: base.header,
        flags: sorted_diff::<i32, FlagView>(base.flags, other.flags),
    }
}

/// A diff applied to a description of the same save file.
pub open spec fn savedata_merge(base: SaveDataView, diff: SaveDataView) -> SaveDataView {
    SaveDataView {
        header: base.header,
        flags: sorted_merge::<i32, FlagView>(base.flags, diff.flags),
    }
}

/// A failure among the first nodes is the failure of the whole.
proof fn lemma_flags_failure_stays(items: Seq<BymlView>, n: int)
    requires
        0 <= n <= items.len(),
        flags_of(items.take(n)) is Err,
    ensures
        flags_of(items) == flags_of(items.take(n)),
    decreases items.len() - n,
{
    if n < items.len() {
        assert(items.take(n + 1).drop_last() =~= items.take(n));
        lemma_flags_failure_stays(items, n + 1);
    } else {
        assert(items.take(n) =~= items);
    }
}

/// The flags that the nodes hold.
fn read_flags(items: &Vec<Byml>) -> (r: Result<Vec<Flag>, UKError>)
    ensures
        read_as(r) == flags_of(items.deep_view()),
{
    let mut out: Vec<Flag> = Vec::new();
    let mut i: usize = 0;
    let ghost s = items.deep_view();
    proof {
        assert(out.deep_view() =~= Seq::empty());
    }
    while i < items.len()
        invariant
            i <= items.len(),
            s == items.deep_view(),
            flags_of(s.take(i as int)) == Ok::<Seq<FlagView>, UKError>(out.deep_view()),
        decreases items.len() - i,
    {
        proof {
            assert(s.take(i + 1).drop_last() =~= s.take(i as int));
            assert(s.take(i + 1).last() == s[i as int]);
        }
        match Flag::try_from(&items[i]) {
            Err(e) => {
                proof {
                    lemma_flags_failure_stays(s, i + 1);
                }
                return Err(e);
            },
            Ok(f) => {
                let ghost before = out.deep_view();
                out.push(f);
                proof {
                    assert(out.deep_view() =~= before.push(f.deep_view()));
                }
            },
        }
        i = i + 1;
    }
    proof {
        assert(s.take(i as int) =~= s);
    }
    Ok(out)
}

impl SaveData {
    /// Reads a description from a node.
    pub fn try_from(val: &Byml) -> (r: Result<Self, UKError>)
        ensures
            read_as(r) == savedata_of(val.tree()),
    {
        let hash = val.as_hash()?;
        let array = get_array(
            hash,
            "file_list",
            UKError::MissingBymlKey("bgsvdata missing file_list"),
        )?;
        if array.len() < 1 {
            return Err(UKError::MissingBymlKey("bgsvdata missing header"));
        }
        let header = SaveDataHeader::try_from(&array[0])?;
        if array.len() < 2 {
            return Err(UKError::MissingBymlKey("bgsvdata missing flag array"));
        }
        let items = array[1].as_array()?;
        let flags = read_flags(items)?;
        Ok(SaveData { header, flags: SortedDeleteSet::from_items(flags) })
    }

    /// The node that the description is written out as.
    pub fn to_byml(&self) -> (r: Byml)
        ensures
            r.tree() == savedata_node(self.deep_view()),
    {
        let flags = self.flags.items();
        let mut nodes: Vec<Byml> = Vec::new();
        let mut i: usize = 0;
        while i < flags.len()
            invariant
                i <= flags.len(),
                nodes.len() == i,
                forall|j: int|
                    0 <= j < i ==> #[trigger] nodes.deep_view()[j] == flag_node(
                        flags.deep_view()[j],
                    ),
            decreases flags.len() - i,
        {
            let ghost before = nodes.deep_view();
            let node = flags[i].to_byml();
            nodes.push(node);
            proof {
                assert(nodes.deep_view() =~= before.push(flag_node(flags.deep_view()[i as int])));
            }
            i = i + 1;
        }
        proof {
            assert(nodes.deep_view() =~= live_items(self.flags@).map_values(
                |f: FlagView| flag_node(f),
            ));
        }
        let mut list: Vec<Byml> = Vec::new();
        list.push(self.header.to_byml());
        list.push(array_node(nodes));
        let mut info: Vec<(String, Byml)> = Vec::new();
        info.push(entry("directory_num", Byml::Int(8)));
        info.push(entry("is_build_machine", Byml::Bool(true)));
        info.push(entry("revision", Byml::Int(18203)));
        let mut infos: Vec<Byml> = Vec::new();
        infos.push(hash_node(info));
        let mut entries: Vec<(String, Byml)> = Vec::new();
        entries.push(entry("file_list", array_node(list)));
        entries.push(entry("save_info", array_node(infos)));
        proof {
            assert(info.deep_view() =~= save_info_node()->Array_0[0]->Hash_0);
            assert(infos.deep_view() =~= save_info_node()->Array_0);
            assert(list.deep_view() =~= savedata_node(self.deep_view())->Hash_0[0].1->Array_0);
            assert(entries.deep_view() =~= savedata_node(self.deep_view())->Hash_0);
        }
        hash_node(entries)
    }

    /// Whether `path` is the path of a save-file description: whether its
    /// file has the extension `bgsvdata`.
    pub fn path_matches(path: &str) -> (r: bool)
        ensures
            r == (crate::resource::extension(path@) == Some("bgsvdata"@)),
    {
        crate::resource::has_extension(path, "bgsvdata")
    }
}

/// Flags that were written out are read back as they were.
pub proof fn lemma_flags_round_trip(flags: Seq<FlagView>)
    ensures
        flags_of(flags.map_values(|f: FlagView| flag_node(f))) == Ok::<Seq<FlagView>, UKError>(
            flags,
        ),
    decreases flags.len(),
{
    let nodes = flags.map_values(|f: FlagView| flag_node(f));
    if flags.len() == 0 {
        assert(flags =~= Seq::empty());
    } else {
        lemma_flags_round_trip(flags.drop_last());
        lemma_flag_round_trip(flags.last());
        assert(nodes.drop_last() =~= flags.drop_last().map_values(|f: FlagView| flag_node(f)));
        assert(nodes.last() == flag_node(flags.last()));
        assert(flags.drop_last().push(flags.last()) =~= flags);
    }
}

/// A materialized description that was written out is read back as it
/// was.
pub proof fn lemma_savedata_round_trip(s: SaveDataView)
    requires
        ascending::<i32, Option<FlagView>>(s.flags),
        keyed::<Flag>(s.flags),
        is_live(s.flags),
    ensures
        savedata_of(savedata_node(s)) == Ok::<SaveDataView, UKError>(s),
{
    reveal_strlit("file_list");
    reveal_strlit("save_info");
    let h = savedata_node(s)->Hash_0;
    lemma_field_at(h, 0, UKError::MissingBymlKey("bgsvdata missing file_list"));
    lemma_header_round_trip(s.header);
    lemma_flags_round_trip(live_items(s.flags));
    lemma_collected_live_items::<Flag>(s.flags);
}

/// The diff/merge identity for save data: merging the diff from `base` to
/// `other` onto `base` gives `other`.
pub proof fn lemma_savedata_merge_of_diff(base: SaveDataView, other: SaveDataView)
    requires
        base.header == other.header,
        ascending::<i32, Option<FlagView>>(base.flags),
        ascending::<i32, Option<FlagView>>(other.flags),
        is_live(other.flags),
    ensures
        savedata_merge(base, savedata_diff(base, other)) == other,
{
    crate::util::ascending::lemma_sorted_merge_of_diff_is_other::<i32, FlagView>(
        base.flags,
        other.flags,
    );
}


/// Two descriptions may be combined where they have the same header. A
/// diff holds the header, the flags that are new in the other value, and a
/// tombstone for each flag that only the base has. A merge holds the
/// header, and the flags of the base with those of the diff put in and
/// those it deletes taken out.
impl crate::prelude::Mergeable for SaveData {
    open spec fn alike(a: SaveDataView, b: SaveDataView) -> bool {
        a.header == b.header
    }

    open spec fn diff_of(base: SaveDataView, other: SaveDataView) -> SaveDataView {
        savedata_diff(base, other)
    }

    open spec fn merge_of(base: SaveDataView, diff: SaveDataView) -> SaveDataView {
        savedata_merge(base, diff)
    }

    fn diff(&self, other: &Self) -> (r: Self) {
        SaveData { header: self.header.dup(), flags: self.flags.diff(&other.flags) }
    }

    fn merge(&self, diff: &Self) -> (r: Self) {
        SaveData { header: self.header.dup(), flags: self.flags.merge(&diff.flags) }
    }
}

} // verus!
