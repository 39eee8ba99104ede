//! The drop table of an actor: named tables of the items that the actor
//! may drop, in the order in which the file lists them.

use crate::aamp::{
    name_hash, view_int, view_string64, view_text, ArchiveView, ListView, Parameter, ParameterIO,
    ParameterList, ParameterObject, ParameterView,
};
use crate::assoc::{keys_of, put};
use crate::byml::{array_node, hash_node, Byml, BymlView};
use crate::datum::Datum;
use crate::error::{read_as, UKError};
use crate::resource::{extension, has_extension};
use crate::text::{join3, numbered, two_digits};
use crate::util::ascending::sorted_collected;
use crate::util::collections::{collected, live_pairs, DeleteMap};
use crate::util::delta::{delete_diff, delete_merge, live_value};
use crate::util::put_entry;
use vstd::prelude::*;

verus! {

/// The drop tables of an actor, each under its name. In a diff, a table
/// that was removed is a tombstone.
#[derive(Debug)]
pub struct DropTable(pub DeleteMap<String, ParameterObject>);

impl DeepView for DropTable {
    type V = Seq<(Seq<char>, Option<Seq<(u32, Option<ParameterView>)>>)>;

    open spec fn deep_view(&self) -> Self::V {
        self.0@
    }
}

/// Two values are equal where they hold the same tables in the same order.
impl PartialEq for DropTable {
    fn eq(&self, other: &Self) -> (r: bool) {
        self.same(other)
    }
}

impl vstd::std_specs::cmp::PartialEqSpecImpl for DropTable {
    open spec fn obeys_eq_spec() -> bool {
        true
    }

    open spec fn eq_spec(&self, other: &Self) -> bool {
        self.deep_view() == other.deep_view()
    }
}

impl Datum for DropTable {
    fn same(&self, other: &Self) -> (r: bool) {
        self.0.same(&other.0)
    }

    fn dup(&self) -> (r: Self) {
        DropTable(self.0.dup())
    }
}

/// The table that the header lists at the place `i`, with its name: the
/// header must hold the name, as a string of at most 64 bytes, under
/// `Table` and the two digits of `i`, and the archive a live object of
/// that name. Each failure names the place.
pub open spec fn table_at(
    objects: Seq<(u32, Option<Seq<(u32, Option<ParameterView>)>>)>,
    header: Seq<(u32, Option<ParameterView>)>,
    i: usize,
) -> Result<(Seq<char>, Seq<(u32, Option<ParameterView>)>), UKError> {
    match live_value(header, name_hash("Table"@ + two_digits(i as nat))) {
        None => Err(UKError::MissingAampPlace("Drop table header missing table name", i)),
        Some(p) => match view_string64(p) {
            Err(_) => Err(UKError::WrongAampPlace("String64", i)),
            Ok(name) => match live_value(objects, name_hash(name)) {
                None => Err(UKError::MissingAampPlace("Drop table missing table", i)),
                Some(t) => Ok((name, t)),
            },
        },
    }
}

/// The tables that the header lists at the places 1 to `count`, in order,
/// or the failure of the first place that gives no table.
pub open spec fn listed_tables(
    objects: Seq<(u32, Option<Seq<(u32, Option<ParameterView>)>>)>,
    header: Seq<(u32, Option<ParameterView>)>,
    count: usize,
) -> Result<Seq<(Seq<char>, Seq<(u32, Option<ParameterView>)>)>, UKError>
    decreases count,
{
    if count == 0 {
        Ok(Seq::empty())
    } else {
        match listed_tables(objects, header, (count - 1) as usize) {
            Err(e) => Err(e),
            Ok(rest) => match table_at(objects, header, count) {
                Err(e) => Err(e),
                Ok(e) => Ok(rest.push(e)),
            },
        }
    }
}

/// A failure among the first places is the failure of the whole.
proof fn lemma_table_failure_stays(
    objects: Seq<(u32, Option<Seq<(u32, Option<ParameterView>)>>)>,
    header: Seq<(u32, Option<ParameterView>)>,
    n: usize,
    count: usize,
)
    requires
        n <= count,
        listed_tables(objects, header, n) is Err,
    ensures
        listed_tables(objects, header, count) == listed_tables(objects, header, n),
    decreases count - n,
{
    if n < count {
        lemma_table_failure_stays(objects, header, n, (count - 1) as usize);
    }
}

/// The drop tables that an archive holds: it must have the object
/// `Header` with the number of tables under `TableNum`, and a table for
/// each place up to that number.
pub open spec fn drop_of(a: ArchiveView) -> Result<
    Seq<(Seq<char>, Option<Seq<(u32, Option<ParameterView>)>>)>,
    UKError,
> {
    match live_value(a.root.objects, name_hash("Header"@)) {
        None => Err(UKError::MissingAampKey("Drop table missing header")),
        Some(header) => match live_value(header, name_hash("TableNum"@)) {
            None => Err(UKError::MissingAampKey("Drop table header missing table count")),
            Some(p) => match view_int(p) {
                Err(e) => Err(e),
                Ok(n) => match listed_tables(a.root.objects, header, n as usize) {
                    Err(e) => Err(e),
                    Ok(tables) => Ok(collected(tables)),
                },
            },
        },
    }
}

/// The parameters of the header that lists the tables with the names
/// `names`: their number under `TableNum`, and each name under `Table` and
/// the two digits of its place.
pub open spec fn header_pairs(names: Seq<Seq<char>>) -> Seq<(u32, ParameterView)> {
    seq![(name_hash("TableNum"@), ParameterView::Int(names.len() as i32))] + Seq::new(
        names.len(),
        |i: int|
            (name_hash("Table"@ + two_digits((i + 1) as nat)), ParameterView::String64(names[i])),
    )
}

/// Each table under the checksum of its name.
pub open spec fn hashed_tables(
    tables: Seq<(Seq<char>, Seq<(u32, Option<ParameterView>)>)>,
) -> Seq<(u32, Seq<(u32, Option<ParameterView>)>)> {
    tables.map_values(
        |e: (Seq<char>, Seq<(u32, Option<ParameterView>)>)| (name_hash(e.0), e.1),
    )
}

/// The archive that drop tables are written out as: the header, made from
/// the live tables and not from a count that was kept, and the live tables
/// themselves.
pub open spec fn drop_archive(d: Seq<(Seq<char>, Option<Seq<(u32, Option<ParameterView>)>>)>)
    -> ArchiveView {
    let tables = live_pairs(d);
    ArchiveView {
        version: 0,
        data_type: "xml"@,
        root: ListView {
            objects: collected(
                seq![(name_hash("Header"@), sorted_collected::<u32, ParameterView>(header_pairs(keys_of(tables))))]
                    + hashed_tables(tables),
            ),
            lists: Seq::empty(),
        },
    }
}

impl DropTable {
    /// Reads the drop tables from an archive. A place that the header
    /// counts and does not fill, fills with something else than a name, or
    /// fills with a name that no object has, is a failure.
    pub fn try_from(list: &ParameterIO) -> (r: Result<Self, UKError>)
        ensures
            read_as(r) == drop_of(list.deep_view()),
    {
        let header = match list.object("Header") {
            Some(h) => h,
            None => {
                return Err(UKError::MissingAampKey("Drop table missing header"));
            },
        };
        let count_param = match header.param("TableNum") {
            Some(p) => p,
            None => {
                return Err(UKError::MissingAampKey("Drop table header missing table count"));
            },
        };
        let table_count = #[verifier::truncate]
        (count_param.as_int()? as usize);
        let ghost objects = list.deep_view().root.objects;
        let ghost h = header.deep_view();
        let mut pairs: Vec<(String, ParameterObject)> = Vec::new();
        let mut i: usize = 0;
        proof {
            assert(pairs.deep_view() =~= Seq::empty());
        }
        while i < table_count
            invariant
                i <= table_count,
                objects == list.deep_view().root.objects,
                h == header.deep_view(),
                drop_of(list.deep_view()) == match listed_tables(objects, h, table_count) {
                    Err(e) => Err::<
                        Seq<(Seq<char>, Option<Seq<(u32, Option<ParameterView>)>>)>,
                        UKError,
                    >(e),
                    Ok(tables) => Ok(collected(tables)),
                },
                listed_tables(objects, h, i) == Ok::<
                    Seq<(Seq<char>, Seq<(u32, Option<ParameterView>)>)>,
                    UKError,
                >(pairs.deep_view()),
            decreases table_count - i,
        {
            i = i + 1;
            let key = numbered("Table", i);
            let ghost before = pairs.deep_view();
            proof {
                assert(key@ == "Table"@ + two_digits(i as nat));
                assert(listed_tables(objects, h, (i - 1) as usize) is Ok);
            }
            let param = match header.param(key.as_str()) {
                Some(p) => p,
                None => {
                    proof {
                        lemma_table_failure_stays(objects, h, i, table_count);
                    }
                    return Err(
                        UKError::MissingAampPlace("Drop table header missing table name", i),
                    );
                },
            };
            let name = match param.as_string64() {
                Ok(n) => n,
                Err(_) => {
                    proof {
                        lemma_table_failure_stays(objects, h, i, table_count);
                    }
                    return Err(UKError::WrongAampPlace("String64", i));
                },
            };
            match list.object(name.as_str()) {
                Some(table) => {
                    pairs.push((name.clone(), table.dup()));
                    proof {
                        assert(pairs.deep_view() =~= before.push((name@, table.deep_view())));
                    }
                },
                None => {
                    proof {
                        lemma_table_failure_stays(objects, h, i, table_count);
                    }
                    return Err(UKError::MissingAampPlace("Drop table missing table", i));
                },
            }
        }
        Ok(DropTable(DeleteMap::from_pairs(pairs)))
    }

    /// The archive that the drop tables are written out as.
    pub fn to_pio(&self) -> (r: ParameterIO)
        ensures
            r.deep_view() == drop_archive(self.deep_view()),
    {
        let tables = self.0.pairs();
        let ghost t = tables.deep_view();
        let ghost names = keys_of(t);
        let mut listed: Vec<(u32, Parameter)> = Vec::new();
        listed.push(
            (
                crate::aamp::hash_name("TableNum"),
                Parameter::Int(#[verifier::truncate] (tables.len() as i32)),
            ),
        );
        let mut hashed: Vec<(u32, ParameterObject)> = Vec::new();
        let mut i: usize = 0;
        while i < tables.len()
            invariant
                i <= tables.len(),
                t == tables.deep_view(),
                names == keys_of(t),
                listed.len() == i + 1,
                hashed.len() == i,
                listed.deep_view()[0] == (
                    name_hash("TableNum"@),
                    ParameterView::Int(names.len() as i32),
                ),
                forall|j: int|
                    0 <= j < i ==> #[trigger] listed.deep_view()[j + 1] == (
                        name_hash("Table"@ + two_digits((j + 1) as nat)),
                        ParameterView::String64(names[j]),
                    ),
                forall|j: int|
                    0 <= j < i ==> #[trigger] hashed.deep_view()[j] == (name_hash(t[j].0), t[j].1),
            decreases tables.len() - i,
        {
            let key = numbered("Table", i + 1);
            let ghost l = listed.deep_view();
            let ghost h = hashed.deep_view();
            listed.push(
                (crate::aamp::hash_name(key.as_str()), Parameter::String64(tables[i].0.clone())),
            );
            hashed.push((crate::aamp::hash_name(tables[i].0.as_str()), tables[i].1.dup()));
            proof {
                assert(names[i as int] == t[i as int].0);
                assert(listed.deep_view() =~= l.push(
                    (
                        name_hash("Table"@ + two_digits((i + 1) as nat)),
                        ParameterView::String64(names[i as int]),
                    ),
                ));
                assert(hashed.deep_view() =~= h.push((name_hash(t[i as int].0), t[i as int].1)));
            }
            i = i + 1;
        }
        proof {
            assert(listed.deep_view() =~= header_pairs(names));
            assert(hashed.deep_view() =~= hashed_tables(t));
        }
        let header = ParameterObject::from_pairs(listed);
        let mut all: Vec<(u32, ParameterObject)> = Vec::new();
        all.push((crate::aamp::hash_name("Header"), header));
        let ghost head = all.deep_view();
        all.append(&mut hashed);
        let none: Vec<(u32, ParameterList)> = Vec::new();
        proof {
            assert(head =~= seq![(name_hash("Header"@), sorted_collected::<u32, ParameterView>(header_pairs(names)))]);
            assert(all.deep_view() =~= head + hashed_tables(t));
            assert(none.deep_view() =~= Seq::empty());
            assert(collected(none.deep_view()) =~= Seq::empty());
        }
        ParameterIO::from_root(ParameterList::from_entries(all, none))
    }

    /// The canonical path of the drop table with the name `name`.
    pub fn path(name: &str) -> (r: String)
        ensures
            r@ == "Actor/DropTable/"@ + name@ + ".bdrop"@,
    {
        join3("Actor/DropTable/", name, ".bdrop")
    }

    /// Whether `path` is the path of a drop table: whether its file has
    /// the extension `bdrop`.
    pub fn path_matches(path: &str) -> (r: bool)
        ensures
            r == (extension(path@) == Some("bdrop"@)),
    {
        has_extension(path, "bdrop")
    }
}


/// Where the header names the tables at the places 1 to their number, and
/// the archive holds each under its name, the first `count` places give
/// the first `count` tables.
proof fn lemma_listed_tables(
    objects: Seq<(u32, Option<Seq<(u32, Option<ParameterView>)>>)>,
    header: Seq<(u32, Option<ParameterView>)>,
    tables: Seq<(Seq<char>, Seq<(u32, Option<ParameterView>)>)>,
    count: usize,
)
    requires
        count <= tables.len(),
        forall|i: int|
            0 <= i < tables.len() ==> live_value(
                header,
                name_hash("Table"@ + two_digits((i + 1) as nat)),
            ) == Some(ParameterView::String64(#[trigger] tables[i].0)),
        forall|i: int|
            0 <= i < tables.len() ==> live_value(objects, name_hash((#[trigger] tables[i]).0))
                == Some(tables[i].1),
    ensures
        listed_tables(objects, header, count) == Ok::<
            Seq<(Seq<char>, Seq<(u32, Option<ParameterView>)>)>,
            UKError,
        >(tables.take(count as int)),
    decreases count,
{
    if count == 0 {
        assert(tables.take(0) =~= Seq::empty());
    } else {
        lemma_listed_tables(objects, header, tables, (count - 1) as usize);
        let e = tables[count - 1];
        assert(live_value(header, name_hash("Table"@ + two_digits(count as nat))) == Some(
            ParameterView::String64(e.0),
        ));
        assert(live_value(objects, name_hash(e.0)) == Some(e.1));
        assert(table_at(objects, header, count) == Ok::<
            (Seq<char>, Seq<(u32, Option<ParameterView>)>),
            UKError,
        >(e));
        assert(tables.take(count - 1).push(e) =~= tables.take(count as int));
    }
}

/// Reading back what was written: for drop tables without a tombstone,
/// whose names have checksums that differ from each other and from that of
/// `Header`, and where the names of the header's parameters have checksums
/// that differ too, reading the archive that the tables are written out as
/// gives the tables again.
pub proof fn lemma_drop_read_of_written(
    d: Seq<(Seq<char>, Option<Seq<(u32, Option<ParameterView>)>>)>,
)
    requires
        crate::assoc::distinct_keys(d),
        crate::util::delta::is_live(d),
        d.len() <= i32::MAX,
        crate::assoc::distinct_keys(header_pairs(keys_of(live_pairs(d)))),
        crate::assoc::distinct_keys(
            seq![(name_hash("Header"@), sorted_collected::<u32, ParameterView>(
                    header_pairs(keys_of(live_pairs(d))),
                ))]
                + hashed_tables(live_pairs(d)),
        ),
    ensures
        drop_of(drop_archive(d)) == Ok::<
            Seq<(Seq<char>, Option<Seq<(u32, Option<ParameterView>)>>)>,
            UKError,
        >(d),
{
    let tables = live_pairs(d);
    let names = keys_of(tables);
    let pairs = header_pairs(names);
    let header = sorted_collected::<u32, ParameterView>(pairs);
    let plain = seq![(name_hash("Header"@), header)] + hashed_tables(tables);
    let objects = collected(plain);
    crate::util::collections::lemma_live_pairs_of_live(d);
    crate::util::collections::lemma_sorted_collected_keys::<u32, ParameterView>(pairs);
    crate::util::collections::lemma_collected_of_distinct(plain);
    crate::util::collections::lemma_collected_live_pairs(d);
    assert(drop_archive(d).root.objects == objects);
    assert(objects[0] == (name_hash("Header"@), Some(header)));
    crate::assoc::lemma_lookup_at(objects, 0);
    assert(pairs[0] == (name_hash("TableNum"@), ParameterView::Int(names.len() as i32)));
    crate::assoc::lemma_lookup_at(pairs, 0);
    assert forall|i: int| 0 <= i < tables.len() implies live_value(
        header,
        name_hash("Table"@ + two_digits((i + 1) as nat)),
    ) == Some(ParameterView::String64(#[trigger] tables[i].0)) by {
        assert(pairs[i + 1] == (
            name_hash("Table"@ + two_digits((i + 1) as nat)),
            ParameterView::String64(names[i]),
        ));
        assert(names[i] == tables[i].0);
        crate::assoc::lemma_lookup_at(pairs, i + 1);
    }
    assert forall|i: int| 0 <= i < tables.len() implies live_value(
        objects,
        name_hash((#[trigger] tables[i]).0),
    ) == Some(tables[i].1) by {
        assert(plain[i + 1] == (name_hash(tables[i].0), tables[i].1));
        crate::assoc::lemma_lookup_at(objects, i + 1);
    }
    let n = names.len() as i32;
    assert(n as usize == tables.len());
    lemma_listed_tables(objects, header, tables, n as usize);
    assert(tables.take(tables.len() as int) =~= tables);
}

/// The names of the items that a table lists at the places 1 to `count`,
/// each as a string node, or the failure of the first place that holds no
/// name.
pub open spec fn item_names(table: Seq<(u32, Option<ParameterView>)>, count: int) -> Result<
    Seq<BymlView>,
    UKError,
>
    decreases count,
{
    if count <= 0 {
        Ok(Seq::empty())
    } else {
        match item_names(table, count - 1) {
            Err(e) => Err(e),
            Ok(rest) => match live_value(
                table,
                name_hash("ItemName"@ + two_digits(count as nat)),
            ) {
                None => Err(UKError::MissingAampKey("Drop table missing item name")),
                Some(p) => match view_text(p) {
                    Err(e) => Err(e),
                    Ok(s) => Ok(rest.push(BymlView::String(s))),
                },
            },
        }
    }
}

/// The array of the names of the items that a table lists: the table must
/// hold their number under `ColumnNum`.
pub open spec fn table_items(table: Seq<(u32, Option<ParameterView>)>) -> Result<
    BymlView,
    UKError,
> {
    match live_value(table, name_hash("ColumnNum"@)) {
        None => Err(UKError::MissingAampKey("Drop table missing column count")),
        Some(p) => match view_int(p) {
            Err(e) => Err(e),
            Ok(n) => match item_names(table, n as int) {
                Err(e) => Err(e),
                Ok(items) => Ok(BymlView::Array(items)),
            },
        },
    }
}

/// Each table's name with the array of the names of its items, or the
/// failure of the first table that has none.
pub open spec fn drops_of(tables: Seq<(Seq<char>, Seq<(u32, Option<ParameterView>)>)>) -> Result<
    Seq<(Seq<char>, BymlView)>,
    UKError,
>
    decreases tables.len(),
{
    if tables.len() == 0 {
        Ok(Seq::empty())
    } else {
        match drops_of(tables.drop_last()) {
            Err(e) => Err(e),
            Ok(rest) => match table_items(tables.last().1) {
                Err(e) => Err(e),
                Ok(v) => Ok(rest.push((tables.last().0, v))),
            },
        }
    }
}

/// A failure among the first places is the failure of the whole.
proof fn lemma_item_failure_stays(table: Seq<(u32, Option<ParameterView>)>, n: int, count: int)
    requires
        n <= count,
        item_names(table, n) is Err,
    ensures
        item_names(table, count) == item_names(table, n),
    decreases count - n,
{
    if n < count {
        lemma_item_failure_stays(table, n + 1, count);
    }
}

/// A failure among the first tables is the failure of the whole.
proof fn lemma_drops_failure_stays(
    tables: Seq<(Seq<char>, Seq<(u32, Option<ParameterView>)>)>,
    n: int,
)
    requires
        0 <= n <= tables.len(),
        drops_of(tables.take(n)) is Err,
    ensures
        drops_of(tables) == drops_of(tables.take(n)),
    decreases tables.len() - n,
{
    if n < tables.len() {
        assert(tables.take(n + 1).drop_last() =~= tables.take(n));
        lemma_drops_failure_stays(tables, n + 1);
    } else {
        assert(tables.take(n) =~= tables);
    }
}

/// The array of the names of the items that `table` lists.
fn read_items(table: &ParameterObject) -> (r: Result<Byml, UKError>)
    ensures
        read_as(r) == table_items(table.deep_view()),
{
    let count = match table.param("ColumnNum") {
        Some(p) => p.as_int()?,
        None => {
            return Err(UKError::MissingAampKey("Drop table missing column count"));
        },
    };
    let ghost t = table.deep_view();
    let mut items: Vec<Byml> = Vec::new();
    let mut i: i32 = 0;
    proof {
        assert(items.deep_view() =~= Seq::empty());
    }
    while i < count
        invariant
            0 <= i,
            count > 0 ==> i <= count,
            count <= 0 ==> i == 0,
            t == table.deep_view(),
            table_items(t) == match item_names(t, count as int) {
                Err(e) => Err::<BymlView, UKError>(e),
                Ok(items) => Ok(BymlView::Array(items)),
            },
            item_names(t, i as int) == Ok::<Seq<BymlView>, UKError>(items.deep_view()),
        decreases count - i,
    {
        i = i + 1;
        let key = numbered("ItemName", i as usize);
        proof {
            assert(key@ == "ItemName"@ + two_digits(i as nat));
        }
        let name = match table.param(key.as_str()) {
            Some(p) => p.as_string(),
            None => Err(UKError::MissingAampKey("Drop table missing item name")),
        };
        match name {
            Err(e) => {
                proof {
                    lemma_item_failure_stays(t, i as int, count as int);
                }
                return Err(e);
            },
            Ok(s) => {
                let ghost before = items.deep_view();
                items.push(Byml::String(s.clone()));
                proof {
                    assert(items.deep_view() =~= before.push(BymlView::String(s@)));
                }
            },
        }
    }
    proof {
        if count <= 0 {
            assert(item_names(t, count as int) == item_names(t, 0));
        }
    }
    Ok(array_node(items))
}

impl DropTable {
    /// Puts what the tables drop into the side table `info`, under
    /// `drops`: for each live table, under its name, the names of its
    /// items. Where a table lacks its count or an item, `info` stays as it
    /// was.
    pub fn update_info(&self, info: &mut Vec<(String, Byml)>) -> (r: Result<(), UKError>)
        ensures
            match r {
                Ok(_) => drops_of(live_pairs(self.deep_view())) is Ok && final(info).deep_view()
                    == put(
                    old(info).deep_view(),
                    "drops"@,
                    BymlView::Hash(drops_of(live_pairs(self.deep_view()))->Ok_0),
                ),
                Err(e) => drops_of(live_pairs(self.deep_view())) == Err::<
                    Seq<(Seq<char>, BymlView)>,
                    UKError,
                >(e) && final(info).deep_view() == old(info).deep_view(),
            },
    {
        let tables = self.0.pairs();
        let ghost t = tables.deep_view();
        let mut drops: Vec<(String, Byml)> = Vec::new();
        let mut i: usize = 0;
        proof {
            assert(drops.deep_view() =~= Seq::empty());
        }
        while i < tables.len()
            invariant
                i <= tables.len(),
                t == tables.deep_view(),
                t == live_pairs(self.deep_view()),
                drops_of(t.take(i as int)) == Ok::<Seq<(Seq<char>, BymlView)>, UKError>(
                    drops.deep_view(),
                ),
            decreases tables.len() - i,
        {
            proof {
                assert(t.take(i + 1).drop_last() =~= t.take(i as int));
                assert(t.take(i + 1).last() == t[i as int]);
            }
            match read_items(&tables[i].1) {
                Err(e) => {
                    proof {
                        lemma_drops_failure_stays(t, i + 1);
                    }
                    return Err(e);
                },
                Ok(items) => {
                    let ghost before = drops.deep_view();
                    drops.push((tables[i].0.clone(), items));
                    proof {
                        assert(drops.deep_view() =~= before.push((t[i as int].0, items.tree())));
                    }
                },
            }
            i = i + 1;
        }
        proof {
            assert(t.take(i as int) =~= t);
        }
        put_entry(info, "drops".to_owned(), hash_node(drops));
        Ok(())
    }
}


/// A diff holds the tables that are new or changed, in the order of the
/// other value, then a tombstone for each table that only the base has. A
/// merge keeps the tables that the diff does not delete, in their order and
/// changed where the diff changes them, then the tables that it adds.
impl crate::prelude::Mergeable for DropTable {
    open spec fn alike(a: Self::V, b: Self::V) -> bool {
        true
    }

    open spec fn diff_of(base: Self::V, other: Self::V) -> Self::V {
        delete_diff(base, other)
    }

    open spec fn merge_of(base: Self::V, diff: Self::V) -> Self::V {
        delete_merge(base, diff)
    }

    fn diff(&self, other: &Self) -> (r: Self) {
        DropTable(self.0.diff(&other.0))
    }

    fn merge(&self, diff: &Self) -> (r: Self) {
        DropTable(self.0.merge(&diff.0))
    }
}

} // verus!
