//! The tag tree, its model, and its encoding.
use vstd::prelude::*;
use crate::binary::text_reads_back;
use crate::binary::{
    after, array_at, array_wire, arrays_at, arrays_wire, count_wire, describes, fault_error, items_at,
    items_wire, lemma_after_prepend, prepend, read_array, read_arrays, read_items, read_strings,
    string_at, string_wire, strings_at, strings_wire, uint_of, BinResult, Fault, FileReader,
    Io, Step, TagIo, Writer, FileWriter, FileReaderBE, FileReaderLE, FileWriterBE, FileWriterLE, write_array, write_arrays, write_items, write_strings,
};

verus! {

/// One node of the tree. `Float` and `Double` hold the IEEE 754 bits of
/// their number; a compound holds its named entries in order, each name
/// once.
#[derive(PartialEq, Debug)]
pub enum Tag {
    Byte(i8),
    Short(i16),
    Int(i32),
    Long(i64),
    Float(u32),
    Double(u64),
    ByteArray(Vec<i8>),
    String(String),
    List(List),
    /// Named entries in order. Names are meant to be unique; the type does
    /// not enforce it. A compound that repeats a name is written with every
    /// entry, and reads back with only the last value of each name (see
    /// `Tag::is_canonical` for the values that read back unchanged).
    Compound(Vec<(String, Tag)>),
    IntArray(Vec<i32>),
    LongArray(Vec<i64>),
}

/// A list whose elements all have one type, stored once for the list.
#[derive(PartialEq, Debug)]
pub enum List {
    Empty,
    Byte(Vec<i8>),
    Short(Vec<i16>),
    Int(Vec<i32>),
    Long(Vec<i64>),
    Float(Vec<u32>),
    Double(Vec<u64>),
    ByteArray(Vec<Vec<i8>>),
    String(Vec<String>),
    List(Vec<List>),
    /// Compounds, each with the same expectation of unique names as
    /// `Tag::Compound`.
    Compound(Vec<Vec<(String, Tag)>>),
    IntArray(Vec<Vec<i32>>),
    LongArray(Vec<Vec<i64>>),
}

/// The named entries of a compound, in order.
pub type Entries = Seq<(Seq<char>, TagModel)>;

/// The mathematical value of a `Tag`.
pub enum TagModel {
    Byte(i8),
    Short(i16),
    Int(i32),
    Long(i64),
    Float(u32),
    Double(u64),
    ByteArray(Seq<i8>),
    String(Seq<char>),
    List(ListModel),
    Compound(Seq<(Seq<char>, TagModel)>),
    IntArray(Seq<i32>),
    LongArray(Seq<i64>),
}

/// The mathematical value of a `List`.
pub enum ListModel {
    Empty,
    Byte(Seq<i8>),
    Short(Seq<i16>),
    Int(Seq<i32>),
    Long(Seq<i64>),
    Float(Seq<u32>),
    Double(Seq<u64>),
    ByteArray(Seq<Seq<i8>>),
    String(Seq<Seq<char>>),
    List(Seq<ListModel>),
    Compound(Seq<Seq<(Seq<char>, TagModel)>>),
    IntArray(Seq<Seq<i32>>),
    LongArray(Seq<Seq<i64>>),
}

pub open spec fn entries_view(v: Vec<(String, Tag)>) -> Seq<(Seq<char>, TagModel)>
    decreases v,
{
    Seq::new(v.len() as nat, |i: int|
        if 0 <= i < v.len() { (v@[i].0@, tag_view(v@[i].1)) } else { (Seq::empty(), TagModel::Byte(0)) })
}

pub open spec fn tag_view(t: Tag) -> TagModel
    decreases t,
{
    match t {
        Tag::Byte(v) => TagModel::Byte(v),
        Tag::Short(v) => TagModel::Short(v),
        Tag::Int(v) => TagModel::Int(v),
        Tag::Long(v) => TagModel::Long(v),
        Tag::Float(v) => TagModel::Float(v),
        Tag::Double(v) => TagModel::Double(v),
        Tag::ByteArray(v) => TagModel::ByteArray(v@),
        Tag::String(s) => TagModel::String(s@),
        Tag::List(l) => TagModel::List(list_view(l)),
        Tag::Compound(v) => TagModel::Compound(entries_view(v)),
        Tag::IntArray(v) => TagModel::IntArray(v@),
        Tag::LongArray(v) => TagModel::LongArray(v@),
    }
}

pub open spec fn list_view(l: List) -> ListModel
    decreases l,
{
    match l {
        List::Empty => ListModel::Empty,
        List::Byte(v) => ListModel::Byte(v@),
        List::Short(v) => ListModel::Short(v@),
        List::Int(v) => ListModel::Int(v@),
        List::Long(v) => ListModel::Long(v@),
        List::Float(v) => ListModel::Float(v@),
        List::Double(v) => ListModel::Double(v@),
        List::ByteArray(v) => ListModel::ByteArray(Seq::new(v.len() as nat, |i: int| v@[i]@)),
        List::String(v) => ListModel::String(Seq::new(v.len() as nat, |i: int| v@[i]@)),
        List::List(v) => ListModel::List(Seq::new(v.len() as nat, |i: int|
            if 0 <= i < v.len() { list_view(v@[i]) } else { ListModel::Empty })),
        List::Compound(v) => ListModel::Compound(Seq::new(v.len() as nat, |i: int|
            if 0 <= i < v.len() { entries_view(v@[i]) } else { Seq::empty() })),
        List::IntArray(v) => ListModel::IntArray(Seq::new(v.len() as nat, |i: int| v@[i]@)),
        List::LongArray(v) => ListModel::LongArray(Seq::new(v.len() as nat, |i: int| v@[i]@)),
    }
}

impl View for Tag {
    type V = TagModel;

    open spec fn view(&self) -> TagModel {
        tag_view(*self)
    }
}

impl View for List {
    type V = ListModel;

    open spec fn view(&self) -> ListModel {
        list_view(*self)
    }
}

/// The type id that stands for a tag on the wire.
pub open spec fn id_of(t: TagModel) -> u8 {
    match t {
        TagModel::Byte(_) => 1,
        TagModel::Short(_) => 2,
        TagModel::Int(_) => 3,
        TagModel::Long(_) => 4,
        TagModel::Float(_) => 5,
        TagModel::Double(_) => 6,
        TagModel::ByteArray(_) => 7,
        TagModel::String(_) => 8,
        TagModel::List(_) => 9,
        TagModel::Compound(_) => 10,
        TagModel::IntArray(_) => 11,
        TagModel::LongArray(_) => 12,
    }
}

/// The number of elements of a list.
pub open spec fn list_len(l: ListModel) -> nat {
    match l {
        ListModel::Empty => 0,
        ListModel::Byte(v) => v.len(),
        ListModel::Short(v) => v.len(),
        ListModel::Int(v) => v.len(),
        ListModel::Long(v) => v.len(),
        ListModel::Float(v) => v.len(),
        ListModel::Double(v) => v.len(),
        ListModel::ByteArray(v) => v.len(),
        ListModel::String(v) => v.len(),
        ListModel::List(v) => v.len(),
        ListModel::Compound(v) => v.len(),
        ListModel::IntArray(v) => v.len(),
        ListModel::LongArray(v) => v.len(),
    }
}

/// The element type id of a list with elements.
pub open spec fn element_id(l: ListModel) -> u8 {
    match l {
        ListModel::Empty => 0,
        ListModel::Byte(_) => 1,
        ListModel::Short(_) => 2,
        ListModel::Int(_) => 3,
        ListModel::Long(_) => 4,
        ListModel::Float(_) => 5,
        ListModel::Double(_) => 6,
        ListModel::ByteArray(_) => 7,
        ListModel::String(_) => 8,
        ListModel::List(_) => 9,
        ListModel::Compound(_) => 10,
        ListModel::IntArray(_) => 11,
        ListModel::LongArray(_) => 12,
    }
}

// ---------------------------------------------------------------------------
// Encoding

/// The payload of a tag, without its type id.
pub open spec fn tag_bytes(t: TagModel, big: bool) -> Seq<u8>
    decreases t, 0nat,
{
    match t {
        TagModel::Byte(v) => v.wire(big),
        TagModel::Short(v) => v.wire(big),
        TagModel::Int(v) => v.wire(big),
        TagModel::Long(v) => v.wire(big),
        TagModel::Float(v) => v.wire(big),
        TagModel::Double(v) => v.wire(big),
        TagModel::ByteArray(a) => array_wire(a, big),
        TagModel::String(s) => string_wire(s, big),
        TagModel::List(l) => list_bytes(l, big),
        TagModel::Compound(e) => entries_bytes(e, big),
        TagModel::IntArray(a) => array_wire(a, big),
        TagModel::LongArray(a) => array_wire(a, big),
    }
}

/// One compound entry: type id, name, payload.
pub open spec fn entry_bytes(name: Seq<char>, t: TagModel, big: bool) -> Seq<u8>
    decreases t, 1nat,
{
    seq![id_of(t)] + string_wire(name, big) + tag_bytes(t, big)
}

/// The entries of a compound, one after another.
pub open spec fn entries_body(e: Entries, big: bool) -> Seq<u8>
    decreases e, 0nat,
{
    if e.len() == 0 {
        Seq::empty()
    } else {
        entries_body(e.subrange(0, e.len() - 1), big) + entry_bytes(e[e.len() - 1].0, e[e.len() - 1].1, big)
    }
}

/// A compound's entries followed by the end marker.
pub open spec fn entries_bytes(e: Entries, big: bool) -> Seq<u8>
    decreases e, 1nat,
{
    entries_body(e, big) + seq![0u8]
}

/// Lists one after another.
pub open spec fn lists_body(v: Seq<ListModel>, big: bool) -> Seq<u8>
    decreases v, 0nat,
{
    if v.len() == 0 {
        Seq::empty()
    } else {
        lists_body(v.subrange(0, v.len() - 1), big) + list_bytes(v[v.len() - 1], big)
    }
}

/// Compounds one after another.
pub open spec fn compounds_body(v: Seq<Entries>, big: bool) -> Seq<u8>
    decreases v, 0nat,
{
    if v.len() == 0 {
        Seq::empty()
    } else {
        compounds_body(v.subrange(0, v.len() - 1), big) + entries_bytes(v[v.len() - 1], big)
    }
}

/// The elements of a list with elements, without its header.
pub open spec fn items_bytes(l: ListModel, big: bool) -> Seq<u8>
    decreases l, 0nat,
{
    match l {
        ListModel::Empty => Seq::empty(),
        ListModel::Byte(v) => items_wire(v, big),
        ListModel::Short(v) => items_wire(v, big),
        ListModel::Int(v) => items_wire(v, big),
        ListModel::Long(v) => items_wire(v, big),
        ListModel::Float(v) => items_wire(v, big),
        ListModel::Double(v) => items_wire(v, big),
        ListModel::ByteArray(v) => arrays_wire(v, big),
        ListModel::String(v) => strings_wire(v, big),
        ListModel::List(v) => lists_body(v, big),
        ListModel::Compound(v) => compounds_body(v, big),
        ListModel::IntArray(v) => arrays_wire(v, big),
        ListModel::LongArray(v) => arrays_wire(v, big),
    }
}

/// A list: element type id, count, elements. A list without elements is
/// always the end id and a zero count, whatever its variant.
pub open spec fn list_bytes(l: ListModel, big: bool) -> Seq<u8>
    decreases l, 1nat,
{
    if list_len(l) == 0 {
        seq![0u8, 0u8, 0u8, 0u8, 0u8]
    } else {
        seq![element_id(l)] + count_wire(list_len(l), big) + items_bytes(l, big)
    }
}


/// Every text in the tag, names of compound entries included, decodes from
/// its modified UTF-8 form back to itself (see `text_reads_back`).
pub open spec fn texts_read_back(t: TagModel) -> bool
    decreases t, 0nat,
{
    match t {
        TagModel::String(s) => text_reads_back(s),
        TagModel::List(l) => list_texts_read_back(l),
        TagModel::Compound(e) => entries_texts_read_back(e),
        _ => true,
    }
}

pub open spec fn entries_texts_read_back(e: Entries) -> bool
    decreases e, 1nat,
{
    forall|i: int| 0 <= i < e.len() ==> text_reads_back(#[trigger] e[i].0) && texts_read_back(e[i].1)
}

pub open spec fn list_texts_read_back(l: ListModel) -> bool
    decreases l, 0nat,
{
    match l {
        ListModel::String(v) => forall|i: int| 0 <= i < v.len() ==> text_reads_back(#[trigger] v[i]),
        ListModel::List(v) => forall|i: int| 0 <= i < v.len() ==> list_texts_read_back(#[trigger] v[i]),
        ListModel::Compound(v) => forall|i: int| 0 <= i < v.len() ==> entries_texts_read_back(#[trigger] v[i]),
        _ => true,
    }
}

/// What `entries_texts_read_back` says of one entry.
pub proof fn lemma_entry_texts(e: Entries, i: int)
    requires
        entries_texts_read_back(e),
        0 <= i < e.len(),
    ensures
        text_reads_back(e[i].0),
        texts_read_back(e[i].1),
{
    reveal_with_fuel(entries_texts_read_back, 2);
    reveal_with_fuel(texts_read_back, 2);
    assert(text_reads_back(e[i].0));
    assert(texts_read_back(e[i].1));
}

// ---------------------------------------------------------------------------
// Decoding

pub open spec fn as_tag<T>(r: Step<T>, f: spec_fn(T) -> TagModel) -> Step<TagModel> {
    match r {
        Ok((x, p)) => Ok((f(x), p)),
        Err(e) => Err(e),
    }
}

pub open spec fn as_list<T>(r: Step<T>, f: spec_fn(T) -> ListModel) -> Step<ListModel> {
    match r {
        Ok((x, p)) => Ok((f(x), p)),
        Err(e) => Err(e),
    }
}

/// The entries with `name` set to `t`: an entry of that name keeps its place
/// and takes the new value, else the entry goes at the end.
pub open spec fn put(e: Entries, name: Seq<char>, t: TagModel) -> Entries {
    if exists|i: int| 0 <= i < e.len() && e[i].0 == name {
        e.update(choose|i: int| 0 <= i < e.len() && e[i].0 == name, (name, t))
    } else {
        e.push((name, t))
    }
}

/// No two entries share a name.
pub open spec fn keys_unique(e: Entries) -> bool {
    forall|i: int, j: int| 0 <= i < e.len() && 0 <= j < e.len() && e[i].0 == e[j].0 ==> i == j
}

/// The payload of a tag of type `id` at `pos`.
pub open spec fn tag_at(id: u8, data: Seq<u8>, pos: int, big: bool) -> Step<TagModel>
    decreases data.len() - pos, 1nat, 0nat,
{
    if id == 1 {
        as_tag(i8::at(data, pos, big), |v: i8| TagModel::Byte(v))
    } else if id == 2 {
        as_tag(i16::at(data, pos, big), |v: i16| TagModel::Short(v))
    } else if id == 3 {
        as_tag(i32::at(data, pos, big), |v: i32| TagModel::Int(v))
    } else if id == 4 {
        as_tag(i64::at(data, pos, big), |v: i64| TagModel::Long(v))
    } else if id == 5 {
        as_tag(u32::at(data, pos, big), |v: u32| TagModel::Float(v))
    } else if id == 6 {
        as_tag(u64::at(data, pos, big), |v: u64| TagModel::Double(v))
    } else if id == 7 {
        as_tag(array_at::<i8>(data, pos, big), |v: Seq<i8>| TagModel::ByteArray(v))
    } else if id == 8 {
        as_tag(string_at(data, pos, big), |v: Seq<char>| TagModel::String(v))
    } else if id == 9 {
        as_tag(list_at(data, pos, big), |v: ListModel| TagModel::List(v))
    } else if id == 10 {
        as_tag(compound_at(data, pos, big, Seq::empty()), |v: Entries| TagModel::Compound(v))
    } else if id == 11 {
        as_tag(array_at::<i32>(data, pos, big), |v: Seq<i32>| TagModel::IntArray(v))
    } else if id == 12 {
        as_tag(array_at::<i64>(data, pos, big), |v: Seq<i64>| TagModel::LongArray(v))
    } else {
        Err(Fault::BadTagId(id))
    }
}

/// The entries of a compound at `pos`, put after `acc`, up to the end
/// marker or the end of the buffer.
pub open spec fn compound_at(data: Seq<u8>, pos: int, big: bool, acc: Entries) -> Step<Entries>
    decreases data.len() - pos, 0nat, 0nat,
{
    if pos == data.len() {
        Ok((acc, pos))
    } else if !(0 <= pos < data.len()) {
        Err(Fault::EndOfStream)
    } else if data[pos] == 0 {
        Ok((acc, pos + 1))
    } else {
        match string_at(data, pos + 1, big) {
            Err(f) => Err(f),
            Ok((name, p)) => if pos < p <= data.len() {
                match tag_at(data[pos], data, p, big) {
                    Err(f) => Err(f),
                    Ok((t, q)) => if p <= q <= data.len() {
                        compound_at(data, q, big, put(acc, name, t))
                    } else {
                        Err(Fault::EndOfStream)
                    },
                }
            } else {
                Err(Fault::EndOfStream)
            },
        }
    }
}

/// A list at `pos`: its element type id, then its count and elements.
pub open spec fn list_at(data: Seq<u8>, pos: int, big: bool) -> Step<ListModel>
    decreases data.len() - pos, 0nat, 0nat,
{
    if 0 <= pos < data.len() {
        list_body_at(data[pos], data, pos + 1, big)
    } else {
        Err(Fault::EndOfStream)
    }
}

/// The count and elements of a list whose element type id is `eid`. A count
/// of zero or less is the empty list, whatever the id.
pub open spec fn list_body_at(eid: u8, data: Seq<u8>, pos: int, big: bool) -> Step<ListModel>
    decreases data.len() - pos, 0nat, 0nat,
{
    if !(0 <= pos && pos + 4 <= data.len()) {
        Err(Fault::EndOfStream)
    } else {
        let n = uint_of(data.subrange(pos, pos + 4), big) as u32 as i32 as int;
        let p = pos + 4;
        if n <= 0 {
            Ok((ListModel::Empty, p))
        } else if eid == 0 {
            Err(Fault::EndTypedList)
        } else if eid == 1 {
            as_list(items_at::<i8>(data, p, n as nat, big), |v: Seq<i8>| ListModel::Byte(v))
        } else if eid == 2 {
            as_list(items_at::<i16>(data, p, n as nat, big), |v: Seq<i16>| ListModel::Short(v))
        } else if eid == 3 {
            as_list(items_at::<i32>(data, p, n as nat, big), |v: Seq<i32>| ListModel::Int(v))
        } else if eid == 4 {
            as_list(items_at::<i64>(data, p, n as nat, big), |v: Seq<i64>| ListModel::Long(v))
        } else if eid == 5 {
            as_list(items_at::<u32>(data, p, n as nat, big), |v: Seq<u32>| ListModel::Float(v))
        } else if eid == 6 {
            as_list(items_at::<u64>(data, p, n as nat, big), |v: Seq<u64>| ListModel::Double(v))
        } else if eid == 7 {
            as_list(arrays_at::<i8>(data, p, n as nat, big), |v: Seq<Seq<i8>>| ListModel::ByteArray(v))
        } else if eid == 8 {
            as_list(strings_at(data, p, n as nat, big), |v: Seq<Seq<char>>| ListModel::String(v))
        } else if eid == 9 {
            as_list(lists_at(data, p, n as nat, big), |v: Seq<ListModel>| ListModel::List(v))
        } else if eid == 10 {
            as_list(compounds_at(data, p, n as nat, big), |v: Seq<Entries>| ListModel::Compound(v))
        } else if eid == 11 {
            as_list(arrays_at::<i32>(data, p, n as nat, big), |v: Seq<Seq<i32>>| ListModel::IntArray(v))
        } else if eid == 12 {
            as_list(arrays_at::<i64>(data, p, n as nat, big), |v: Seq<Seq<i64>>| ListModel::LongArray(v))
        } else {
            Err(Fault::BadTagId(eid))
        }
    }
}

/// `k` lists, one after another.
pub open spec fn lists_at(data: Seq<u8>, pos: int, k: nat, big: bool) -> Step<Seq<ListModel>>
    decreases data.len() - pos, 2nat, k,
{
    if k == 0 {
        Ok((Seq::empty(), pos))
    } else {
        match list_at(data, pos, big) {
            Err(f) => Err(f),
            Ok((l, p)) => if pos <= p <= data.len() {
                prepend(l, lists_at(data, p, (k - 1) as nat, big))
            } else {
                Err(Fault::EndOfStream)
            },
        }
    }
}

/// `k` compounds, one after another.
pub open spec fn compounds_at(data: Seq<u8>, pos: int, k: nat, big: bool) -> Step<Seq<Entries>>
    decreases data.len() - pos, 2nat, k,
{
    if k == 0 {
        Ok((Seq::empty(), pos))
    } else {
        match compound_at(data, pos, big, Seq::empty()) {
            Err(f) => Err(f),
            Ok((c, p)) => if pos <= p <= data.len() {
                prepend(c, compounds_at(data, p, (k - 1) as nat, big))
            } else {
                Err(Fault::EndOfStream)
            },
        }
    }
}

} // verus!

verus! {

proof fn lemma_view_of_lists(v: Vec<List>)
    ensures
        list_view(List::List(v)) == ListModel::List(v@.map_values(|l: List| l@)),
{
    let m = list_view(List::List(v));
    assert(m->List_0 =~= v@.map_values(|l: List| l@));
}

proof fn lemma_view_of_compounds(v: Vec<Vec<(String, Tag)>>)
    ensures
        list_view(List::Compound(v)) == ListModel::Compound(v@.map_values(|c: Vec<(String, Tag)>| entries_view(c))),
{
    let m = list_view(List::Compound(v));
    assert(m->Compound_0 =~= v@.map_values(|c: Vec<(String, Tag)>| entries_view(c)));
}

pub proof fn lemma_put_keeps_keys_unique(e: Entries, name: Seq<char>, t: TagModel)
    requires
        keys_unique(e),
    ensures
        keys_unique(put(e, name, t)),
{
    let r = put(e, name, t);
    if exists|i: int| 0 <= i < e.len() && e[i].0 == name {
        let k = choose|i: int| 0 <= i < e.len() && e[i].0 == name;
        assert forall|i: int, j: int| 0 <= i < r.len() && 0 <= j < r.len() && r[i].0 == r[j].0 implies i == j by {
            assert(r[i].0 == e[i].0);
            assert(r[j].0 == e[j].0);
        }
    } else {
        assert forall|i: int, j: int| 0 <= i < r.len() && 0 <= j < r.len() && r[i].0 == r[j].0 implies i == j by {
            if i < e.len() && j < e.len() {
                assert(r[i].0 == e[i].0 && r[j].0 == e[j].0);
            }
        }
    }
}

/// Sets `name` to `t` among the entries: an entry of that name keeps its
/// place and takes the new value, else the entry goes at the end.
pub fn put_entry(entries: &mut Vec<(String, Tag)>, name: String, t: Tag)
    requires
        keys_unique(entries_view(*old(entries))),
    ensures
        entries_view(*final(entries)) == put(entries_view(*old(entries)), name@, t@),
        keys_unique(entries_view(*final(entries))),
{
    let ghost e = entries_view(*entries);
    let ghost key = name@;
    let ghost tm = t@;
    proof {
        lemma_put_keeps_keys_unique(e, key, tm);
    }
    let mut i: usize = 0;
    while i < entries.len()
        invariant
            i <= entries.len(),
            e == entries_view(*entries),
            *entries == *old(entries),
            key == name@,
            tm == t@,
            keys_unique(e),
            forall|j: int| 0 <= j < i ==> e[j].0 != key,
        decreases entries.len() - i,
    {
        if entries[i].0 == name {
            assert(e[i as int].0 == key);
            assert(exists|j: int| 0 <= j < e.len() && e[j].0 == key);
            let ghost k = choose|j: int| 0 <= j < e.len() && e[j].0 == key;
            assert(k == i);
            entries.set(i, (name, t));
            assert(entries_view(*entries) =~= put(e, key, tm));
            return;
        }
        i = i + 1;
    }
    assert(!exists|j: int| 0 <= j < e.len() && e[j].0 == key);
    entries.push((name, t));
    assert(entries_view(*entries) =~= put(e, key, tm));
}

/// Reads the entries of a compound up to its end marker, or up to the end
/// of the buffer, which also ends a compound. A later entry of a name
/// replaces the value of an earlier one.
pub fn read_compound<R: FileReader>(fr: &mut R) -> (r: BinResult<Vec<(String, Tag)>>)
    ensures
        final(fr).data() == old(fr).data(),
        final(fr).big_endian() == old(fr).big_endian(),
        match compound_at(old(fr).data(), old(fr).pos(), old(fr).big_endian(), Seq::empty()) {
            Ok((e, p)) => r matches Ok(v) && entries_view(v) == e && final(fr).pos() == p,
            Err(f) => r matches Err(x) && describes(x, f),
        },
        r is Ok ==> old(fr).pos() <= final(fr).pos(),
        r is Ok && final(fr).pos() != old(fr).pos() ==> final(fr).pos() <= old(fr).data().len(),
    decreases old(fr).data().len() - old(fr).pos(), 0nat,
{
    let ghost d = fr.data();
    let ghost big = fr.big_endian();
    let ghost start = fr.pos();
    let mut acc: Vec<(String, Tag)> = Vec::new();
    assert(entries_view(acc) =~= Seq::empty());
    while !fr.at_end()
        invariant
            fr.data() == d,
            d == old(fr).data(),
            fr.big_endian() == big,
            big == old(fr).big_endian(),
            start == old(fr).pos(),
            start <= fr.pos(),
            fr.pos() == start || fr.pos() <= d.len(),
            keys_unique(entries_view(acc)),
            compound_at(d, start, big, Seq::empty()) == compound_at(d, fr.pos(), big, entries_view(acc)),
        decreases d.len() - fr.pos(),
    {
        let ghost cur = fr.pos();
        let id = match fr.read_u8() {
            Ok(id) => id,
            Err(e) => {
                return Err(e);
            },
        };
        if id == 0 {
            return Ok(acc);
        }
        let name = match fr.read_string() {
            Ok(s) => s,
            Err(e) => {
                return Err(e);
            },
        };
        let t = match Tag::read(id, fr) {
            Ok(t) => t,
            Err(e) => {
                return Err(e);
            },
        };
        put_entry(&mut acc, name, t);
    }
    Ok(acc)
}

/// Reads the count and elements of a list whose element type id is
/// `list_id`. A count of zero or less gives the empty list whatever the id;
/// the end id with elements is an error.
pub fn read_list<R: FileReader>(list_id: u8, fr: &mut R) -> (r: BinResult<List>)
    ensures
        final(fr).data() == old(fr).data(),
        final(fr).big_endian() == old(fr).big_endian(),
        match list_body_at(list_id, old(fr).data(), old(fr).pos(), old(fr).big_endian()) {
            Ok((l, p)) => r matches Ok(x) && x@ == l && final(fr).pos() == p,
            Err(f) => r matches Err(e) && describes(e, f),
        },
        r is Ok ==> old(fr).pos() < final(fr).pos() <= old(fr).data().len(),
    decreases old(fr).data().len() - old(fr).pos(), 0nat,
{
    let ghost d = fr.data();
    let ghost big = fr.big_endian();
    let n = i32::read(fr)?;
    if n <= 0 {
        return Ok(List::Empty);
    }
    let k = n as usize;
    if list_id == 0 {
        Err(fault_error(&Fault::EndTypedList))
    } else if list_id == 1 {
        Ok(List::Byte(read_items(fr, k)?))
    } else if list_id == 2 {
        Ok(List::Short(read_items(fr, k)?))
    } else if list_id == 3 {
        Ok(List::Int(read_items(fr, k)?))
    } else if list_id == 4 {
        Ok(List::Long(read_items(fr, k)?))
    } else if list_id == 5 {
        Ok(List::Float(read_items(fr, k)?))
    } else if list_id == 6 {
        Ok(List::Double(read_items(fr, k)?))
    } else if list_id == 7 {
        let v = read_arrays(fr, k)?;
        proof { assert(Seq::new(v.len() as nat, |i: int| v@[i]@) =~= v@.map_values(|a: Vec<i8>| a@)); }
        Ok(List::ByteArray(v))
    } else if list_id == 8 {
        let v = read_strings(fr, k)?;
        proof { assert(Seq::new(v.len() as nat, |i: int| v@[i]@) =~= v@.map_values(|s: String| s@)); }
        Ok(List::String(v))
    } else if list_id == 9 {
        let ghost items_start = fr.pos();
        let mut out: Vec<List> = Vec::new();
        let mut i: usize = 0;
        assert(after(Seq::empty(), lists_at(d, items_start, k as nat, big)) =~= lists_at(d, items_start, k as nat, big)) by {
            match lists_at(d, items_start, k as nat, big) {
                Ok((ys, p)) => { assert(Seq::<ListModel>::empty() + ys =~= ys); },
                Err(f) => {},
            }
        }
        assert(out@.map_values(|l: List| l@) =~= Seq::<ListModel>::empty());
        assert(list_body_at(list_id, d, old(fr).pos(), big)
            == as_list(lists_at(d, items_start, k as nat, big), |v: Seq<ListModel>| ListModel::List(v)));
        while i < k
            invariant
                list_body_at(list_id, d, old(fr).pos(), big)
                    == as_list(lists_at(d, items_start, k as nat, big), |v: Seq<ListModel>| ListModel::List(v)),
                fr.data() == d,
                d == old(fr).data(),
                fr.big_endian() == big,
                big == old(fr).big_endian(),
                old(fr).pos() < items_start <= fr.pos() <= d.len(),
                i <= k,
                lists_at(d, items_start, k as nat, big)
                    == after(out@.map_values(|l: List| l@), lists_at(d, fr.pos(), (k - i) as nat, big)),
            decreases k - i,
        {
            let ghost cur = fr.pos();
            let id = match fr.read_u8() {
                Ok(id) => id,
                Err(e) => {
                    proof {
                        assert(lists_at(d, cur, (k - i) as nat, big) == Err::<(Seq<ListModel>, int), Fault>(Fault::EndOfStream));
                    }
                    return Err(e);
                },
            };
            let l = match read_list(id, fr) {
                Ok(l) => l,
                Err(e) => {
                    proof {
                        assert(list_at(d, cur, big) == list_body_at(id, d, cur + 1, big));
                    }
                    return Err(e);
                },
            };
            proof {
                lemma_after_prepend(out@.map_values(|l: List| l@), l@, lists_at(d, fr.pos(), (k - i - 1) as nat, big));
            }
            let ghost before = out@;
            out.push(l);
            i = i + 1;
            assert(out@.map_values(|l: List| l@) =~= before.map_values(|l: List| l@).push(l@));
        }
        proof {
            assert(out@.map_values(|l: List| l@) + Seq::<ListModel>::empty() =~= out@.map_values(|l: List| l@));
            lemma_view_of_lists(out);
        }
        Ok(List::List(out))
    } else if list_id == 10 {
        let ghost items_start = fr.pos();
        let mut out: Vec<Vec<(String, Tag)>> = Vec::new();
        let mut i: usize = 0;
        assert(after(Seq::empty(), compounds_at(d, items_start, k as nat, big)) =~= compounds_at(d, items_start, k as nat, big)) by {
            match compounds_at(d, items_start, k as nat, big) {
                Ok((ys, p)) => { assert(Seq::<Entries>::empty() + ys =~= ys); },
                Err(f) => {},
            }
        }
        assert(out@.map_values(|c: Vec<(String, Tag)>| entries_view(c)) =~= Seq::<Entries>::empty());
        assert(list_body_at(list_id, d, old(fr).pos(), big)
            == as_list(compounds_at(d, items_start, k as nat, big), |v: Seq<Entries>| ListModel::Compound(v)));
        while i < k
            invariant
                list_body_at(list_id, d, old(fr).pos(), big)
                    == as_list(compounds_at(d, items_start, k as nat, big), |v: Seq<Entries>| ListModel::Compound(v)),
                fr.data() == d,
                d == old(fr).data(),
                fr.big_endian() == big,
                big == old(fr).big_endian(),
                old(fr).pos() < items_start <= fr.pos() <= d.len(),
                i <= k,
                compounds_at(d, items_start, k as nat, big) == after(
                    out@.map_values(|c: Vec<(String, Tag)>| entries_view(c)),
                    compounds_at(d, fr.pos(), (k - i) as nat, big),
                ),
            decreases k - i,
        {
            let ghost cur = fr.pos();
            let c = match read_compound(fr) {
                Ok(c) => c,
                Err(e) => {
                    proof {
                        assert(compounds_at(d, cur, (k - i) as nat, big) matches Err(f) && describes(e, f));
                    }
                    return Err(e);
                },
            };
            proof {
                lemma_after_prepend(
                    out@.map_values(|c: Vec<(String, Tag)>| entries_view(c)),
                    entries_view(c),
                    compounds_at(d, fr.pos(), (k - i - 1) as nat, big),
                );
            }
            let ghost before = out@;
            out.push(c);
            i = i + 1;
            assert(out@.map_values(|c: Vec<(String, Tag)>| entries_view(c))
                =~= before.map_values(|c: Vec<(String, Tag)>| entries_view(c)).push(entries_view(c)));
        }
        proof {
            assert(out@.map_values(|c: Vec<(String, Tag)>| entries_view(c)) + Seq::<Entries>::empty()
                =~= out@.map_values(|c: Vec<(String, Tag)>| entries_view(c)));
            lemma_view_of_compounds(out);
        }
        Ok(List::Compound(out))
    } else if list_id == 11 {
        let v = read_arrays(fr, k)?;
        proof { assert(Seq::new(v.len() as nat, |i: int| v@[i]@) =~= v@.map_values(|a: Vec<i32>| a@)); }
        Ok(List::IntArray(v))
    } else if list_id == 12 {
        let v = read_arrays(fr, k)?;
        proof { assert(Seq::new(v.len() as nat, |i: int| v@[i]@) =~= v@.map_values(|a: Vec<i64>| a@)); }
        Ok(List::LongArray(v))
    } else {
        Err(fault_error(&Fault::BadTagId(list_id)))
    }
}

impl TagIo for Tag {
    /// Reads the payload of a tag whose type id is `tag_id`.
    fn read<R: FileReader>(tag_id: u8, fr: &mut R) -> (r: BinResult<Tag>)
        ensures
            final(fr).data() == old(fr).data(),
            final(fr).big_endian() == old(fr).big_endian(),
            match tag_at(tag_id, old(fr).data(), old(fr).pos(), old(fr).big_endian()) {
                Ok((t, p)) => r matches Ok(x) && x@ == t && final(fr).pos() == p,
                Err(f) => r matches Err(e) && describes(e, f),
            },
            r is Ok ==> old(fr).pos() <= final(fr).pos(),
            r is Ok && final(fr).pos() != old(fr).pos() ==> final(fr).pos() <= old(fr).data().len(),
            tag_id == 0 || tag_id > 12 ==> final(fr).pos() == old(fr).pos(),
        decreases old(fr).data().len() - old(fr).pos(), 1nat,
    {
        if tag_id == 1 {
            Ok(Tag::Byte(i8::read(fr)?))
        } else if tag_id == 2 {
            Ok(Tag::Short(i16::read(fr)?))
        } else if tag_id == 3 {
            Ok(Tag::Int(i32::read(fr)?))
        } else if tag_id == 4 {
            Ok(Tag::Long(i64::read(fr)?))
        } else if tag_id == 5 {
            Ok(Tag::Float(u32::read(fr)?))
        } else if tag_id == 6 {
            Ok(Tag::Double(u64::read(fr)?))
        } else if tag_id == 7 {
            Ok(Tag::ByteArray(read_array(fr)?))
        } else if tag_id == 8 {
            Ok(Tag::String(fr.read_string()?))
        } else if tag_id == 9 {
            let id = fr.read_u8()?;
            Ok(Tag::List(read_list(id, fr)?))
        } else if tag_id == 10 {
            Ok(Tag::Compound(read_compound(fr)?))
        } else if tag_id == 11 {
            Ok(Tag::IntArray(read_array(fr)?))
        } else if tag_id == 12 {
            Ok(Tag::LongArray(read_array(fr)?))
        } else {
            Err(fault_error(&Fault::BadTagId(tag_id)))
        }
    }
}

} // verus!

verus! {

broadcast use vstd::std_specs::vec::group_vec_axioms;

proof fn lemma_empty_items(big: bool)
    ensures
        items_bytes(list_view(List::Empty), big) == Seq::<u8>::empty(),
{
    assert(list_view(List::Empty) == ListModel::Empty);
}

/// Writes a compound's entries, each as type id, name and payload, then the
/// end marker.
pub fn write_compound<W: FileWriter>(entries: &Vec<(String, Tag)>, fw: &mut W)
    ensures
        final(fw).written() == old(fw).written() + entries_bytes(entries_view(*entries), old(fw).big_endian()),
        final(fw).big_endian() == old(fw).big_endian(),
        entries_texts_read_back(entries_view(*entries)),
    decreases entries, 0nat,
{
    let ghost big = fw.big_endian();
    let ghost w0 = fw.written();
    let ghost e = entries_view(*entries);
    let mut i: usize = 0;
    assert(e.subrange(0, 0) =~= Seq::<(Seq<char>, TagModel)>::empty());
    assert(w0 + Seq::<u8>::empty() =~= w0);
    while i < entries.len()
        invariant
            i <= entries.len(),
            e == entries_view(*entries),
            fw.big_endian() == big,
            big == old(fw).big_endian(),
            w0 == old(fw).written(),
            fw.written() == w0 + entries_body(e.subrange(0, i as int), big),
            forall|j: int| 0 <= j < i ==> text_reads_back(#[trigger] e[j].0) && texts_read_back(e[j].1),
        decreases entries.len() - i,
    {
        let entry = &entries[i];
        proof {
            assert(decreases_to!(*entries => entries[i as int]));
        }
        let ghost prev = fw.written();
        fw.write_u8(entry.1.tag_id());
        fw.write_string(&entry.0);
        entry.1.write(fw);
        proof {
            let s = e.subrange(0, i + 1);
            assert(s.subrange(0, s.len() - 1) =~= e.subrange(0, i as int));
            assert(fw.written() =~= prev + entry_bytes(e[i as int].0, e[i as int].1, big));
            assert(e[i as int] == (entries@[i as int].0@, entries@[i as int].1@));
        }
        i = i + 1;
    }
    fw.write_u8(0);
    assert(e.subrange(0, entries.len() as int) =~= e);
    assert(forall|j: int| 0 <= j < e.len() ==> text_reads_back(#[trigger] e[j].0) && texts_read_back(e[j].1));
    assert(entries_texts_read_back(e));
    assert(fw.written() =~= w0 + entries_bytes(e, big));
}

impl Tag {
    /// The type id of the tag.
    pub fn tag_id(&self) -> (r: u8)
        ensures
            r == id_of(self@),
    {
        match self {
            Tag::Byte(_) => 0x01,
            Tag::Short(_) => 0x02,
            Tag::Int(_) => 0x03,
            Tag::Long(_) => 0x04,
            Tag::Float(_) => 0x05,
            Tag::Double(_) => 0x06,
            Tag::ByteArray(_) => 0x07,
            Tag::String(_) => 0x08,
            Tag::List(_) => 0x09,
            Tag::Compound(_) => 0x0A,
            Tag::IntArray(_) => 0x0B,
            Tag::LongArray(_) => 0x0C,
        }
    }
}

impl Writer for Tag {
    /// The payload of the tag, without its type id.
    open spec fn wire(&self, big: bool) -> Seq<u8> {
        tag_bytes(self@, big)
    }

    /// Writes the payload of the tag, without its type id.
    fn write<W: FileWriter>(&self, fw: &mut W)
        ensures
            texts_read_back(self@),
        decreases self, 0nat,
    {
        match self {
            Tag::Byte(v) => v.write(fw),
            Tag::Short(v) => v.write(fw),
            Tag::Int(v) => v.write(fw),
            Tag::Long(v) => v.write(fw),
            Tag::Float(v) => v.write(fw),
            Tag::Double(v) => v.write(fw),
            Tag::ByteArray(v) => write_array(fw, v),
            Tag::String(v) => fw.write_string(v),
            Tag::List(v) => v.write(fw),
            Tag::Compound(v) => write_compound(v, fw),
            Tag::IntArray(v) => write_array(fw, v),
            Tag::LongArray(v) => write_array(fw, v),
        }
    }
}

impl Writer for List {
    /// The list with its header.
    open spec fn wire(&self, big: bool) -> Seq<u8> {
        list_bytes(self@, big)
    }

    /// Writes the list: element type id, count, elements. A list without
    /// elements, of any variant, is written as the end id and a zero count.
    fn write<W: FileWriter>(&self, fw: &mut W)
        ensures
            list_texts_read_back(self@),
        decreases self, 1nat,
    {
        let ghost big = fw.big_endian();
        let ghost w0 = fw.written();
        let n = self.len();
        if n == 0 {
            fw.write_u8(0);
            fw.write_u8(0);
            fw.write_u8(0);
            fw.write_u8(0);
            fw.write_u8(0);
            assert(fw.written() =~= w0 + list_bytes(self@, big));
            return;
        }
        fw.write_u8(self.element_id());
        fw.write_u32(#[verifier::truncate] (n as u32));
        let ghost w1 = fw.written();
        assert(w1 =~= w0 + seq![element_id(self@)] + count_wire(list_len(self@), big));
        self.write_items(fw);
        assert(fw.written() =~= w0 + list_bytes(self@, big));
    }
}

impl Writer for String {
    /// The text's length field and modified UTF-8 bytes.
    open spec fn wire(&self, big: bool) -> Seq<u8> {
        string_wire(self@, big)
    }

    fn write<W: FileWriter>(&self, fw: &mut W) {
        fw.write_string(self)
    }
}

impl List {
    /// The number of elements.
    pub fn len(&self) -> (r: usize)
        ensures
            r == list_len(self@),
    {
        match self {
            List::Empty => 0,
            List::Byte(v) => v.len(),
            List::Short(v) => v.len(),
            List::Int(v) => v.len(),
            List::Long(v) => v.len(),
            List::Float(v) => v.len(),
            List::Double(v) => v.len(),
            List::ByteArray(v) => v.len(),
            List::String(v) => v.len(),
            List::List(v) => v.len(),
            List::Compound(v) => v.len(),
            List::IntArray(v) => v.len(),
            List::LongArray(v) => v.len(),
        }
    }

    /// The element type id of a list with elements.
    fn element_id(&self) -> (r: u8)
        ensures
            r == element_id(self@),
    {
        match self {
            List::Empty => 0x00,
            List::Byte(_) => 0x01,
            List::Short(_) => 0x02,
            List::Int(_) => 0x03,
            List::Long(_) => 0x04,
            List::Float(_) => 0x05,
            List::Double(_) => 0x06,
            List::ByteArray(_) => 0x07,
            List::String(_) => 0x08,
            List::List(_) => 0x09,
            List::Compound(_) => 0x0A,
            List::IntArray(_) => 0x0B,
            List::LongArray(_) => 0x0C,
        }
    }

    /// Writes the elements, without the list's header.
    fn write_items<W: FileWriter>(&self, fw: &mut W)
        ensures
            final(fw).written() == old(fw).written() + items_bytes(self@, old(fw).big_endian()),
            final(fw).big_endian() == old(fw).big_endian(),
            list_texts_read_back(self@),
        decreases self, 0nat,
    {
        let ghost big = fw.big_endian();
        match self {
            List::Empty => {
                proof {
                    lemma_empty_items(big);
                }
                assert(fw.written() =~= old(fw).written() + Seq::<u8>::empty());
            },
            List::Byte(v) => write_items(fw, v),
            List::Short(v) => write_items(fw, v),
            List::Int(v) => write_items(fw, v),
            List::Long(v) => write_items(fw, v),
            List::Float(v) => write_items(fw, v),
            List::Double(v) => write_items(fw, v),
            List::ByteArray(v) => {
                write_arrays(fw, v);
                assert(Seq::new(v.len() as nat, |i: int| v@[i]@) =~= v@.map_values(|a: Vec<i8>| a@));
            },
            List::String(v) => {
                write_strings(fw, v);
                assert(Seq::new(v.len() as nat, |i: int| v@[i]@) =~= v@.map_values(|s: String| s@));
            },
            List::IntArray(v) => {
                write_arrays(fw, v);
                assert(Seq::new(v.len() as nat, |i: int| v@[i]@) =~= v@.map_values(|a: Vec<i32>| a@));
            },
            List::LongArray(v) => {
                write_arrays(fw, v);
                assert(Seq::new(v.len() as nat, |i: int| v@[i]@) =~= v@.map_values(|a: Vec<i64>| a@));
            },
            List::List(v) => {
                let ghost m = v@.map_values(|l: List| l@);
                let ghost w0 = fw.written();
                proof {
                    lemma_view_of_lists(*v);
                }
                let mut i: usize = 0;
                assert(m.subrange(0, 0) =~= Seq::<ListModel>::empty());
                assert(w0 + Seq::<u8>::empty() =~= w0);
                while i < v.len()
                    invariant
                        i <= v.len(),
                        *self == List::List(*v),
                        m == v@.map_values(|l: List| l@),
                        fw.big_endian() == big,
                        big == old(fw).big_endian(),
                        w0 == old(fw).written(),
                        fw.written() == w0 + lists_body(m.subrange(0, i as int), big),
                        forall|j: int| 0 <= j < i ==> list_texts_read_back(#[trigger] m[j]),
                    decreases v.len() - i,
                {
                    proof {
                        assert(decreases_to!(*self => self->List_0));
                        assert(decreases_to!(*v => v[i as int]));
                    }
                    v[i].write(fw);
                    proof {
                        let s = m.subrange(0, i + 1);
                        assert(s.subrange(0, s.len() - 1) =~= m.subrange(0, i as int));
                    }
                    i = i + 1;
                }
                assert(m.subrange(0, v.len() as int) =~= m);
            },
            List::Compound(v) => {
                let ghost m = v@.map_values(|c: Vec<(String, Tag)>| entries_view(c));
                let ghost w0 = fw.written();
                proof {
                    lemma_view_of_compounds(*v);
                }
                let mut i: usize = 0;
                assert(m.subrange(0, 0) =~= Seq::<Entries>::empty());
                assert(w0 + Seq::<u8>::empty() =~= w0);
                while i < v.len()
                    invariant
                        i <= v.len(),
                        *self == List::Compound(*v),
                        m == v@.map_values(|c: Vec<(String, Tag)>| entries_view(c)),
                        fw.big_endian() == big,
                        big == old(fw).big_endian(),
                        w0 == old(fw).written(),
                        fw.written() == w0 + compounds_body(m.subrange(0, i as int), big),
                        forall|j: int| 0 <= j < i ==> entries_texts_read_back(#[trigger] m[j]),
                    decreases v.len() - i,
                {
                    proof {
                        assert(decreases_to!(*self => self->Compound_0));
                        assert(decreases_to!(*v => v[i as int]));
                    }
                    write_compound(&v[i], fw);
                    proof {
                        let s = m.subrange(0, i + 1);
                        assert(s.subrange(0, s.len() - 1) =~= m.subrange(0, i as int));
                    }
                    i = i + 1;
                }
                assert(m.subrange(0, v.len() as int) =~= m);
            },
        }
    }
}

} // verus!

verus! {

/// The tree in `bytes`: the entries of the root compound, whose type id
/// the format leaves implicit, read in the given byte order.
pub open spec fn document_at(bytes: Seq<u8>, big: bool) -> Step<TagModel> {
    tag_at(0x0A, bytes, 0, big)
}

/// Decodes a document: the body of a root compound, in the given byte
/// order.
pub fn decode(bytes: &Vec<u8>, big_endian: bool) -> (r: BinResult<Tag>)
    ensures
        match document_at(bytes@, big_endian) {
            Ok((t, _)) => r matches Ok(x) && x@ == t,
            Err(f) => r matches Err(e) && describes(e, f),
        },
{
    if big_endian {
        let mut fr = FileReaderBE::new(bytes, 0);
        Tag::read(0x0A, &mut fr)
    } else {
        let mut fr = FileReaderLE::new(bytes, 0);
        Tag::read(0x0A, &mut fr)
    }
}

/// Encodes a tag's payload in the given byte order; for a compound this is
/// a document that `decode` reads. Every tag that the format can hold as it
/// is (see `encodable_tag`) reads back from these bytes as itself, to their
/// end.
pub fn encode(tag: &Tag, big_endian: bool) -> (r: Vec<u8>)
    ensures
        r@ == tag_bytes(tag@, big_endian),
        texts_read_back(tag@),
        crate::laws::encodable_tag(tag@) ==> tag_at(id_of(tag@), r@, 0, big_endian)
            == Ok::<(TagModel, int), Fault>((tag@, r@.len() as int)),
{
    let r = if big_endian {
        let mut fw = FileWriterBE::new();
        tag.write(&mut fw);
        assert(fw.written() =~= tag_bytes(tag@, big_endian));
        fw.bytes()
    } else {
        let mut fw = FileWriterLE::new();
        tag.write(&mut fw);
        assert(fw.written() =~= tag_bytes(tag@, big_endian));
        fw.bytes()
    };
    proof {
        if crate::laws::encodable_tag(tag@) {
            crate::laws::lemma_canonical_when_encodable(tag@);
            assert(r@.subrange(0, r@.len() as int) =~= r@);
            crate::laws::lemma_tag_read_back(tag@, r@, 0, big_endian);
        }
    }
    r
}

impl Tag {
    /// The tag as the only entry, named `k`, of a new compound.
    pub fn wrapped(self, k: String) -> (r: Tag)
        ensures
            r@ == TagModel::Compound(seq![(k@, self@)]),
    {
        let ghost m = self@;
        let ghost name = k@;
        let mut entries: Vec<(String, Tag)> = Vec::new();
        entries.push((k, self));
        let r = Tag::Compound(entries);
        assert(entries_view(entries) =~= seq![(name, m)]);
        r
    }
}

} // verus!
