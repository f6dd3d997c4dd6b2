//! What holds between the encoder and the decoder.
use vstd::prelude::*;
use crate::binary::{
    array_at, array_wire, arrays_at, arrays_wire, bytes_of, count_wire, each, items_at, items_wire,
    lemma_uint_round_trip, pow256, prepend, string_at, string_wire, strings_at, strings_wire,
    uint_of, window, Fault, Io, Writer,
};
use crate::nbt::{
    compound_at, compounds_at, compounds_body, element_id, entries_body, entries_bytes, entry_bytes,
    id_of, items_bytes, keys_unique, list_at, list_body_at, list_bytes, list_len, lists_at, lists_body,
    put, tag_at, tag_bytes, Entries, ListModel, TagModel,
};
use crate::text::{mutf8_of, text_of_mutf8};

verus! {

/// A text that can be written and reads back: its modified UTF-8 form fits
/// the 16-bit length, and decodes to the text again.
pub open spec fn text_ok(s: Seq<char>) -> bool {
    &&& mutf8_of(s).len() <= 0xFFFF
    &&& text_of_mutf8(mutf8_of(s)) == Some(s)
}

/// A count that fits the signed 32-bit count field.
pub open spec fn count_ok(n: nat) -> bool {
    n <= 0x7FFF_FFFF
}

/// A tag that reads back as itself: every text and count fits, no list is
/// an empty typed list, and no compound repeats a name.
pub open spec fn canonical_tag(t: TagModel) -> bool
    decreases t, 0nat,
{
    match t {
        TagModel::ByteArray(a) => count_ok(a.len()),
        TagModel::IntArray(a) => count_ok(a.len()),
        TagModel::LongArray(a) => count_ok(a.len()),
        TagModel::String(s) => text_ok(s),
        TagModel::List(l) => canonical_list(l),
        TagModel::Compound(e) => keys_unique(e) && canonical_entries(e),
        _ => true,
    }
}

/// Every entry has a name that reads back and a canonical value.
pub open spec fn canonical_entries(e: Entries) -> bool
    decreases e, 1nat,
{
    forall|i: int| 0 <= i < e.len() ==> text_ok(#[trigger] e[i].0) && canonical_tag(e[i].1)
}

pub open spec fn canonical_list(l: ListModel) -> bool
    decreases l, 0nat,
{
    &&& count_ok(list_len(l))
    &&& (list_len(l) == 0 ==> l is Empty)
    &&& match l {
        ListModel::ByteArray(v) => forall|i: int| 0 <= i < v.len() ==> count_ok(#[trigger] v[i].len()),
        ListModel::IntArray(v) => forall|i: int| 0 <= i < v.len() ==> count_ok(#[trigger] v[i].len()),
        ListModel::LongArray(v) => forall|i: int| 0 <= i < v.len() ==> count_ok(#[trigger] v[i].len()),
        ListModel::String(v) => forall|i: int| 0 <= i < v.len() ==> text_ok(#[trigger] v[i]),
        ListModel::List(v) => forall|i: int| 0 <= i < v.len() ==> canonical_list(#[trigger] v[i]),
        ListModel::Compound(v) => forall|i: int| 0 <= i < v.len() ==> keys_unique(#[trigger] v[i]) && canonical_entries(v[i]),
        _ => true,
    }
}

/// `b` stands in `data` at `pos`.
pub open spec fn holds_at(data: Seq<u8>, pos: int, b: Seq<u8>) -> bool {
    0 <= pos && pos + b.len() <= data.len() && data.subrange(pos, pos + b.len()) == b
}

proof fn lemma_split(data: Seq<u8>, pos: int, a: Seq<u8>, b: Seq<u8>)
    requires
        holds_at(data, pos, a + b),
    ensures
        holds_at(data, pos, a),
        holds_at(data, pos + a.len(), b),
{
    assert(data.subrange(pos, pos + a.len()) =~= (a + b).subrange(0, a.len() as int));
    assert(data.subrange(pos + a.len(), pos + a.len() + b.len()) =~= (a + b).subrange(a.len() as int, (a + b).len() as int));
    assert((a + b).subrange(0, a.len() as int) =~= a);
    assert((a + b).subrange(a.len() as int, (a + b).len() as int) =~= b);
}

proof fn lemma_each_front<A>(s: Seq<A>, f: spec_fn(A) -> Seq<u8>)
    requires
        s.len() > 0,
    ensures
        each(s, f) == f(s[0]) + each(s.subrange(1, s.len() as int), f),
{
    let g = Seq::new(s.len(), |i: int| f(s[i]));
    assert(g.drop_first() =~= Seq::new(s.subrange(1, s.len() as int).len(), |i: int| f(s.subrange(1, s.len() as int)[i])));
}

proof fn lemma_entries_body_front(e: Entries, big: bool)
    requires
        e.len() > 0,
    ensures
        entries_body(e, big) == entry_bytes(e[0].0, e[0].1, big) + entries_body(e.subrange(1, e.len() as int), big),
    decreases e.len(),
{
    let n = e.len() as int;
    let d = e.subrange(0, n - 1);
    let t = e.subrange(1, n);
    if n == 1 {
        assert(d =~= Seq::<(Seq<char>, TagModel)>::empty());
        assert(t =~= Seq::<(Seq<char>, TagModel)>::empty());
        assert(entries_body(e, big) =~= entry_bytes(e[0].0, e[0].1, big) + Seq::<u8>::empty());
    } else {
        lemma_entries_body_front(d, big);
        assert(t.subrange(0, t.len() - 1) =~= d.subrange(1, d.len() as int));
        assert(t[t.len() - 1] == e[n - 1]);
        assert(d[0] == e[0]);
        assert(entries_body(e, big) =~= entry_bytes(e[0].0, e[0].1, big) + entries_body(t, big));
    }
}

proof fn lemma_lists_body_front(v: Seq<ListModel>, big: bool)
    requires
        v.len() > 0,
    ensures
        lists_body(v, big) == list_bytes(v[0], big) + lists_body(v.subrange(1, v.len() as int), big),
    decreases v.len(),
{
    let n = v.len() as int;
    let d = v.subrange(0, n - 1);
    let t = v.subrange(1, n);
    if n == 1 {
        assert(d =~= Seq::<ListModel>::empty());
        assert(t =~= Seq::<ListModel>::empty());
        assert(lists_body(d, big) == Seq::<u8>::empty());
        assert(lists_body(t, big) == Seq::<u8>::empty());
        assert(lists_body(v, big) =~= list_bytes(v[0], big) + Seq::<u8>::empty());
    } else {
        lemma_lists_body_front(d, big);
        assert(t.subrange(0, t.len() - 1) =~= d.subrange(1, d.len() as int));
        assert(t[t.len() - 1] == v[n - 1]);
        assert(d[0] == v[0]);
        assert(lists_body(v, big) =~= list_bytes(v[0], big) + lists_body(t, big));
    }
}

proof fn lemma_compounds_body_front(v: Seq<Entries>, big: bool)
    requires
        v.len() > 0,
    ensures
        compounds_body(v, big) == entries_bytes(v[0], big) + compounds_body(v.subrange(1, v.len() as int), big),
    decreases v.len(),
{
    let n = v.len() as int;
    let d = v.subrange(0, n - 1);
    let t = v.subrange(1, n);
    if n == 1 {
        assert(d =~= Seq::<Entries>::empty());
        assert(t =~= Seq::<Entries>::empty());
        assert(compounds_body(d, big) == Seq::<u8>::empty());
        assert(compounds_body(t, big) == Seq::<u8>::empty());
        assert(compounds_body(v, big) =~= entries_bytes(v[0], big) + Seq::<u8>::empty());
    } else {
        lemma_compounds_body_front(d, big);
        assert(t.subrange(0, t.len() - 1) =~= d.subrange(1, d.len() as int));
        assert(t[t.len() - 1] == v[n - 1]);
        assert(d[0] == v[0]);
        assert(compounds_body(v, big) =~= entries_bytes(v[0], big) + compounds_body(t, big));
    }
}

/// Numbers read back from their bytes.
pub proof fn lemma_items_read_back<T: Io>(s: Seq<T>, data: Seq<u8>, pos: int, big: bool)
    requires
        holds_at(data, pos, items_wire(s, big)),
    ensures
        items_at::<T>(data, pos, s.len(), big) == Ok::<(Seq<T>, int), Fault>((s, pos + items_wire(s, big).len())),
    decreases s.len(),
{
    if s.len() == 0 {
        assert(items_wire(s, big) =~= Seq::<u8>::empty());
        assert(s =~= Seq::<T>::empty());
    } else {
        let rest = s.subrange(1, s.len() as int);
        lemma_each_front(s, |x: T| x.wire(big));
        lemma_split(data, pos, s[0].wire(big), items_wire(rest, big));
        s[0].lemma_read_back(data, pos, big);
        let p = pos + s[0].wire(big).len();
        lemma_items_read_back(rest, data, p, big);
        assert(T::at(data, pos, big) == Ok::<(T, int), Fault>((s[0], p)));
        assert(items_at::<T>(data, pos, s.len(), big) == prepend(s[0], items_at::<T>(data, p, rest.len(), big)));
        assert(seq![s[0]] + rest =~= s);
        assert(items_wire(s, big).len() == s[0].wire(big).len() + items_wire(rest, big).len());
    }
}

/// A count field reads back as the count.
proof fn lemma_count_read_back(n: nat, data: Seq<u8>, pos: int, big: bool)
    requires
        count_ok(n),
        holds_at(data, pos, count_wire(n, big)),
    ensures
        i32::at(data, pos, big) == Ok::<(i32, int), Fault>((n as i32, pos + 4)),
        n as i32 >= 0,
        count_wire(n, big).len() == 4,
{
    let v = n as i32;
    assert(v as u32 == n as u32);
    lemma_uint_round_trip(n as u32 as nat, 4, big);
    v.lemma_read_back(data, pos, big);
}

pub proof fn lemma_array_read_back<T: Io>(s: Seq<T>, data: Seq<u8>, pos: int, big: bool)
    requires
        count_ok(s.len()),
        holds_at(data, pos, array_wire(s, big)),
    ensures
        array_at::<T>(data, pos, big) == Ok::<(Seq<T>, int), Fault>((s, pos + array_wire(s, big).len())),
{
    lemma_split(data, pos, count_wire(s.len(), big), items_wire(s, big));
    lemma_count_read_back(s.len(), data, pos, big);
    lemma_items_read_back(s, data, pos + 4, big);
}

/// A text reads back from its bytes.
pub proof fn lemma_string_read_back(s: Seq<char>, data: Seq<u8>, pos: int, big: bool)
    requires
        text_ok(s),
        holds_at(data, pos, string_wire(s, big)),
    ensures
        string_at(data, pos, big) == Ok::<(Seq<char>, int), Fault>((s, pos + string_wire(s, big).len())),
{
    let m = mutf8_of(s);
    let n = m.len();
    assert(n as u16 as nat == n);
    lemma_uint_round_trip(n, 2, big);
    reveal_with_fuel(pow256, 3);
    assert(pow256(2) == 65536);
    lemma_split(data, pos, bytes_of(n, 2, big), m);
    let h = bytes_of(n, 2, big);
    assert(window(data, pos, 2) == Some(h));
    assert(uint_of(h, big) == n);
    assert(window(data, pos + 2, n as int) == Some(m));
}

pub proof fn lemma_arrays_read_back<T: Io>(s: Seq<Seq<T>>, data: Seq<u8>, pos: int, big: bool)
    requires
        forall|i: int| 0 <= i < s.len() ==> count_ok(#[trigger] s[i].len()),
        holds_at(data, pos, arrays_wire(s, big)),
    ensures
        arrays_at::<T>(data, pos, s.len(), big) == Ok::<(Seq<Seq<T>>, int), Fault>((s, pos + arrays_wire(s, big).len())),
    decreases s.len(),
{
    if s.len() == 0 {
        assert(arrays_wire(s, big) =~= Seq::<u8>::empty());
        assert(s =~= Seq::<Seq<T>>::empty());
    } else {
        let rest = s.subrange(1, s.len() as int);
        lemma_each_front(s, |a: Seq<T>| array_wire(a, big));
        lemma_split(data, pos, array_wire(s[0], big), arrays_wire(rest, big));
        lemma_array_read_back(s[0], data, pos, big);
        let p = pos + array_wire(s[0], big).len();
        assert forall|i: int| 0 <= i < rest.len() implies count_ok(#[trigger] rest[i].len()) by {
            assert(0 <= i + 1 < s.len());
            assert(rest[i] == s[i + 1]);
        }
        lemma_arrays_read_back(rest, data, p, big);
        assert(arrays_at::<T>(data, pos, s.len(), big) == prepend(s[0], arrays_at::<T>(data, p, rest.len(), big)));
        assert(seq![s[0]] + rest =~= s);
    }
}

pub proof fn lemma_strings_read_back(s: Seq<Seq<char>>, data: Seq<u8>, pos: int, big: bool)
    requires
        forall|i: int| 0 <= i < s.len() ==> text_ok(#[trigger] s[i]),
        holds_at(data, pos, strings_wire(s, big)),
    ensures
        strings_at(data, pos, s.len(), big) == Ok::<(Seq<Seq<char>>, int), Fault>((s, pos + strings_wire(s, big).len())),
    decreases s.len(),
{
    if s.len() == 0 {
        assert(strings_wire(s, big) =~= Seq::<u8>::empty());
        assert(s =~= Seq::<Seq<char>>::empty());
    } else {
        let rest = s.subrange(1, s.len() as int);
        lemma_each_front(s, |t: Seq<char>| string_wire(t, big));
        lemma_split(data, pos, string_wire(s[0], big), strings_wire(rest, big));
        lemma_string_read_back(s[0], data, pos, big);
        let p = pos + string_wire(s[0], big).len();
        assert forall|i: int| 0 <= i < rest.len() implies text_ok(#[trigger] rest[i]) by {
            assert(0 <= i + 1 < s.len());
            assert(rest[i] == s[i + 1]);
        }
        lemma_strings_read_back(rest, data, p, big);
        assert(strings_at(data, pos, s.len(), big) == prepend(s[0], strings_at(data, p, rest.len(), big)));
        assert(seq![s[0]] + rest =~= s);
    }
}

} // verus!

verus! {

proof fn lemma_zero_count(big: bool)
    ensures
        uint_of(seq![0u8, 0u8, 0u8, 0u8], big) == 0,
{
    let z = seq![0u8, 0u8, 0u8, 0u8];
    assert(z.reverse() =~= z);
    reveal_with_fuel(crate::binary::uint_le, 5);
    assert(z.drop_first() =~= seq![0u8, 0u8, 0u8]);
    assert(z.drop_first().drop_first() =~= seq![0u8, 0u8]);
    assert(z.drop_first().drop_first().drop_first() =~= seq![0u8]);
    assert(z.drop_first().drop_first().drop_first().drop_first() =~= Seq::<u8>::empty());
}

/// A canonical tag reads back from its bytes, whatever follows them.
pub proof fn lemma_tag_read_back(t: TagModel, data: Seq<u8>, pos: int, big: bool)
    requires
        canonical_tag(t),
        holds_at(data, pos, tag_bytes(t, big)),
    ensures
        tag_at(id_of(t), data, pos, big) == Ok::<(TagModel, int), Fault>((t, pos + tag_bytes(t, big).len())),
    decreases t,
{
    match t {
        TagModel::Byte(v) => v.lemma_read_back(data, pos, big),
        TagModel::Short(v) => v.lemma_read_back(data, pos, big),
        TagModel::Int(v) => v.lemma_read_back(data, pos, big),
        TagModel::Long(v) => v.lemma_read_back(data, pos, big),
        TagModel::Float(v) => v.lemma_read_back(data, pos, big),
        TagModel::Double(v) => v.lemma_read_back(data, pos, big),
        TagModel::ByteArray(a) => lemma_array_read_back(a, data, pos, big),
        TagModel::String(s) => lemma_string_read_back(s, data, pos, big),
        TagModel::List(l) => lemma_list_read_back(l, data, pos, big),
        TagModel::Compound(e) => {
            assert(Seq::<(Seq<char>, TagModel)>::empty() + e =~= e);
            lemma_entries_read_back(e, Seq::empty(), data, pos, big);
        },
        TagModel::IntArray(a) => lemma_array_read_back(a, data, pos, big),
        TagModel::LongArray(a) => lemma_array_read_back(a, data, pos, big),
    }
}

/// A canonical list reads back from its bytes.
#[verifier::rlimit(60)]
pub proof fn lemma_list_read_back(l: ListModel, data: Seq<u8>, pos: int, big: bool)
    requires
        canonical_list(l),
        holds_at(data, pos, list_bytes(l, big)),
    ensures
        list_at(data, pos, big) == Ok::<(ListModel, int), Fault>((l, pos + list_bytes(l, big).len())),
    decreases l,
{
    let n = list_len(l);
    if n == 0 {
        lemma_zero_count(big);
        assert(data.subrange(pos, pos + 5)[0] == data[pos]);
        assert(data[pos] == 0);
        assert(data.subrange(pos + 1, pos + 5) =~= seq![0u8, 0u8, 0u8, 0u8]);
        assert(0u32 as i32 == 0);
    } else {
        let eid = element_id(l);
        let items = items_bytes(l, big);
        lemma_split(data, pos, seq![eid] + count_wire(n, big), items);
        lemma_split(data, pos, seq![eid], count_wire(n, big));
        lemma_count_read_back(n, data, pos + 1, big);
        assert(data.subrange(pos, pos + 1)[0] == data[pos]);
        assert(data[pos] == eid);
        let p = pos + 5;
        assert(uint_of(data.subrange(pos + 1, pos + 5), big) as u32 as i32 == n as i32);
        assert((n as i32) as int == n);
        match l {
            ListModel::Empty => {},
            ListModel::Byte(v) => lemma_items_read_back(v, data, p, big),
            ListModel::Short(v) => lemma_items_read_back(v, data, p, big),
            ListModel::Int(v) => lemma_items_read_back(v, data, p, big),
            ListModel::Long(v) => lemma_items_read_back(v, data, p, big),
            ListModel::Float(v) => lemma_items_read_back(v, data, p, big),
            ListModel::Double(v) => lemma_items_read_back(v, data, p, big),
            ListModel::ByteArray(v) => lemma_arrays_read_back(v, data, p, big),
            ListModel::String(v) => lemma_strings_read_back(v, data, p, big),
            ListModel::List(v) => lemma_lists_read_back(v, data, p, big),
            ListModel::Compound(v) => lemma_compounds_read_back(v, data, p, big),
            ListModel::IntArray(v) => lemma_arrays_read_back(v, data, p, big),
            ListModel::LongArray(v) => lemma_arrays_read_back(v, data, p, big),
        }
    }
}

proof fn lemma_lists_read_back(v: Seq<ListModel>, data: Seq<u8>, pos: int, big: bool)
    requires
        forall|i: int| 0 <= i < v.len() ==> canonical_list(#[trigger] v[i]),
        holds_at(data, pos, lists_body(v, big)),
    ensures
        lists_at(data, pos, v.len(), big) == Ok::<(Seq<ListModel>, int), Fault>((v, pos + lists_body(v, big).len())),
    decreases v,
{
    if v.len() == 0 {
        assert(v =~= Seq::<ListModel>::empty());
    } else {
        let rest = v.subrange(1, v.len() as int);
        lemma_lists_body_front(v, big);
        lemma_split(data, pos, list_bytes(v[0], big), lists_body(rest, big));
        lemma_list_read_back(v[0], data, pos, big);
        let p = pos + list_bytes(v[0], big).len();
        assert forall|i: int| 0 <= i < rest.len() implies canonical_list(#[trigger] rest[i]) by {
            assert(0 <= i + 1 < v.len());
            assert(rest[i] == v[i + 1]);
        }
        lemma_lists_read_back(rest, data, p, big);
        assert(seq![v[0]] + rest =~= v);
    }
}

proof fn lemma_compounds_read_back(v: Seq<Entries>, data: Seq<u8>, pos: int, big: bool)
    requires
        forall|i: int| 0 <= i < v.len() ==> keys_unique(#[trigger] v[i]) && canonical_entries(v[i]),
        holds_at(data, pos, compounds_body(v, big)),
    ensures
        compounds_at(data, pos, v.len(), big) == Ok::<(Seq<Entries>, int), Fault>((v, pos + compounds_body(v, big).len())),
    decreases v,
{
    if v.len() == 0 {
        assert(v =~= Seq::<Entries>::empty());
    } else {
        let rest = v.subrange(1, v.len() as int);
        lemma_compounds_body_front(v, big);
        lemma_split(data, pos, entries_bytes(v[0], big), compounds_body(rest, big));
        assert(Seq::<(Seq<char>, TagModel)>::empty() + v[0] =~= v[0]);
        assert(keys_unique(v[0]));
        lemma_entries_read_back(v[0], Seq::empty(), data, pos, big);
        let p = pos + entries_bytes(v[0], big).len();
        assert forall|i: int| 0 <= i < rest.len() implies keys_unique(#[trigger] rest[i]) && canonical_entries(rest[i]) by {
            assert(0 <= i + 1 < v.len());
            assert(rest[i] == v[i + 1]);
        }
        lemma_compounds_read_back(rest, data, p, big);
        assert(seq![v[0]] + rest =~= v);
    }
}

proof fn lemma_canonical_entries_split(e: Entries)
    requires
        canonical_entries(e),
        e.len() > 0,
    ensures
        text_ok(e[0].0),
        canonical_tag(e[0].1),
        canonical_entries(e.subrange(1, e.len() as int)),
{
    let rest = e.subrange(1, e.len() as int);
    let all = forall|i: int| 0 <= i < e.len() ==> text_ok(#[trigger] e[i].0) && canonical_tag(e[i].1);
    assert(all);
    assert(text_ok(e[0].0) && canonical_tag(e[0].1));
    assert forall|i: int| 0 <= i < rest.len() implies text_ok(#[trigger] rest[i].0) && canonical_tag(rest[i].1) by {
        let j = i + 1;
        assert(0 <= j < e.len());
        assert(rest[i] == e[j]);
        assert(all);
        assert(text_ok(e[j].0));
        assert(canonical_tag(e[j].1));
    }
}

proof fn lemma_fresh_name(acc: Entries, e: Entries)
    requires
        keys_unique(acc + e),
        e.len() > 0,
    ensures
        put(acc, e[0].0, e[0].1) == acc.push(e[0]),
        acc.push(e[0]) + e.subrange(1, e.len() as int) == acc + e,
{
    let name = e[0].0;
    assert(!exists|i: int| 0 <= i < acc.len() && acc[i].0 == name) by {
        if exists|i: int| 0 <= i < acc.len() && acc[i].0 == name {
            let i = choose|i: int| 0 <= i < acc.len() && acc[i].0 == name;
            assert((acc + e)[i].0 == (acc + e)[acc.len() as int].0);
        }
    }
    assert(acc.push(e[0]) + e.subrange(1, e.len() as int) =~= acc + e);
}

/// The entries of a compound read back after `acc`, where no name repeats.
#[verifier::rlimit(60)]
proof fn lemma_entries_read_back(e: Entries, acc: Entries, data: Seq<u8>, pos: int, big: bool)
    requires
        canonical_entries(e),
        keys_unique(acc + e),
        holds_at(data, pos, entries_bytes(e, big)),
    ensures
        compound_at(data, pos, big, acc) == Ok::<(Entries, int), Fault>((acc + e, pos + entries_bytes(e, big).len())),
    decreases e,
{
    if e.len() == 0 {
        assert(entries_body(e, big) == Seq::<u8>::empty());
        assert(entries_bytes(e, big) =~= seq![0u8]);
        assert(data.subrange(pos, pos + 1)[0] == data[pos]);
        assert(data[pos] == 0);
        assert(acc + e =~= acc);
    } else {
        let rest = e.subrange(1, e.len() as int);
        let name = e[0].0;
        let t = e[0].1;
        lemma_entries_body_front(e, big);
        assert(entries_bytes(e, big) =~= entry_bytes(name, t, big) + entries_bytes(rest, big));
        lemma_split(data, pos, entry_bytes(name, t, big), entries_bytes(rest, big));
        lemma_split(data, pos, seq![id_of(t)] + string_wire(name, big), tag_bytes(t, big));
        lemma_split(data, pos, seq![id_of(t)], string_wire(name, big));
        lemma_canonical_entries_split(e);
        assert(data.subrange(pos, pos + 1)[0] == data[pos]);
        assert(data[pos] == id_of(t));
        lemma_string_read_back(name, data, pos + 1, big);
        let p = pos + 1 + string_wire(name, big).len();
        lemma_tag_read_back(t, data, p, big);
        let q = p + tag_bytes(t, big).len();
        lemma_fresh_name(acc, e);
        let acc2 = acc.push((name, t));
        lemma_entries_read_back(rest, acc2, data, q, big);
    }
}

/// Decoding what `encode` made of a canonical compound gives it back, in
/// either byte order; the bytes are read to their end.
pub proof fn lemma_decode_encode(t: TagModel, big: bool)
    requires
        t is Compound,
        canonical_tag(t),
    ensures
        crate::nbt::document_at(tag_bytes(t, big), big)
            == Ok::<(TagModel, int), Fault>((t, tag_bytes(t, big).len() as int)),
{
    let b = tag_bytes(t, big);
    assert(b.subrange(0, b.len() as int) =~= b);
    lemma_tag_read_back(t, b, 0, big);
}

} // verus!

verus! {

/// Every list without elements, of any variant, is written as the same five
/// bytes: the end id and a zero count.
pub proof fn lemma_empty_list_bytes(l: ListModel, big: bool)
    requires
        list_len(l) == 0,
    ensures
        list_bytes(l, big) == seq![0u8, 0u8, 0u8, 0u8, 0u8],
{
}

/// Those five bytes read as the empty list; and a zero count reads as the
/// empty list whatever element type id stands before it.
pub proof fn lemma_empty_list_read(eid: u8, data: Seq<u8>, pos: int, big: bool)
    requires
        holds_at(data, pos, seq![0u8, 0u8, 0u8, 0u8]),
    ensures
        list_body_at(eid, data, pos, big) == Ok::<(ListModel, int), Fault>((ListModel::Empty, pos + 4)),
        pos >= 1 && data[pos - 1] == 0 ==> list_at(data, pos - 1, big)
            == Ok::<(ListModel, int), Fault>((ListModel::Empty, pos + 4)),
{
    lemma_zero_count(big);
    assert(0u32 as i32 == 0);
}

/// A buffer too short for a number's width fails with the end of the
/// stream, whatever number type the id names.
pub proof fn lemma_truncated_number(id: u8, data: Seq<u8>, pos: int, big: bool)
    requires
        1 <= id <= 6,
        0 <= pos,
        data.len() < pos + (if id == 1 { 1int } else if id == 2 { 2int } else if id == 3 || id == 5 { 4int } else { 8int }),
    ensures
        tag_at(id, data, pos, big) == Err::<(TagModel, int), Fault>(Fault::EndOfStream),
{
}

/// An id that names no tag fails with that id, as the tag's own id ...
pub proof fn lemma_unknown_id(id: u8, data: Seq<u8>, pos: int, big: bool)
    requires
        id == 0 || id > 12,
    ensures
        tag_at(id, data, pos, big) == Err::<(TagModel, int), Fault>(Fault::BadTagId(id)),
{
}

/// ... as the element id of a list with elements ...
pub proof fn lemma_unknown_element_id(id: u8, data: Seq<u8>, pos: int, big: bool)
    requires
        id > 12,
        0 <= pos,
        pos + 4 <= data.len(),
        uint_of(data.subrange(pos, pos + 4), big) as u32 as i32 > 0,
    ensures
        list_body_at(id, data, pos, big) == Err::<(ListModel, int), Fault>(Fault::BadTagId(id)),
{
}

/// ... and as the id of a compound entry, after its name.
pub proof fn lemma_unknown_entry_id(
    id: u8,
    name: Seq<char>,
    acc: Entries,
    data: Seq<u8>,
    pos: int,
    big: bool,
)
    requires
        id > 12,
        text_ok(name),
        holds_at(data, pos, seq![id] + string_wire(name, big)),
    ensures
        compound_at(data, pos, big, acc) == Err::<(Entries, int), Fault>(Fault::BadTagId(id)),
{
    lemma_split(data, pos, seq![id], string_wire(name, big));
    assert(data.subrange(pos, pos + 1)[0] == data[pos]);
    lemma_string_read_back(name, data, pos + 1, big);
    lemma_unknown_id(id, data, pos + 1 + string_wire(name, big).len(), big);
}

/// One entry of a compound: read, then put among those before it.
proof fn lemma_entry_step(name: Seq<char>, t: TagModel, acc: Entries, data: Seq<u8>, pos: int, big: bool)
    requires
        text_ok(name),
        canonical_tag(t),
        holds_at(data, pos, entry_bytes(name, t, big)),
    ensures
        compound_at(data, pos, big, acc)
            == compound_at(data, pos + entry_bytes(name, t, big).len(), big, put(acc, name, t)),
{
    lemma_split(data, pos, seq![id_of(t)] + string_wire(name, big), tag_bytes(t, big));
    lemma_split(data, pos, seq![id_of(t)], string_wire(name, big));
    assert(data.subrange(pos, pos + 1)[0] == data[pos]);
    lemma_string_read_back(name, data, pos + 1, big);
    lemma_tag_read_back(t, data, pos + 1 + string_wire(name, big).len(), big);
}

/// Of two entries with one name, the later one's value stays, and both are
/// read to their end.
pub proof fn lemma_later_entry_wins(
    name: Seq<char>,
    first: TagModel,
    second: TagModel,
    data: Seq<u8>,
    pos: int,
    big: bool,
)
    requires
        text_ok(name),
        canonical_tag(first),
        canonical_tag(second),
        holds_at(data, pos, entry_bytes(name, first, big) + entry_bytes(name, second, big) + seq![0u8]),
    ensures
        compound_at(data, pos, big, Seq::empty()) == Ok::<(Entries, int), Fault>((
            seq![(name, second)],
            pos + entry_bytes(name, first, big).len() + entry_bytes(name, second, big).len() + 1,
        )),
{
    let a = entry_bytes(name, first, big);
    let b = entry_bytes(name, second, big);
    lemma_split(data, pos, a + b, seq![0u8]);
    lemma_split(data, pos, a, b);
    let second_at = pos + a.len();
    let end_at = second_at + b.len();
    lemma_entry_step(name, first, Seq::empty(), data, pos, big);
    let one = Seq::<(Seq<char>, TagModel)>::empty().push((name, first));
    assert(put(Seq::empty(), name, first) == one);
    lemma_entry_step(name, second, one, data, second_at, big);
    assert(one[0].0 == name);
    let k = choose|i: int| 0 <= i < one.len() && one[i].0 == name;
    assert(k == 0);
    assert(put(one, name, second) =~= seq![(name, second)]);
    assert(data.subrange(end_at, end_at + 1)[0] == data[end_at]);
    assert(data[end_at] == 0);
}

/// A text's length field holds the byte count of its modified UTF-8 form,
/// not its count of characters.
pub proof fn lemma_string_length_field(s: Seq<char>, big: bool)
    requires
        mutf8_of(s).len() <= 0xFFFF,
    ensures
        string_wire(s, big).len() == 2 + mutf8_of(s).len(),
        uint_of(string_wire(s, big).subrange(0, 2), big) == mutf8_of(s).len(),
        string_wire(s, big).subrange(2, string_wire(s, big).len() as int) == mutf8_of(s),
{
    let n = mutf8_of(s).len();
    assert(n as u16 as nat == n);
    lemma_uint_round_trip(n, 2, big);
    reveal_with_fuel(pow256, 3);
    assert(pow256(2) == 65536);
    let w = string_wire(s, big);
    assert(w.subrange(0, 2) =~= bytes_of(n, 2, big));
    assert(w.subrange(2, w.len() as int) =~= mutf8_of(s));
    assert(uint_of(bytes_of(n, 2, big), big) == n % 65536);
    assert(n % 65536 == n);
}

} // verus!

verus! {

/// Whether a text can be written and reads back.
pub fn text_fits(s: &String) -> (r: bool)
    ensures
        r == text_ok(s@),
{
    let b = crate::text::to_mutf8(s.as_str());
    b.len() <= 0xFFFF
}

proof fn lemma_entries_not_canonical(m: Entries, i: int)
    requires
        0 <= i < m.len(),
        !canonical_tag(m[i].1),
    ensures
        !canonical_entries(m),
{
    if canonical_entries(m) {
        let all = forall|j: int| 0 <= j < m.len() ==> text_ok(#[trigger] m[j].0) && canonical_tag(m[j].1);
        assert(all);
        assert(text_ok(m[i].0));
        assert(canonical_tag(m[i].1));
    }
}

/// Whether the entries have names that read back, no name twice, and
/// canonical values.
pub fn entries_are_canonical(e: &Vec<(String, crate::nbt::Tag)>) -> (r: bool)
    ensures
        r == (keys_unique(crate::nbt::entries_view(*e)) && canonical_entries(crate::nbt::entries_view(*e))),
    decreases e,
{
    let ghost m = crate::nbt::entries_view(*e);
    let mut i: usize = 0;
    while i < e.len()
        invariant
            i <= e.len(),
            m == crate::nbt::entries_view(*e),
            m.len() == e.len(),
            forall|j: int| 0 <= j < i ==> text_ok(#[trigger] m[j].0) && canonical_tag(m[j].1),
            forall|j: int, k: int| 0 <= j < i && 0 <= k < i && m[j].0 == m[k].0 ==> j == k,
        decreases e.len() - i,
    {
        proof {
            assert(decreases_to!(*e => e[i as int]));
            assert(m[i as int] == (e@[i as int].0@, e@[i as int].1@));
        }
        if !text_fits(&e[i].0) {
            assert(!canonical_entries(m)) by {
                assert(!text_ok(m[i as int].0));
            }
            return false;
        }
        if !e[i].1.is_canonical() {
            proof {
                lemma_entries_not_canonical(m, i as int);
            }
            return false;
        }
        let mut j: usize = 0;
        while j < i
            invariant
                j <= i < e.len(),
                m == crate::nbt::entries_view(*e),
                m.len() == e.len(),
                forall|k: int| 0 <= k < j ==> m[k].0 != m[i as int].0,
                m[i as int] == (e@[i as int].0@, e@[i as int].1@),
            decreases i - j,
        {
            if e[j].0 == e[i].0 {
                assert(m[j as int] == (e@[j as int].0@, e@[j as int].1@));
                assert(!keys_unique(m)) by {
                    assert(m[j as int].0 == m[i as int].0);
                }
                return false;
            }
            j = j + 1;
        }
        i = i + 1;
    }
    true
}

/// Whether each array of a list fits the count field.
fn arrays_fit<T>(v: &Vec<Vec<T>>, Ghost(m): Ghost<Seq<Seq<T>>>) -> (r: bool)
    requires
        m == v@.map_values(|a: Vec<T>| a@),
    ensures
        r == forall|i: int| 0 <= i < m.len() ==> count_ok(#[trigger] m[i].len()),
{
    let mut i: usize = 0;
    while i < v.len()
        invariant
            i <= v.len(),
            m == v@.map_values(|a: Vec<T>| a@),
            forall|j: int| 0 <= j < i ==> count_ok(#[trigger] m[j].len()),
        decreases v.len() - i,
    {
        if v[i].len() > 0x7FFF_FFFF {
            assert(!count_ok(m[i as int].len()));
            return false;
        }
        i = i + 1;
    }
    true
}

impl crate::nbt::List {
    /// Whether the list reads back as itself: see `canonical_list`.
    pub fn is_canonical(&self) -> (r: bool)
        ensures
            r == canonical_list(self@),
        decreases self,
    {
        let n = self.len();
        if n > 0x7FFF_FFFF {
            return false;
        }
        if n == 0 {
            return match self {
                crate::nbt::List::Empty => true,
                _ => false,
            };
        }
        match self {
            crate::nbt::List::ByteArray(v) => {
                assert(self@->ByteArray_0 =~= v@.map_values(|a: Vec<i8>| a@));
                let r = arrays_fit(v, Ghost(self@->ByteArray_0));
                r
            },
            crate::nbt::List::IntArray(v) => {
                assert(self@->IntArray_0 =~= v@.map_values(|a: Vec<i32>| a@));
                let r = arrays_fit(v, Ghost(self@->IntArray_0));
                r
            },
            crate::nbt::List::LongArray(v) => {
                assert(self@->LongArray_0 =~= v@.map_values(|a: Vec<i64>| a@));
                let r = arrays_fit(v, Ghost(self@->LongArray_0));
                r
            },
            crate::nbt::List::String(v) => {
                let ghost m = self@->String_0;
                let mut i: usize = 0;
                while i < v.len()
                    invariant
                        i <= v.len(),
                        m == self@->String_0,
                        *self == crate::nbt::List::String(*v),
                        forall|j: int| 0 <= j < i ==> text_ok(#[trigger] m[j]),
                    decreases v.len() - i,
                {
                    if !text_fits(&v[i]) {
                        assert(!text_ok(m[i as int]));
                        return false;
                    }
                    i = i + 1;
                }
                true
            },
            crate::nbt::List::List(v) => {
                let ghost m = self@->List_0;
                let mut i: usize = 0;
                while i < v.len()
                    invariant
                        i <= v.len(),
                        m == self@->List_0,
                        *self == crate::nbt::List::List(*v),
                        forall|j: int| 0 <= j < i ==> canonical_list(#[trigger] m[j]),
                    decreases v.len() - i,
                {
                    proof {
                        assert(decreases_to!(*self => self->List_0));
                        assert(decreases_to!(*v => v[i as int]));
                    }
                    if !v[i].is_canonical() {
                        assert(!canonical_list(m[i as int]));
                        return false;
                    }
                    i = i + 1;
                }
                true
            },
            crate::nbt::List::Compound(v) => {
                let ghost m = self@->Compound_0;
                let mut i: usize = 0;
                while i < v.len()
                    invariant
                        i <= v.len(),
                        m == self@->Compound_0,
                        *self == crate::nbt::List::Compound(*v),
                        forall|j: int| 0 <= j < i ==> keys_unique(#[trigger] m[j]) && canonical_entries(m[j]),
                    decreases v.len() - i,
                {
                    proof {
                        assert(decreases_to!(*self => self->Compound_0));
                        assert(decreases_to!(*v => v[i as int]));
                    }
                    if !entries_are_canonical(&v[i]) {
                        assert(!(keys_unique(m[i as int]) && canonical_entries(m[i as int])));
                        return false;
                    }
                    i = i + 1;
                }
                true
            },
            _ => true,
        }
    }
}

impl crate::nbt::Tag {
    /// Whether the tag reads back as itself: see `canonical_tag`, and
    /// `lemma_decode_encode` for what that gives.
    pub fn is_canonical(&self) -> (r: bool)
        ensures
            r == canonical_tag(self@),
        decreases self,
    {
        match self {
            crate::nbt::Tag::ByteArray(a) => a.len() <= 0x7FFF_FFFF,
            crate::nbt::Tag::IntArray(a) => a.len() <= 0x7FFF_FFFF,
            crate::nbt::Tag::LongArray(a) => a.len() <= 0x7FFF_FFFF,
            crate::nbt::Tag::String(s) => text_fits(s),
            crate::nbt::Tag::List(l) => l.is_canonical(),
            crate::nbt::Tag::Compound(e) => entries_are_canonical(e),
            _ => true,
        }
    }
}

} // verus!

verus! {

/// The entries after putting each of `e`, in order, after `acc`.
pub open spec fn put_all(acc: Entries, e: Entries) -> Entries
    decreases e.len(),
{
    if e.len() == 0 {
        acc
    } else {
        put_all(put(acc, e[0].0, e[0].1), e.subrange(1, e.len() as int))
    }
}

/// The value of the last entry of `e` named `k`, if any.
pub open spec fn last_value(e: Entries, k: Seq<char>) -> Option<TagModel>
    decreases e.len(),
{
    if e.len() == 0 {
        None
    } else {
        match last_value(e.subrange(1, e.len() as int), k) {
            Some(v) => Some(v),
            None => if e[0].0 == k { Some(e[0].1) } else { None },
        }
    }
}

/// The value of the entry of `m` named `k`, if any; `m` names each entry
/// once.
pub open spec fn value_of(m: Entries, k: Seq<char>) -> Option<TagModel> {
    if exists|i: int| 0 <= i < m.len() && m[i].0 == k {
        Some(m[choose|i: int| 0 <= i < m.len() && m[i].0 == k].1)
    } else {
        None
    }
}

proof fn lemma_value_of_put(acc: Entries, n: Seq<char>, t: TagModel, k: Seq<char>)
    requires
        keys_unique(acc),
    ensures
        value_of(put(acc, n, t), k) == if k == n { Some(t) } else { value_of(acc, k) },
{
    let r = put(acc, n, t);
    crate::nbt::lemma_put_keeps_keys_unique(acc, n, t);
    if exists|i: int| 0 <= i < acc.len() && acc[i].0 == n {
        let p = choose|i: int| 0 <= i < acc.len() && acc[i].0 == n;
        assert(r == acc.update(p, (n, t)));
        assert(r.len() == acc.len());
        if k == n {
            assert(r[p].0 == k);
            let j = choose|i: int| 0 <= i < r.len() && r[i].0 == k;
            assert(j == p);
        } else {
            if exists|i: int| 0 <= i < acc.len() && acc[i].0 == k {
                let a = choose|i: int| 0 <= i < acc.len() && acc[i].0 == k;
                assert(a != p);
                assert(r[a].0 == k);
                let j = choose|i: int| 0 <= i < r.len() && r[i].0 == k;
                assert(j != p);
                assert(acc[j].0 == k);
                assert(j == a);
            } else {
                assert forall|i: int| 0 <= i < r.len() implies r[i].0 != k by {
                    if i != p {
                        assert(r[i] == acc[i]);
                    }
                }
            }
        }
    } else {
        assert(r == acc.push((n, t)));
        let last = acc.len() as int;
        if k == n {
            assert(r[last].0 == k);
            let j = choose|i: int| 0 <= i < r.len() && r[i].0 == k;
            assert(j == last);
        } else {
            if exists|i: int| 0 <= i < acc.len() && acc[i].0 == k {
                let a = choose|i: int| 0 <= i < acc.len() && acc[i].0 == k;
                assert(r[a].0 == k);
                let j = choose|i: int| 0 <= i < r.len() && r[i].0 == k;
                assert(j != last);
                assert(acc[j].0 == k);
                assert(j == a);
            } else {
                assert forall|i: int| 0 <= i < r.len() implies r[i].0 != k by {
                    if i < last {
                        assert(r[i] == acc[i]);
                    }
                }
            }
        }
    }
}

proof fn lemma_put_all(acc: Entries, e: Entries, k: Seq<char>)
    requires
        keys_unique(acc),
    ensures
        keys_unique(put_all(acc, e)),
        value_of(put_all(acc, e), k) == match last_value(e, k) {
            Some(v) => Some(v),
            None => value_of(acc, k),
        },
    decreases e.len(),
{
    if e.len() > 0 {
        let rest = e.subrange(1, e.len() as int);
        let next = put(acc, e[0].0, e[0].1);
        crate::nbt::lemma_put_keeps_keys_unique(acc, e[0].0, e[0].1);
        lemma_value_of_put(acc, e[0].0, e[0].1, k);
        lemma_put_all(next, rest, k);
    }
}

proof fn lemma_entries_fold(e: Entries, acc: Entries, data: Seq<u8>, pos: int, big: bool)
    requires
        canonical_entries(e),
        holds_at(data, pos, entries_bytes(e, big)),
    ensures
        compound_at(data, pos, big, acc) == Ok::<(Entries, int), Fault>((put_all(acc, e), pos + entries_bytes(e, big).len())),
    decreases e.len(),
{
    if e.len() == 0 {
        assert(entries_body(e, big) == Seq::<u8>::empty());
        assert(entries_bytes(e, big) =~= seq![0u8]);
        assert(data.subrange(pos, pos + 1)[0] == data[pos]);
    } else {
        let rest = e.subrange(1, e.len() as int);
        lemma_entries_body_front(e, big);
        assert(entries_bytes(e, big) =~= entry_bytes(e[0].0, e[0].1, big) + entries_bytes(rest, big));
        lemma_split(data, pos, entry_bytes(e[0].0, e[0].1, big), entries_bytes(rest, big));
        lemma_canonical_entries_split(e);
        lemma_entry_step(e[0].0, e[0].1, acc, data, pos, big);
        lemma_entries_fold(rest, put(acc, e[0].0, e[0].1), data, pos + entry_bytes(e[0].0, e[0].1, big).len(), big);
    }
}

/// A compound whose entries may repeat names reads, to its end marker, as
/// each name once: the names are those of the entries, and each holds the
/// value of the last entry of that name.
pub proof fn lemma_compound_keeps_last_values(e: Entries, data: Seq<u8>, pos: int, big: bool)
    requires
        canonical_entries(e),
        holds_at(data, pos, entries_bytes(e, big)),
    ensures
        compound_at(data, pos, big, Seq::empty()) matches Ok((m, end)) && {
            &&& end == pos + entries_bytes(e, big).len()
            &&& keys_unique(m)
            &&& forall|k: Seq<char>| #[trigger] value_of(m, k) == last_value(e, k)
        },
{
    lemma_entries_fold(e, Seq::empty(), data, pos, big);
    let m = put_all(Seq::empty(), e);
    assert forall|k: Seq<char>| #[trigger] value_of(m, k) == last_value(e, k) by {
        lemma_put_all(Seq::empty(), e, k);
    }
    lemma_put_all(Seq::empty(), e, Seq::empty());
}

} // verus!

verus! {

/// A text whose modified UTF-8 form fits the 16-bit length field.
pub open spec fn text_fits_field(s: Seq<char>) -> bool {
    mutf8_of(s).len() <= 0xFFFF
}

/// A tag that the format can hold as it is: every text and count fits its
/// field, no list is an empty typed list, and no compound repeats a name.
pub open spec fn encodable_tag(t: TagModel) -> bool
    decreases t, 0nat,
{
    match t {
        TagModel::ByteArray(a) => count_ok(a.len()),
        TagModel::IntArray(a) => count_ok(a.len()),
        TagModel::LongArray(a) => count_ok(a.len()),
        TagModel::String(s) => text_fits_field(s),
        TagModel::List(l) => encodable_list(l),
        TagModel::Compound(e) => keys_unique(e) && encodable_entries(e),
        _ => true,
    }
}

pub open spec fn encodable_entries(e: Entries) -> bool
    decreases e, 1nat,
{
    forall|i: int| 0 <= i < e.len() ==> text_fits_field(#[trigger] e[i].0) && encodable_tag(e[i].1)
}

pub open spec fn encodable_list(l: ListModel) -> bool
    decreases l, 0nat,
{
    &&& count_ok(list_len(l))
    &&& (list_len(l) == 0 ==> l is Empty)
    &&& match l {
        ListModel::ByteArray(v) => forall|i: int| 0 <= i < v.len() ==> count_ok(#[trigger] v[i].len()),
        ListModel::IntArray(v) => forall|i: int| 0 <= i < v.len() ==> count_ok(#[trigger] v[i].len()),
        ListModel::LongArray(v) => forall|i: int| 0 <= i < v.len() ==> count_ok(#[trigger] v[i].len()),
        ListModel::String(v) => forall|i: int| 0 <= i < v.len() ==> text_fits_field(#[trigger] v[i]),
        ListModel::List(v) => forall|i: int| 0 <= i < v.len() ==> encodable_list(#[trigger] v[i]),
        ListModel::Compound(v) => forall|i: int| 0 <= i < v.len() ==> keys_unique(#[trigger] v[i]) && encodable_entries(v[i]),
        _ => true,
    }
}

/// An encodable tag whose texts are known to read back is canonical.
pub proof fn lemma_canonical_when_encodable(t: TagModel)
    requires
        encodable_tag(t),
        crate::nbt::texts_read_back(t),
    ensures
        canonical_tag(t),
    decreases t, 0nat,
{
    match t {
        TagModel::List(l) => lemma_canonical_list_when_encodable(l),
        TagModel::Compound(e) => lemma_canonical_entries_when_encodable(e),
        _ => {},
    }
}

proof fn lemma_canonical_entries_when_encodable(e: Entries)
    requires
        encodable_entries(e),
        crate::nbt::entries_texts_read_back(e),
    ensures
        canonical_entries(e),
    decreases e, 1nat,
{
    let fits = forall|i: int| 0 <= i < e.len() ==> text_fits_field(#[trigger] e[i].0) && encodable_tag(e[i].1);
    assert(fits);
    assert forall|i: int| 0 <= i < e.len() implies text_ok(#[trigger] e[i].0) && canonical_tag(e[i].1) by {
        assert(text_fits_field(e[i].0));
        assert(encodable_tag(e[i].1));
        crate::nbt::lemma_entry_texts(e, i);
        lemma_canonical_when_encodable(e[i].1);
    }
}

proof fn lemma_canonical_list_when_encodable(l: ListModel)
    requires
        encodable_list(l),
        crate::nbt::list_texts_read_back(l),
    ensures
        canonical_list(l),
    decreases l, 0nat,
{
    match l {
        ListModel::String(v) => {
            assert forall|i: int| 0 <= i < v.len() implies text_ok(#[trigger] v[i]) by {
                assert(text_fits_field(v[i]));
                assert(crate::binary::text_reads_back(v[i]));
            }
        },
        ListModel::List(v) => {
            assert forall|i: int| 0 <= i < v.len() implies canonical_list(#[trigger] v[i]) by {
                assert(encodable_list(v[i]));
                assert(crate::nbt::list_texts_read_back(v[i]));
                lemma_canonical_list_when_encodable(v[i]);
            }
        },
        ListModel::Compound(v) => {
            assert forall|i: int| 0 <= i < v.len() implies keys_unique(#[trigger] v[i]) && canonical_entries(v[i]) by {
                assert(keys_unique(v[i]));
                assert(encodable_entries(v[i]));
                assert(crate::nbt::entries_texts_read_back(v[i]));
                lemma_canonical_entries_when_encodable(v[i]);
            }
        },
        _ => {},
    }
}

} // verus!
