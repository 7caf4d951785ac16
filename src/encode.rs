use vstd::prelude::*;

use crate::nbt_tag::{
    encodable, kind, lemma_tags_view, name_ok, tag_name, tags_view, type_id, NbtTag,
    NbtTagCompound, NbtTagType, Tag,
};
use crate::wire::{
    be_bytes, latin1_bytes, lemma_pow256_values, text_len, twos, write_i16, write_i32, write_i64,
    write_i8, write_text, write_uint,
};

verus! {

/// A name on the wire: its length in two bytes, then one byte per character.
pub open spec fn name_bytes(n: Seq<char>) -> Seq<u8> {
    be_bytes(n.len(), 2) + latin1_bytes(n)
}

/// Numbers of `w` bytes each, in two's complement, one after the other.
pub open spec fn ser_words(v: Seq<int>, w: nat) -> Seq<u8>
    decreases v.len(),
{
    if v.len() == 0 {
        Seq::empty()
    } else {
        be_bytes(twos(v[0], w), w) + ser_words(v.subrange(1, v.len() as int), w)
    }
}

pub open spec fn ints_i8(v: Seq<i8>) -> Seq<int> {
    v.map(|i: int, x: i8| x as int)
}

pub open spec fn ints_i32(v: Seq<i32>) -> Seq<int> {
    v.map(|i: int, x: i32| x as int)
}

pub open spec fn ints_i64(v: Seq<i64>) -> Seq<int> {
    v.map(|i: int, x: i64| x as int)
}

/// The payload of a value on the wire (all but its kind id and name).
pub open spec fn ser_payload(t: Tag) -> Seq<u8>
    decreases t,
{
    match t {
        Tag::End => Seq::empty(),
        Tag::Byte(_, v) => be_bytes(twos(v as int, 1), 1),
        Tag::Short(_, v) => be_bytes(twos(v as int, 2), 2),
        Tag::Int(_, v) => be_bytes(twos(v as int, 4), 4),
        Tag::Long(_, v) => be_bytes(twos(v as int, 8), 8),
        Tag::Float(_, b) => be_bytes(b as nat, 4),
        Tag::Double(_, b) => be_bytes(b as nat, 8),
        Tag::ByteArray(_, v) => be_bytes(v.len(), 4) + ser_words(ints_i8(v), 1),
        Tag::String(_, v) => be_bytes(v.len(), 2) + latin1_bytes(v),
        Tag::List(_, ety, items) => seq![type_id(ety)] + be_bytes(items.len(), 4) + ser_items(
            items,
        ),
        Tag::Compound(_, cs) => ser_children(cs) + seq![0u8],
        Tag::IntArray(_, v) => be_bytes(v.len(), 4) + ser_words(ints_i32(v), 4),
        Tag::LongArray(_, v) => be_bytes(v.len(), 4) + ser_words(ints_i64(v), 8),
    }
}

/// The payloads of list elements, one after the other.
pub open spec fn ser_items(items: Seq<Tag>) -> Seq<u8>
    decreases items,
{
    if items.len() == 0 {
        Seq::empty()
    } else {
        ser_payload(items[0]) + ser_items(items.subrange(1, items.len() as int))
    }
}

/// Children of a compound, each with its kind id and name (without the
/// closing `End` id).
pub open spec fn ser_children(cs: Seq<Tag>) -> Seq<u8>
    decreases cs,
{
    if cs.len() == 0 {
        Seq::empty()
    } else {
        seq![type_id(kind(cs[0]))] + name_bytes(tag_name(cs[0])) + ser_payload(cs[0])
            + ser_children(cs.subrange(1, cs.len() as int))
    }
}

/// The kind id and name of a value.
pub open spec fn ser_header(t: Tag) -> Seq<u8> {
    seq![type_id(kind(t))] + name_bytes(tag_name(t))
}

/// A named value on the wire; for a root compound, the whole document.
pub open spec fn ser_named(t: Tag) -> Seq<u8> {
    ser_header(t) + ser_payload(t)
}

proof fn lemma_ser_words_step(v: Seq<int>, w: nat, i: int)
    requires
        0 <= i < v.len(),
    ensures
        ser_words(v.subrange(i, v.len() as int), w) == be_bytes(twos(v[i], w), w) + ser_words(
            v.subrange(i + 1, v.len() as int),
            w,
        ),
{
    let r = v.subrange(i, v.len() as int);
    assert(r.subrange(1, r.len() as int) =~= v.subrange(i + 1, v.len() as int));
}

proof fn lemma_ser_items_step(items: Seq<Tag>, i: int)
    requires
        0 <= i < items.len(),
    ensures
        ser_items(items.subrange(i, items.len() as int)) == ser_payload(items[i]) + ser_items(
            items.subrange(i + 1, items.len() as int),
        ),
{
    let r = items.subrange(i, items.len() as int);
    assert(r.subrange(1, r.len() as int) =~= items.subrange(i + 1, items.len() as int));
}

proof fn lemma_ser_children_step(cs: Seq<Tag>, i: int)
    requires
        0 <= i < cs.len(),
    ensures
        ser_children(cs.subrange(i, cs.len() as int)) == ser_header(cs[i]) + ser_payload(cs[i])
            + ser_children(cs.subrange(i + 1, cs.len() as int)),
{
    let r = cs.subrange(i, cs.len() as int);
    assert(r.subrange(1, r.len() as int) =~= cs.subrange(i + 1, cs.len() as int));
}

proof fn lemma_compound_child_encodable(n: Seq<char>, cs: Seq<Tag>, i: int)
    requires
        encodable(Tag::Compound(n, cs)),
        0 <= i < cs.len(),
    ensures
        name_ok(tag_name(cs[i])),
        encodable(cs[i]),
{
    let t = Tag::Compound(n, cs);
    assert(t->Compound_1 == cs);
}

/// Writes the one-byte id of a tag kind.
fn write_tag_type(buf: &mut Vec<u8>, ty: NbtTagType)
    ensures
        final(buf)@ == old(buf)@.push(type_id(ty)),
{
    buf.push(ty.id());
}

/// Writes a name: its length in two bytes, then one byte per character.
fn write_tag_name(buf: &mut Vec<u8>, s: &String)
    requires
        name_ok(s@),
    ensures
        final(buf)@ == old(buf)@ + name_bytes(s@),
{
    let n = text_len(s);
    write_uint(buf, n as u64, 2);
    write_text(buf, s);
    assert(buf@ =~= old(buf)@ + name_bytes(s@));
}

fn write_i8s(buf: &mut Vec<u8>, values: &Vec<i8>)
    ensures
        final(buf)@ == old(buf)@ + ser_words(ints_i8(values@), 1),
{
    let ghost v = ints_i8(values@);
    let ghost start = buf@;
    let mut i: usize = 0;
    assert(v.subrange(0, v.len() as int) =~= v);
    while i < values.len()
        invariant
            i <= values.len(),
            v == ints_i8(values@),
            v.len() == values@.len(),
            buf@ + ser_words(v.subrange(i as int, v.len() as int), 1) == start + ser_words(v, 1),
        decreases values.len() - i,
    {
        proof {
            lemma_ser_words_step(v, 1, i as int);
        }
        write_i8(buf, values[i]);
        i = i + 1;
        assert(buf@ + ser_words(v.subrange(i as int, v.len() as int), 1) =~= start + ser_words(v, 1));
    }
    assert(v.subrange(i as int, v.len() as int) =~= Seq::<int>::empty());
    assert(buf@ =~= start + ser_words(v, 1));
}

fn write_i32s(buf: &mut Vec<u8>, values: &Vec<i32>)
    ensures
        final(buf)@ == old(buf)@ + ser_words(ints_i32(values@), 4),
{
    let ghost v = ints_i32(values@);
    let ghost start = buf@;
    let mut i: usize = 0;
    assert(v.subrange(0, v.len() as int) =~= v);
    while i < values.len()
        invariant
            i <= values.len(),
            v == ints_i32(values@),
            v.len() == values@.len(),
            buf@ + ser_words(v.subrange(i as int, v.len() as int), 4) == start + ser_words(v, 4),
        decreases values.len() - i,
    {
        proof {
            lemma_ser_words_step(v, 4, i as int);
        }
        write_i32(buf, values[i]);
        i = i + 1;
        assert(buf@ + ser_words(v.subrange(i as int, v.len() as int), 4) =~= start + ser_words(v, 4));
    }
    assert(v.subrange(i as int, v.len() as int) =~= Seq::<int>::empty());
    assert(buf@ =~= start + ser_words(v, 4));
}

fn write_i64s(buf: &mut Vec<u8>, values: &Vec<i64>)
    ensures
        final(buf)@ == old(buf)@ + ser_words(ints_i64(values@), 8),
{
    let ghost v = ints_i64(values@);
    let ghost start = buf@;
    let mut i: usize = 0;
    assert(v.subrange(0, v.len() as int) =~= v);
    while i < values.len()
        invariant
            i <= values.len(),
            v == ints_i64(values@),
            v.len() == values@.len(),
            buf@ + ser_words(v.subrange(i as int, v.len() as int), 8) == start + ser_words(v, 8),
        decreases values.len() - i,
    {
        proof {
            lemma_ser_words_step(v, 8, i as int);
        }
        write_i64(buf, values[i]);
        i = i + 1;
        assert(buf@ + ser_words(v.subrange(i as int, v.len() as int), 8) =~= start + ser_words(v, 8));
    }
    assert(v.subrange(i as int, v.len() as int) =~= Seq::<int>::empty());
    assert(buf@ =~= start + ser_words(v, 8));
}

/// Writes a value: its kind id and name when `write_name` holds (children
/// of a compound), then its payload. List elements are written without
/// either, as the list announces their kind once.
fn write_value(buf: &mut Vec<u8>, value: &NbtTag, write_name: bool)
    requires
        encodable(value@),
        write_name ==> name_ok(tag_name(value@)),
    ensures
        final(buf)@ == old(buf)@ + (if write_name {
            ser_header(value@)
        } else {
            Seq::empty()
        }) + ser_payload(value@),
    decreases value,
{
    let ghost start = buf@;
    if write_name {
        match value {
            NbtTag::End => {},
            NbtTag::Byte(x) => write_tag_header(buf, NbtTagType::Byte, &x.name),
            NbtTag::Short(x) => write_tag_header(buf, NbtTagType::Short, &x.name),
            NbtTag::Int(x) => write_tag_header(buf, NbtTagType::Int, &x.name),
            NbtTag::Long(x) => write_tag_header(buf, NbtTagType::Long, &x.name),
            NbtTag::Float(x) => write_tag_header(buf, NbtTagType::Float, &x.name),
            NbtTag::Double(x) => write_tag_header(buf, NbtTagType::Double, &x.name),
            NbtTag::ByteArray(x) => write_tag_header(buf, NbtTagType::ByteArray, &x.name),
            NbtTag::String(x) => write_tag_header(buf, NbtTagType::String, &x.name),
            NbtTag::List(x) => write_tag_header(buf, NbtTagType::List, &x.name),
            NbtTag::Compound(x) => write_tag_header(buf, NbtTagType::Compound, &x.name),
            NbtTag::IntArray(x) => write_tag_header(buf, NbtTagType::IntArray, &x.name),
            NbtTag::LongArray(x) => write_tag_header(buf, NbtTagType::LongArray, &x.name),
        }
    }
    let ghost mid = buf@;
    assert(mid == start + (if write_name {
        ser_header(value@)
    } else {
        Seq::empty()
    })) by {
        if !write_name {
            assert(mid =~= start + Seq::<u8>::empty());
        }
    }
    proof {
        lemma_pow256_values();
    }
    match value {
        NbtTag::End => {
            assert(buf@ =~= mid + ser_payload(value@));
        },
        NbtTag::Byte(x) => write_i8(buf, x.value),
        NbtTag::Short(x) => write_i16(buf, x.value),
        NbtTag::Int(x) => write_i32(buf, x.value),
        NbtTag::Long(x) => write_i64(buf, x.value),
        NbtTag::Float(x) => write_uint(buf, x.bits as u64, 4),
        NbtTag::Double(x) => write_uint(buf, x.bits, 8),
        NbtTag::ByteArray(x) => {
            write_uint(buf, x.values.len() as u64, 4);
            write_i8s(buf, &x.values);
            assert(buf@ =~= mid + ser_payload(value@));
        },
        NbtTag::String(x) => {
            let n = text_len(&x.value);
            write_uint(buf, n as u64, 2);
            write_text(buf, &x.value);
            assert(buf@ =~= mid + ser_payload(value@));
        },
        NbtTag::List(l) => {
            let ghost items = tags_view(l.values@);
            proof {
                lemma_tags_view(l.values@);
            }
            write_tag_type(buf, l.ty);
            write_uint(buf, l.values.len() as u64, 4);
            let ghost head = buf@;
            let mut i: usize = 0;
            assert(items.subrange(0, items.len() as int) =~= items);
            while i < l.values.len()
                invariant
                    i <= l.values.len(),
                    *value == NbtTag::List(*l),
                    items == tags_view(l.values@),
                    items.len() == l.values@.len(),
                    forall|k: int| 0 <= k < items.len() ==> #[trigger] items[k] == l.values@[k]@,
                    encodable(value@),
                    buf@ + ser_items(items.subrange(i as int, items.len() as int)) == head
                        + ser_items(items),
                decreases l.values.len() - i,
            {
                proof {
                    lemma_ser_items_step(items, i as int);
                    assert(decreases_to!(*value => (*value)->List_0));
                    assert(decreases_to!(*l => l.values));
                    assert(decreases_to!(l.values => l.values[i as int]));
                    assert(kind(items[i as int]) == l.ty && encodable(items[i as int]));
                }
                write_value(buf, &l.values[i], false);
                i = i + 1;
                assert(buf@ + ser_items(items.subrange(i as int, items.len() as int)) =~= head
                    + ser_items(items));
            }
            assert(items.subrange(i as int, items.len() as int) =~= Seq::<Tag>::empty());
            assert(buf@ =~= mid + ser_payload(value@));
        },
        NbtTag::Compound(c) => {
            proof {
                assert(decreases_to!(*value => (*value)->Compound_0));
            }
            write_compound(buf, c);
        },
        NbtTag::IntArray(x) => {
            write_uint(buf, x.values.len() as u64, 4);
            write_i32s(buf, &x.values);
            assert(buf@ =~= mid + ser_payload(value@));
        },
        NbtTag::LongArray(x) => {
            write_uint(buf, x.values.len() as u64, 4);
            write_i64s(buf, &x.values);
            assert(buf@ =~= mid + ser_payload(value@));
        },
    }
    assert(buf@ =~= start + (if write_name {
        ser_header(value@)
    } else {
        Seq::empty()
    }) + ser_payload(value@));
}

fn write_tag_header(buf: &mut Vec<u8>, ty: NbtTagType, name: &String)
    requires
        name_ok(name@),
    ensures
        final(buf)@ == old(buf)@ + seq![type_id(ty)] + name_bytes(name@),
{
    write_tag_type(buf, ty);
    write_tag_name(buf, name);
    assert(buf@ =~= old(buf)@ + seq![type_id(ty)] + name_bytes(name@));
}

/// Writes the children of a compound, each with its kind id and name, and
/// the `End` id that closes it.
fn write_compound(buf: &mut Vec<u8>, compound: &NbtTagCompound)
    requires
        encodable(compound@),
    ensures
        final(buf)@ == old(buf)@ + ser_payload(compound@),
    decreases compound,
{
    let ghost cs = tags_view(compound.values@);
    proof {
        lemma_tags_view(compound.values@);
    }
    let ghost start = buf@;
    let mut i: usize = 0;
    assert(cs.subrange(0, cs.len() as int) =~= cs);
    while i < compound.values.len()
        invariant
            i <= compound.values.len(),
            cs == tags_view(compound.values@),
            cs.len() == compound.values@.len(),
            forall|k: int| 0 <= k < cs.len() ==> #[trigger] cs[k] == compound.values@[k]@,
            encodable(compound@),
            buf@ + ser_children(cs.subrange(i as int, cs.len() as int)) == start + ser_children(cs),
        decreases compound.values.len() - i,
    {
        proof {
            lemma_ser_children_step(cs, i as int);
            assert(decreases_to!(*compound => compound.values));
            assert(decreases_to!(compound.values => compound.values[i as int]));
            assert(compound@ == Tag::Compound(compound.name@, cs));
            lemma_compound_child_encodable(compound.name@, cs, i as int);
        }
        write_value(buf, &compound.values[i], true);
        i = i + 1;
        assert(buf@ + ser_children(cs.subrange(i as int, cs.len() as int)) =~= start
            + ser_children(cs));
    }
    assert(cs.subrange(i as int, cs.len() as int) =~= Seq::<Tag>::empty());
    buf.push(0u8);
    assert(buf@ =~= start + ser_payload(compound@));
}

/// Appends the document whose root is `compound`: its kind id, its name
/// and its children, each list and array with a 4-byte count.
pub fn write(buf: &mut Vec<u8>, compound: &NbtTagCompound)
    requires
        name_ok(compound.name@),
        encodable(compound@),
    ensures
        final(buf)@ == old(buf)@ + ser_named(compound@),
{
    write_tag_header(buf, NbtTagType::Compound, &compound.name);
    write_compound(buf, compound);
    assert(buf@ =~= old(buf)@ + ser_named(compound@));
}

} // verus!
