use vstd::prelude::*;

use crate::decode::{
    children_at, count_at, decode_document, document_at, elems_at, i16_at, i32_at, i64_at, i8_at,
    name_at, value_at, with_child,
};
use crate::encode::{
    ints_i32, ints_i64, ints_i8, name_bytes, ser_children, ser_header, ser_items, ser_named,
    ser_payload, ser_words,
};
use crate::nbt_tag::{
    decodable, document_ok, kind, lemma_type_id_round_trip, name_ok, names_unique, tag_name,
    type_id, type_of_id, NbtTagType, Tag,
};
use crate::wire::{
    be_bytes, latin1_bytes, latin1_chars, lemma_be_bytes_len, lemma_be_round_trip,
    lemma_be_nat_bound, lemma_latin1_chars_ok, lemma_latin1_round_trip, lemma_pow256_values, lemma_twos_round_trip, pow256, signed, twos,
    uint_at,
};

verus! {

/// Where `s` holds `a + b` from `pos` on, it holds `a` from `pos` and `b`
/// right after.
pub proof fn lemma_split(s: Seq<u8>, pos: int, a: Seq<u8>, b: Seq<u8>)
    requires
        0 <= pos,
        pos + a.len() + b.len() <= s.len(),
        s.subrange(pos, pos + a.len() + b.len()) == a + b,
    ensures
        s.subrange(pos, pos + a.len()) == a,
        s.subrange(pos + a.len(), pos + a.len() + b.len()) == b,
{
    let whole = s.subrange(pos, pos + a.len() + b.len());
    assert forall|k: int| 0 <= k < a.len() implies #[trigger] s.subrange(pos, pos + a.len())[k]
        == a[k] by {
        assert(whole[k] == (a + b)[k]);
    }
    assert forall|k: int| 0 <= k < b.len() implies #[trigger] s.subrange(
        pos + a.len(),
        pos + a.len() + b.len(),
    )[k] == b[k] by {
        assert(whole[a.len() + k] == (a + b)[a.len() + k]);
    }
    assert(s.subrange(pos, pos + a.len()) =~= a);
    assert(s.subrange(pos + a.len(), pos + a.len() + b.len()) =~= b);
}

proof fn lemma_uint_read(s: Seq<u8>, pos: int, v: nat, n: nat)
    requires
        v < pow256(n),
        s.subrange(pos, pos + n) == be_bytes(v, n),
    ensures
        uint_at(s, pos, n) == v,
{
    lemma_be_round_trip(v, n);
}

proof fn lemma_signed_read(s: Seq<u8>, pos: int, x: int, n: nat)
    requires
        n > 0,
        -pow256(n) <= 2 * x < pow256(n),
        s.subrange(pos, pos + n) == be_bytes(twos(x, n), n),
    ensures
        signed(uint_at(s, pos, n), n) == x,
{
    lemma_twos_round_trip(x, n);
    lemma_uint_read(s, pos, twos(x, n), n);
}

pub proof fn lemma_ser_words_len(v: Seq<int>, w: nat)
    ensures
        ser_words(v, w).len() == v.len() * w,
    decreases v.len(),
{
    if v.len() > 0 {
        let rest = v.subrange(1, v.len() as int);
        lemma_ser_words_len(rest, w);
        lemma_be_bytes_len(twos(v[0], w), w);
        assert(w + (v.len() - 1) * w == v.len() * w) by (nonlinear_arith);
    }
}

proof fn lemma_words_read(s: Seq<u8>, p: int, v: Seq<int>, w: nat)
    requires
        w > 0,
        0 <= p,
        p + v.len() * w <= s.len(),
        s.subrange(p, p + v.len() * w) == ser_words(v, w),
        forall|i: int| 0 <= i < v.len() ==> -pow256(w) <= 2 * #[trigger] v[i] < pow256(w),
    ensures
        forall|i: int| 0 <= i < v.len() ==> signed(uint_at(s, p + w * i, w), w) == #[trigger] v[i],
    decreases v.len(),
{
    if v.len() > 0 {
        let rest = v.subrange(1, v.len() as int);
        lemma_ser_words_len(rest, w);
        lemma_be_bytes_len(twos(v[0], w), w);
        assert(w + rest.len() * w == v.len() * w) by (nonlinear_arith)
            requires
                rest.len() == v.len() - 1,
        ;
        lemma_split(s, p, be_bytes(twos(v[0], w), w), ser_words(rest, w));
        lemma_signed_read(s, p, v[0], w);
        assert forall|i: int| 0 <= i < rest.len() implies -pow256(w) <= 2 * #[trigger] rest[i]
            < pow256(w) by {
            assert(rest[i] == v[i + 1]);
        }
        lemma_words_read(s, p + w, rest, w);
        assert forall|i: int| 0 <= i < v.len() implies signed(uint_at(s, p + w * i, w), w)
            == #[trigger] v[i] by {
            if i > 0 {
                assert(rest[i - 1] == v[i]);
                assert(p + w + w * (i - 1) == p + w * i) by (nonlinear_arith);
            }
        }
    }
}

proof fn lemma_name_read(s: Seq<u8>, pos: int, n: Seq<char>)
    requires
        name_ok(n),
        0 <= pos,
        pos + 2 + n.len() <= s.len(),
        s.subrange(pos, pos + 2 + n.len()) == name_bytes(n),
    ensures
        name_at(s, pos) == Ok::<(Seq<char>, int), crate::error::FormatError>((n, pos + 2 + n.len())),
{
    lemma_pow256_values();
    lemma_be_bytes_len(n.len(), 2);
    lemma_latin1_round_trip(n);
    lemma_split(s, pos, be_bytes(n.len(), 2), latin1_bytes(n));
    lemma_uint_read(s, pos, n.len(), 2);
}

proof fn lemma_count_read(s: Seq<u8>, pos: int, n: nat)
    requires
        n <= 65536,
        0 <= pos,
        pos + 4 <= s.len(),
        s.subrange(pos, pos + 4) == be_bytes(n, 4),
    ensures
        count_at(s, pos) == Ok::<int, crate::error::FormatError>(n as int),
{
    lemma_pow256_values();
    lemma_uint_read(s, pos, n, 4);
}

/// Every decodable payload takes at least one byte.
pub proof fn lemma_payload_len(t: Tag)
    requires
        decodable(t),
    ensures
        ser_payload(t).len() >= 1,
{
    match t {
        Tag::Byte(_, v) => lemma_be_bytes_len(twos(v as int, 1), 1),
        Tag::Short(_, v) => lemma_be_bytes_len(twos(v as int, 2), 2),
        Tag::Int(_, v) => lemma_be_bytes_len(twos(v as int, 4), 4),
        Tag::Long(_, v) => lemma_be_bytes_len(twos(v as int, 8), 8),
        Tag::Float(_, b) => lemma_be_bytes_len(b as nat, 4),
        Tag::Double(_, b) => lemma_be_bytes_len(b as nat, 8),
        Tag::ByteArray(_, v) => lemma_be_bytes_len(v.len(), 4),
        Tag::String(_, v) => lemma_be_bytes_len(v.len(), 2),
        Tag::List(_, _, items) => lemma_be_bytes_len(items.len(), 4),
        Tag::IntArray(_, v) => lemma_be_bytes_len(v.len(), 4),
        Tag::LongArray(_, v) => lemma_be_bytes_len(v.len(), 4),
        _ => {},
    }
}

/// Arrays read back element by element.
proof fn lemma_array_read(s: Seq<u8>, pos: int, v: Seq<int>, w: nat)
    requires
        w == 1 || w == 2 || w == 4 || w == 8,
        v.len() <= 65536,
        0 <= pos,
        pos + 4 + v.len() * w <= s.len(),
        s.subrange(pos, pos + 4 + v.len() * w) == be_bytes(v.len(), 4) + ser_words(v, w),
        forall|i: int| 0 <= i < v.len() ==> -pow256(w) <= 2 * #[trigger] v[i] < pow256(w),
    ensures
        count_at(s, pos) == Ok::<int, crate::error::FormatError>(v.len() as int),
        forall|i: int| 0 <= i < v.len() ==> signed(uint_at(s, pos + 4 + w * i, w), w) == #[trigger] v[i],
{
    lemma_be_bytes_len(v.len(), 4);
    lemma_ser_words_len(v, w);
    lemma_split(s, pos, be_bytes(v.len(), 4), ser_words(v, w));
    lemma_count_read(s, pos, v.len());
    lemma_words_read(s, pos + 4, v, w);
}

proof fn lemma_number_round_trip(s: Seq<u8>, pos: int, t: Tag)
    requires
        t is Byte || t is Short || t is Int || t is Long || t is Float || t is Double,
        0 <= pos,
        pos + ser_payload(t).len() <= s.len(),
        s.subrange(pos, pos + ser_payload(t).len()) == ser_payload(t),
    ensures
        value_at(s, pos, kind(t), tag_name(t)) == Ok::<(Tag, int), crate::error::FormatError>(
            (t, pos + ser_payload(t).len()),
        ),
{
    lemma_pow256_values();
    match t {
        Tag::Byte(n, v) => {
            lemma_be_bytes_len(twos(v as int, 1), 1);
            lemma_signed_read(s, pos, v as int, 1);
        },
        Tag::Short(n, v) => {
            lemma_be_bytes_len(twos(v as int, 2), 2);
            lemma_signed_read(s, pos, v as int, 2);
        },
        Tag::Int(n, v) => {
            lemma_be_bytes_len(twos(v as int, 4), 4);
            lemma_signed_read(s, pos, v as int, 4);
        },
        Tag::Long(n, v) => {
            lemma_be_bytes_len(twos(v as int, 8), 8);
            lemma_signed_read(s, pos, v as int, 8);
        },
        Tag::Float(n, b) => {
            lemma_be_bytes_len(b as nat, 4);
            lemma_uint_read(s, pos, b as nat, 4);
        },
        Tag::Double(n, b) => {
            lemma_be_bytes_len(b as nat, 8);
            lemma_uint_read(s, pos, b as nat, 8);
        },
        _ => {},
    }
}

proof fn lemma_byte_array_round_trip(s: Seq<u8>, pos: int, n: Seq<char>, v: Seq<i8>)
    requires
        decodable(Tag::ByteArray(n, v)),
        0 <= pos,
        pos + ser_payload(Tag::ByteArray(n, v)).len() <= s.len(),
        s.subrange(pos, pos + ser_payload(Tag::ByteArray(n, v)).len()) == ser_payload(
            Tag::ByteArray(n, v),
        ),
    ensures
        value_at(s, pos, NbtTagType::ByteArray, n) == Ok::<(Tag, int), crate::error::FormatError>(
            (Tag::ByteArray(n, v), pos + ser_payload(Tag::ByteArray(n, v)).len()),
        ),
{
    lemma_pow256_values();
    let iv = ints_i8(v);
    lemma_ser_words_len(iv, 1);
    lemma_be_bytes_len(v.len(), 4);
    lemma_array_read(s, pos, iv, 1);
    let got = Seq::new(v.len(), |i: int| i8_at(s, pos + 4 + i));
    assert forall|i: int| 0 <= i < v.len() implies #[trigger] got[i] == v[i] by {
        assert(iv[i] == v[i] as int);
    }
    assert(got =~= v);
}

proof fn lemma_int_array_round_trip(s: Seq<u8>, pos: int, n: Seq<char>, v: Seq<i32>)
    requires
        decodable(Tag::IntArray(n, v)),
        0 <= pos,
        pos + ser_payload(Tag::IntArray(n, v)).len() <= s.len(),
        s.subrange(pos, pos + ser_payload(Tag::IntArray(n, v)).len()) == ser_payload(
            Tag::IntArray(n, v),
        ),
    ensures
        value_at(s, pos, NbtTagType::IntArray, n) == Ok::<(Tag, int), crate::error::FormatError>(
            (Tag::IntArray(n, v), pos + ser_payload(Tag::IntArray(n, v)).len()),
        ),
{
    lemma_pow256_values();
    let iv = ints_i32(v);
    lemma_ser_words_len(iv, 4);
    lemma_be_bytes_len(v.len(), 4);
    lemma_array_read(s, pos, iv, 4);
    let got = Seq::new(v.len(), |i: int| i32_at(s, pos + 4 + 4 * i));
    assert forall|i: int| 0 <= i < v.len() implies #[trigger] got[i] == v[i] by {
        assert(iv[i] == v[i] as int);
    }
    assert(got =~= v);
}

proof fn lemma_long_array_round_trip(s: Seq<u8>, pos: int, n: Seq<char>, v: Seq<i64>)
    requires
        decodable(Tag::LongArray(n, v)),
        0 <= pos,
        pos + ser_payload(Tag::LongArray(n, v)).len() <= s.len(),
        s.subrange(pos, pos + ser_payload(Tag::LongArray(n, v)).len()) == ser_payload(
            Tag::LongArray(n, v),
        ),
    ensures
        value_at(s, pos, NbtTagType::LongArray, n) == Ok::<(Tag, int), crate::error::FormatError>(
            (Tag::LongArray(n, v), pos + ser_payload(Tag::LongArray(n, v)).len()),
        ),
{
    lemma_pow256_values();
    let iv = ints_i64(v);
    lemma_ser_words_len(iv, 8);
    lemma_be_bytes_len(v.len(), 4);
    lemma_array_read(s, pos, iv, 8);
    let got = Seq::new(v.len(), |i: int| i64_at(s, pos + 4 + 8 * i));
    assert forall|i: int| 0 <= i < v.len() implies #[trigger] got[i] == v[i] by {
        assert(iv[i] == v[i] as int);
    }
    assert(got =~= v);
}

proof fn lemma_string_round_trip(s: Seq<u8>, pos: int, n: Seq<char>, v: Seq<char>)
    requires
        decodable(Tag::String(n, v)),
        0 <= pos,
        pos + ser_payload(Tag::String(n, v)).len() <= s.len(),
        s.subrange(pos, pos + ser_payload(Tag::String(n, v)).len()) == ser_payload(
            Tag::String(n, v),
        ),
    ensures
        value_at(s, pos, NbtTagType::String, n) == Ok::<(Tag, int), crate::error::FormatError>(
            (Tag::String(n, v), pos + ser_payload(Tag::String(n, v)).len()),
        ),
{
    lemma_pow256_values();
    lemma_be_bytes_len(v.len(), 2);
    lemma_latin1_round_trip(v);
    lemma_split(s, pos, be_bytes(v.len(), 2), latin1_bytes(v));
    lemma_uint_read(s, pos, v.len(), 2);
}

/// A decodable payload written at `pos` reads back as the same value, and
/// the reader stops right after it.
pub proof fn lemma_value_round_trip(s: Seq<u8>, pos: int, t: Tag)
    requires
        decodable(t),
        0 <= pos,
        pos + ser_payload(t).len() <= s.len(),
        s.subrange(pos, pos + ser_payload(t).len()) == ser_payload(t),
    ensures
        value_at(s, pos, kind(t), tag_name(t)) == Ok::<(Tag, int), crate::error::FormatError>(
            (t, pos + ser_payload(t).len()),
        ),
    decreases t, 1nat,
{
    match t {
        Tag::ByteArray(n, v) => lemma_byte_array_round_trip(s, pos, n, v),
        Tag::String(n, v) => lemma_string_round_trip(s, pos, n, v),
        Tag::List(n, ety, items) => lemma_list_round_trip(s, pos, t),
        Tag::Compound(n, cs) => {
            lemma_children_round_trip(s, pos, cs, Seq::empty());
            assert(Seq::<Tag>::empty() + cs =~= cs);
        },
        Tag::IntArray(n, v) => lemma_int_array_round_trip(s, pos, n, v),
        Tag::LongArray(n, v) => lemma_long_array_round_trip(s, pos, n, v),
        Tag::End => {},
        _ => lemma_number_round_trip(s, pos, t),
    }
}

proof fn lemma_list_round_trip(s: Seq<u8>, pos: int, t: Tag)
    requires
        t is List,
        decodable(t),
        0 <= pos,
        pos + ser_payload(t).len() <= s.len(),
        s.subrange(pos, pos + ser_payload(t).len()) == ser_payload(t),
    ensures
        value_at(s, pos, kind(t), tag_name(t)) == Ok::<(Tag, int), crate::error::FormatError>(
            (t, pos + ser_payload(t).len()),
        ),
    decreases t, 0nat,
{
    let ety = t->List_1;
    let items = t->List_2;
    lemma_pow256_values();
    let head = seq![type_id(ety)] + be_bytes(items.len(), 4);
    lemma_be_bytes_len(items.len(), 4);
    assert(ser_payload(t) == head + ser_items(items));
    lemma_split(s, pos, head, ser_items(items));
    lemma_split(s, pos, seq![type_id(ety)], be_bytes(items.len(), 4));
    assert(s[pos] == s.subrange(pos, pos + 1)[0]);
    lemma_type_id_round_trip(ety);
    lemma_count_read(s, pos + 1, items.len());
    assert forall|i: int| 0 <= i < items.len() implies kind(#[trigger] items[i]) == ety && tag_name(
        items[i],
    ) == Seq::<char>::empty() && decodable(items[i]) by {
        assert(t->List_2 == items);
    }
    lemma_elems_round_trip(s, pos + 5, ety, items, Seq::empty());
    assert(Seq::<Tag>::empty() + items =~= items);
}

/// List elements written one after the other read back in order.
proof fn lemma_elems_round_trip(s: Seq<u8>, pos: int, ety: NbtTagType, items: Seq<Tag>, acc: Seq<Tag>)
    requires
        forall|i: int|
            0 <= i < items.len() ==> kind(#[trigger] items[i]) == ety && tag_name(items[i])
                == Seq::<char>::empty() && decodable(items[i]),
        0 <= pos,
        pos + ser_items(items).len() <= s.len(),
        s.subrange(pos, pos + ser_items(items).len()) == ser_items(items),
    ensures
        elems_at(s, pos, ety, items.len(), acc) == Ok::<(Seq<Tag>, int), crate::error::FormatError>(
            (acc + items, pos + ser_items(items).len()),
        ),
    decreases items, 2nat,
{
    if items.len() == 0 {
        assert(acc + items =~= acc);
    } else {
        let t = items[0];
        let rest = items.subrange(1, items.len() as int);
        assert(kind(t) == ety && tag_name(t) == Seq::<char>::empty() && decodable(t));
        lemma_payload_len(t);
        lemma_split(s, pos, ser_payload(t), ser_items(rest));
        lemma_value_round_trip(s, pos, t);
        assert forall|i: int| 0 <= i < rest.len() implies kind(#[trigger] rest[i]) == ety
            && tag_name(rest[i]) == Seq::<char>::empty() && decodable(rest[i]) by {
            assert(rest[i] == items[i + 1]);
        }
        lemma_elems_round_trip(s, pos + ser_payload(t).len(), ety, rest, acc.push(t));
        assert(acc.push(t) + rest =~= acc + items);
    }
}

/// Named children written one after the other, then the closing `End`
/// id, read back in order when their names are distinct.
proof fn lemma_children_round_trip(s: Seq<u8>, pos: int, cs: Seq<Tag>, acc: Seq<Tag>)
    requires
        names_unique(acc + cs),
        forall|i: int| 0 <= i < cs.len() ==> name_ok(tag_name(#[trigger] cs[i])) && decodable(cs[i]),
        0 <= pos,
        pos + ser_children(cs).len() + 1 <= s.len(),
        s.subrange(pos, pos + ser_children(cs).len() + 1) == ser_children(cs) + seq![0u8],
    ensures
        children_at(s, pos, acc) == Ok::<(Seq<Tag>, int), crate::error::FormatError>(
            (acc + cs, pos + ser_children(cs).len() + 1),
        ),
    decreases cs, 2nat,
{
    lemma_split(s, pos, ser_children(cs), seq![0u8]);
    if cs.len() == 0 {
        assert(s[pos] == s.subrange(pos, pos + 1)[0]);
        assert(acc + cs =~= acc);
    } else {
        let t = cs[0];
        let rest = cs.subrange(1, cs.len() as int);
        assert(name_ok(tag_name(t)) && decodable(t));
        let hd = ser_header(t);
        lemma_be_bytes_len(tag_name(t).len(), 2);
        lemma_latin1_round_trip(tag_name(t));
        lemma_payload_len(t);
        assert(ser_children(cs) + seq![0u8] =~= hd + (ser_payload(t) + (ser_children(rest)
            + seq![0u8])));
        lemma_split(s, pos, hd, ser_payload(t) + (ser_children(rest) + seq![0u8]));
        let name_end = pos + hd.len();
        lemma_split(s, name_end, ser_payload(t), ser_children(rest) + seq![0u8]);
        lemma_split(s, pos, seq![type_id(kind(t))], name_bytes(tag_name(t)));
        assert(s[pos] == s.subrange(pos, pos + 1)[0]);
        lemma_type_id_round_trip(kind(t));
        lemma_name_read(s, pos + 1, tag_name(t));
        lemma_value_round_trip(s, name_end, t);
        assert((acc + cs)[acc.len() as int] == t);
        assert(!exists|i: int| 0 <= i < acc.len() && tag_name(#[trigger] acc[i]) == tag_name(t)) by {
            assert forall|i: int| 0 <= i < acc.len() implies tag_name(#[trigger] acc[i]) != tag_name(t) by {
                assert((acc + cs)[i] == acc[i]);
            }
        }
        assert(with_child(acc, t) == acc.push(t));
        assert(acc.push(t) + rest =~= acc + cs);
        assert forall|i: int| 0 <= i < rest.len() implies name_ok(tag_name(#[trigger] rest[i]))
            && decodable(rest[i]) by {
            assert(rest[i] == cs[i + 1]);
        }
        lemma_children_round_trip(s, name_end + ser_payload(t).len(), rest, acc.push(t));
    }
}

/// A whole decodable document, with any bytes after it, reads back as the
/// same tree.
pub proof fn lemma_document_round_trip(t: Tag, rest: Seq<u8>)
    requires
        document_ok(t),
    ensures
        decode_document(ser_named(t) + rest) == Ok::<Tag, crate::error::FormatError>(t),
{
    let n = tag_name(t);
    let cs = t->Compound_1;
    let s = ser_named(t) + rest;
    lemma_be_bytes_len(n.len(), 2);
    lemma_latin1_round_trip(n);
    let tail = ser_children(cs) + seq![0u8];
    assert(ser_payload(t) == tail);
    assert(s.subrange(0, ser_named(t).len() as int) =~= ser_named(t));
    assert(ser_named(t) =~= seq![10u8] + (name_bytes(n) + tail));
    lemma_split(s, 0, seq![10u8], name_bytes(n) + tail);
    lemma_split(s, 1, name_bytes(n), tail);
    assert(s[0] == seq![10u8][0]);
    lemma_name_read(s, 1, n);
    assert forall|i: int| 0 <= i < cs.len() implies name_ok(tag_name(#[trigger] cs[i])) && decodable(
        cs[i],
    ) by {
        assert(t->Compound_1 == cs);
    }
    assert(Seq::<Tag>::empty() + cs =~= cs);
    lemma_children_round_trip(s, 1 + name_bytes(n).len() as int, cs, Seq::empty());
}

proof fn lemma_name_sound(s: Seq<u8>, pos: int)
    ensures
        name_at(s, pos) matches Ok((nm, p)) ==> name_ok(nm) && p == pos + 2 + nm.len(),
{
    if name_at(s, pos) is Ok {
        lemma_pow256_values();
        lemma_be_nat_bound(s.subrange(pos, pos + 2));
        lemma_latin1_chars_ok(s.subrange(pos + 2, pos + 2 + signed(uint_at(s, pos, 2), 2)));
    }
}

proof fn lemma_with_child_sound(acc: Seq<Tag>, t: Tag)
    requires
        names_unique(acc),
        forall|i: int| 0 <= i < acc.len() ==> name_ok(tag_name(#[trigger] acc[i])) && decodable(acc[i]),
        name_ok(tag_name(t)),
        decodable(t),
    ensures
        names_unique(with_child(acc, t)),
        forall|i: int|
            0 <= i < with_child(acc, t).len() ==> name_ok(tag_name(#[trigger] with_child(acc, t)[i]))
                && decodable(with_child(acc, t)[i]),
{
    let r = with_child(acc, t);
    if exists|i: int| 0 <= i < acc.len() && tag_name(#[trigger] acc[i]) == tag_name(t) {
        let w = choose|i: int| 0 <= i < acc.len() && tag_name(#[trigger] acc[i]) == tag_name(t);
        assert(r == acc.update(w, t));
        assert forall|i: int| 0 <= i < r.len() implies tag_name(#[trigger] r[i]) == tag_name(acc[i]) by {}
        assert forall|i: int, j: int|
            0 <= i < r.len() && 0 <= j < r.len() && i != j implies tag_name(#[trigger] r[i])
            != tag_name(#[trigger] r[j]) by {
            assert(tag_name(r[i]) == tag_name(acc[i]));
            assert(tag_name(r[j]) == tag_name(acc[j]));
        }
    } else {
        assert(r == acc.push(t));
        assert forall|i: int, j: int|
            0 <= i < r.len() && 0 <= j < r.len() && i != j implies tag_name(#[trigger] r[i])
            != tag_name(#[trigger] r[j]) by {
            if i < acc.len() && j < acc.len() {
                assert(r[i] == acc[i] && r[j] == acc[j]);
            } else if i < acc.len() {
                assert(r[i] == acc[i]);
            } else if j < acc.len() {
                assert(r[j] == acc[j]);
            }
        }
    }
}

proof fn lemma_leaf_sound(s: Seq<u8>, pos: int, ty: NbtTagType, name: Seq<char>)
    requires
        !(ty is List || ty is Compound),
    ensures
        value_at(s, pos, ty, name) matches Ok((t, p)) ==> decodable(t) && kind(t) == ty && tag_name(t)
            == name && pos < p <= s.len(),
{
    lemma_pow256_values();
    if value_at(s, pos, ty, name) is Ok {
        if ty is String {
            lemma_be_nat_bound(s.subrange(pos, pos + 2));
            lemma_latin1_chars_ok(s.subrange(pos + 2, pos + 2 + uint_at(s, pos, 2)));
        }
    }
}

/// What the reader gives for one payload is decodable, of the asked kind
/// and name, and the reader moves forward.
proof fn lemma_value_sound(s: Seq<u8>, pos: int, ty: NbtTagType, name: Seq<char>)
    ensures
        value_at(s, pos, ty, name) matches Ok((t, p)) ==> decodable(t) && kind(t) == ty && tag_name(t)
            == name && pos < p <= s.len(),
    decreases s.len() - pos, 1nat,
{
    if !(0 <= pos <= s.len()) {
    } else if ty is List {
        if fits5(s, pos) {
            match count_at(s, pos + 1) {
                Ok(n) => match type_of_id(s[pos]) {
                    Some(ety) => {
                        lemma_elems_sound(s, pos + 5, ety, n as nat, Seq::empty());
                    },
                    None => {},
                },
                Err(_) => {},
            }
        }
    } else if ty is Compound {
        lemma_children_sound(s, pos, Seq::empty());
    } else {
        lemma_leaf_sound(s, pos, ty, name);
    }
}

spec fn fits5(s: Seq<u8>, pos: int) -> bool {
    0 <= pos && pos + 5 <= s.len()
}

proof fn lemma_elems_sound(s: Seq<u8>, pos: int, ty: NbtTagType, n: nat, acc: Seq<Tag>)
    requires
        forall|i: int|
            0 <= i < acc.len() ==> kind(#[trigger] acc[i]) == ty && tag_name(acc[i])
                == Seq::<char>::empty() && decodable(acc[i]),
    ensures
        elems_at(s, pos, ty, n, acc) matches Ok((items, p)) ==> items.len() == acc.len() + n
            && pos <= p <= s.len() && forall|i: int|
            0 <= i < items.len() ==> kind(#[trigger] items[i]) == ty && tag_name(items[i])
                == Seq::<char>::empty() && decodable(items[i]),
    decreases s.len() - pos, 2nat,
{
    if 0 <= pos <= s.len() && n > 0 {
        lemma_value_sound(s, pos, ty, Seq::empty());
        match value_at(s, pos, ty, Seq::empty()) {
            Ok((t, p)) => {
                if pos < p <= s.len() {
                    let acc2 = acc.push(t);
                    assert forall|i: int| 0 <= i < acc2.len() implies kind(#[trigger] acc2[i]) == ty
                        && tag_name(acc2[i]) == Seq::<char>::empty() && decodable(acc2[i]) by {
                        if i < acc.len() {
                            assert(acc2[i] == acc[i]);
                        }
                    }
                    lemma_elems_sound(s, p, ty, (n - 1) as nat, acc2);
                }
            },
            Err(_) => {},
        }
    }
}

proof fn lemma_children_sound(s: Seq<u8>, pos: int, acc: Seq<Tag>)
    requires
        names_unique(acc),
        forall|i: int| 0 <= i < acc.len() ==> name_ok(tag_name(#[trigger] acc[i])) && decodable(acc[i]),
    ensures
        children_at(s, pos, acc) matches Ok((cs, p)) ==> names_unique(cs) && pos < p <= s.len()
            && forall|i: int|
            0 <= i < cs.len() ==> name_ok(tag_name(#[trigger] cs[i])) && decodable(cs[i]),
    decreases s.len() - pos, 0nat,
{
    if 0 <= pos && pos + 1 <= s.len() {
        match type_of_id(s[pos]) {
            Some(ty) => {
                if !(ty is End) {
                    lemma_name_sound(s, pos + 1);
                    match name_at(s, pos + 1) {
                        Ok((nm, name_end)) => {
                            if pos < name_end <= s.len() {
                                lemma_value_sound(s, name_end, ty, nm);
                                match value_at(s, name_end, ty, nm) {
                                    Ok((t, value_end)) => {
                                        if pos < value_end <= s.len() {
                                            lemma_with_child_sound(acc, t);
                                            lemma_children_sound(s, value_end, with_child(acc, t));
                                        }
                                    },
                                    Err(_) => {},
                                }
                            }
                        },
                        Err(_) => {},
                    }
                }
            },
            None => {},
        }
    }
}

/// What the decoder gives is a decodable document.
pub proof fn lemma_document_sound(s: Seq<u8>)
    ensures
        decode_document(s) matches Ok(t) ==> document_ok(t),
{
    if 0 < s.len() && s[0] == 10 {
        lemma_name_sound(s, 1);
        match name_at(s, 1) {
            Ok((nm, name_end)) => {
                lemma_children_sound(s, name_end, Seq::empty());
            },
            Err(_) => {},
        }
    }
}

/// Round trip: a tree that the decoder produced, encoded again, decodes
/// to the same tree.
pub proof fn lemma_round_trip(bytes: Seq<u8>, t: Tag)
    requires
        decode_document(bytes) == Ok::<Tag, crate::error::FormatError>(t),
    ensures
        document_ok(t),
        decode_document(ser_named(t)) == Ok::<Tag, crate::error::FormatError>(t),
{
    lemma_document_sound(bytes);
    lemma_document_round_trip(t, Seq::empty());
    assert(ser_named(t) + Seq::<u8>::empty() =~= ser_named(t));
}

} // verus!
