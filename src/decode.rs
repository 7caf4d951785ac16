use vstd::prelude::*;

use crate::error::FormatError;
use crate::nbt_tag::{
    document_ok, kind, lemma_tags_view, lemma_tags_view_push, lemma_tags_view_update, name_of, names_unique,
    tag_name, tags_view, type_of_id, NbtTag, NbtTagByte, NbtTagByteArray, NbtTagCompound,
    NbtTagDouble, NbtTagFloat, NbtTagInt, NbtTagIntArray, NbtTagList, NbtTagLong,
    NbtTagLongArray, NbtTagShort, NbtTagString, NbtTagType, Tag,
};
use crate::wire::{
    latin1_chars, lemma_pow256_values, read_i16, read_i32, read_i64, read_i8, read_text, read_uint, signed, uint_at,
};
use vstd::pervasive::VecAdditionalExecFns;

verus! {

/// The bytes `pos .. pos + n` lie inside `s`.
pub open spec fn fits(s: Seq<u8>, pos: int, n: int) -> bool {
    0 <= pos && 0 <= n && pos + n <= s.len()
}

pub open spec fn i8_at(s: Seq<u8>, pos: int) -> i8 {
    signed(uint_at(s, pos, 1), 1) as i8
}

pub open spec fn i16_at(s: Seq<u8>, pos: int) -> i16 {
    signed(uint_at(s, pos, 2), 2) as i16
}

pub open spec fn i32_at(s: Seq<u8>, pos: int) -> i32 {
    signed(uint_at(s, pos, 4), 4) as i32
}

pub open spec fn i64_at(s: Seq<u8>, pos: int) -> i64 {
    signed(uint_at(s, pos, 8), 8) as i64
}

/// A name at `pos`: a signed 16-bit big-endian length, then one byte per
/// character. Gives the name and the position after it.
pub open spec fn name_at(s: Seq<u8>, pos: int) -> Result<(Seq<char>, int), FormatError> {
    if !fits(s, pos, 2) {
        Err(FormatError::UnexpectedEnd)
    } else {
        let n = signed(uint_at(s, pos, 2), 2);
        if n < 0 {
            Err(FormatError::NegativeLength)
        } else if !fits(s, pos + 2, n) {
            Err(FormatError::UnexpectedEnd)
        } else {
            Ok((latin1_chars(s.subrange(pos + 2, pos + 2 + n)), pos + 2 + n))
        }
    }
}

/// The element count of a list or array at `pos`: a signed 32-bit
/// big-endian number, at most 65536 and not negative.
pub open spec fn count_at(s: Seq<u8>, pos: int) -> Result<int, FormatError> {
    if !fits(s, pos, 4) {
        Err(FormatError::UnexpectedEnd)
    } else {
        let n = signed(uint_at(s, pos, 4), 4);
        if n > 65536 {
            Err(FormatError::SizeLimitExceeded)
        } else if n < 0 {
            Err(FormatError::NegativeLength)
        } else {
            Ok(n)
        }
    }
}

/// The children of `acc` with `t` added: `t` takes the place of the child
/// of the same name, or comes last if there is none.
pub open spec fn with_child(acc: Seq<Tag>, t: Tag) -> Seq<Tag> {
    if exists|i: int| 0 <= i < acc.len() && tag_name(#[trigger] acc[i]) == tag_name(t) {
        acc.update(
            choose|i: int| 0 <= i < acc.len() && tag_name(#[trigger] acc[i]) == tag_name(t),
            t,
        )
    } else {
        acc.push(t)
    }
}

/// The payload of a value of kind `ty` named `name` at `pos`, and the
/// position after it.
pub open spec fn value_at(s: Seq<u8>, pos: int, ty: NbtTagType, name: Seq<char>) -> Result<
    (Tag, int),
    FormatError,
>
    decreases s.len() - pos, 1nat,
{
    if !(0 <= pos <= s.len()) {
        Err(FormatError::UnexpectedEnd)
    } else {
        match ty {
            NbtTagType::End => Err(FormatError::InvalidTypeId),
            NbtTagType::Byte => if fits(s, pos, 1) {
                Ok((Tag::Byte(name, i8_at(s, pos)), pos + 1))
            } else {
                Err(FormatError::UnexpectedEnd)
            },
            NbtTagType::Short => if fits(s, pos, 2) {
                Ok((Tag::Short(name, i16_at(s, pos)), pos + 2))
            } else {
                Err(FormatError::UnexpectedEnd)
            },
            NbtTagType::Int => if fits(s, pos, 4) {
                Ok((Tag::Int(name, i32_at(s, pos)), pos + 4))
            } else {
                Err(FormatError::UnexpectedEnd)
            },
            NbtTagType::Long => if fits(s, pos, 8) {
                Ok((Tag::Long(name, i64_at(s, pos)), pos + 8))
            } else {
                Err(FormatError::UnexpectedEnd)
            },
            NbtTagType::Float => if fits(s, pos, 4) {
                Ok((Tag::Float(name, uint_at(s, pos, 4) as u32), pos + 4))
            } else {
                Err(FormatError::UnexpectedEnd)
            },
            NbtTagType::Double => if fits(s, pos, 8) {
                Ok((Tag::Double(name, uint_at(s, pos, 8) as u64), pos + 8))
            } else {
                Err(FormatError::UnexpectedEnd)
            },
            NbtTagType::ByteArray => match count_at(s, pos) {
                Err(e) => Err(e),
                Ok(n) => if fits(s, pos + 4, n) {
                    Ok(
                        (
                            Tag::ByteArray(name, Seq::new(n as nat, |i: int| i8_at(s, pos + 4 + i))),
                            pos + 4 + n,
                        ),
                    )
                } else {
                    Err(FormatError::UnexpectedEnd)
                },
            },
            NbtTagType::String => if !fits(s, pos, 2) {
                Err(FormatError::UnexpectedEnd)
            } else {
                let n = uint_at(s, pos, 2) as int;
                if fits(s, pos + 2, n) {
                    Ok(
                        (
                            Tag::String(name, latin1_chars(s.subrange(pos + 2, pos + 2 + n))),
                            pos + 2 + n,
                        ),
                    )
                } else {
                    Err(FormatError::UnexpectedEnd)
                }
            },
            NbtTagType::List => if !fits(s, pos, 5) {
                Err(FormatError::UnexpectedEnd)
            } else {
                match count_at(s, pos + 1) {
                    Err(e) => Err(e),
                    Ok(n) => match type_of_id(s[pos]) {
                        None => Err(FormatError::InvalidTypeId),
                        Some(ety) => match elems_at(s, pos + 5, ety, n as nat, Seq::empty()) {
                            Err(e) => Err(e),
                            Ok((items, p)) => Ok((Tag::List(name, ety, items), p)),
                        },
                    },
                }
            },
            NbtTagType::Compound => match children_at(s, pos, Seq::empty()) {
                Err(e) => Err(e),
                Ok((cs, p)) => Ok((Tag::Compound(name, cs), p)),
            },
            NbtTagType::IntArray => match count_at(s, pos) {
                Err(e) => Err(e),
                Ok(n) => if fits(s, pos + 4, 4 * n) {
                    Ok(
                        (
                            Tag::IntArray(
                                name,
                                Seq::new(n as nat, |i: int| i32_at(s, pos + 4 + 4 * i)),
                            ),
                            pos + 4 + 4 * n,
                        ),
                    )
                } else {
                    Err(FormatError::UnexpectedEnd)
                },
            },
            NbtTagType::LongArray => match count_at(s, pos) {
                Err(e) => Err(e),
                Ok(n) => if fits(s, pos + 4, 8 * n) {
                    Ok(
                        (
                            Tag::LongArray(
                                name,
                                Seq::new(n as nat, |i: int| i64_at(s, pos + 4 + 8 * i)),
                            ),
                            pos + 4 + 8 * n,
                        ),
                    )
                } else {
                    Err(FormatError::UnexpectedEnd)
                },
            },
        }
    }
}

/// `n` more unnamed payloads of kind `ty` from `pos` on, appended to `acc`.
pub open spec fn elems_at(s: Seq<u8>, pos: int, ty: NbtTagType, n: nat, acc: Seq<Tag>) -> Result<
    (Seq<Tag>, int),
    FormatError,
>
    decreases s.len() - pos, 2nat,
{
    if !(0 <= pos <= s.len()) {
        Err(FormatError::UnexpectedEnd)
    } else if n == 0 {
        Ok((acc, pos))
    } else {
        match value_at(s, pos, ty, Seq::empty()) {
            Err(e) => Err(e),
            Ok((t, p)) => if pos < p <= s.len() {
                elems_at(s, p, ty, (n - 1) as nat, acc.push(t))
            } else {
                Err(FormatError::UnexpectedEnd)
            },
        }
    }
}

/// Named children from `pos` on, inserted into `acc`, up to and including
/// the `End` id that closes the compound.
pub open spec fn children_at(s: Seq<u8>, pos: int, acc: Seq<Tag>) -> Result<
    (Seq<Tag>, int),
    FormatError,
>
    decreases s.len() - pos, 0nat,
{
    if !fits(s, pos, 1) {
        Err(FormatError::UnexpectedEnd)
    } else {
        match type_of_id(s[pos]) {
            None => Err(FormatError::InvalidTypeId),
            Some(NbtTagType::End) => Ok((acc, pos + 1)),
            Some(ty) => match name_at(s, pos + 1) {
                Err(e) => Err(e),
                Ok((nm, name_end)) => if pos < name_end <= s.len() {
                    match value_at(s, name_end, ty, nm) {
                        Err(e) => Err(e),
                        Ok((t, value_end)) => if pos < value_end <= s.len() {
                            children_at(s, value_end, with_child(acc, t))
                        } else {
                            Err(FormatError::UnexpectedEnd)
                        },
                    }
                } else {
                    Err(FormatError::UnexpectedEnd)
                },
            },
        }
    }
}

/// A document: the id of a compound, its name, then its children.
pub open spec fn document_at(s: Seq<u8>) -> Result<(Tag, int), FormatError> {
    if !fits(s, 0, 1) {
        Err(FormatError::UnexpectedEnd)
    } else if s[0] != 10 {
        Err(FormatError::InvalidRoot)
    } else {
        match name_at(s, 1) {
            Err(e) => Err(e),
            Ok((nm, name_end)) => match children_at(s, name_end, Seq::empty()) {
                Err(e) => Err(e),
                Ok((cs, value_end)) => Ok((Tag::Compound(nm, cs), value_end)),
            },
        }
    }
}

/// The tree that a buffer holds; bytes after the root compound are ignored.
pub open spec fn decode_document(s: Seq<u8>) -> Result<Tag, FormatError> {
    match document_at(s) {
        Ok((t, _)) => Ok(t),
        Err(e) => Err(e),
    }
}

/// Size guard: a list or array whose count field claims more than 65536
/// elements fails with `SizeLimitExceeded`, whatever follows the count
/// (a list's element kind is checked only after its count).
pub proof fn lemma_size_guard(s: Seq<u8>, pos: int, ty: NbtTagType, name: Seq<char>)
    requires
        ty is List || ty is ByteArray || ty is IntArray || ty is LongArray,
        0 <= pos,
        ty is List ==> pos + 5 <= s.len() && signed(uint_at(s, pos + 1, 4), 4) > 65536,
        !(ty is List) ==> pos + 4 <= s.len() && signed(uint_at(s, pos, 4), 4) > 65536,
    ensures
        value_at(s, pos, ty, name) == Err::<(Tag, int), FormatError>(FormatError::SizeLimitExceeded),
{
}

/// Decoding the same bytes twice gives equal trees: what `parse_bytes`
/// returns is fixed by `decode_document` of the bytes alone.
pub proof fn lemma_decode_twice(a: Seq<u8>, b: Seq<u8>)
    requires
        a == b,
    ensures
        decode_document(a) == decode_document(b),
{
}

/// A document whose first byte is not the id of a compound fails with
/// `InvalidRoot`, whatever the bytes after that one.
pub proof fn lemma_invalid_root(a: Seq<u8>, b: Seq<u8>)
    requires
        a.len() > 0,
        b.len() > 0,
        a[0] == b[0],
        a[0] != 10,
    ensures
        decode_document(a) == Err::<Tag, FormatError>(FormatError::InvalidRoot),
        decode_document(a) == decode_document(b),
{
}

/// A decoded document is a compound.
pub proof fn lemma_document_is_compound(s: Seq<u8>)
    ensures
        decode_document(s) matches Ok(t) ==> t is Compound,
{
}

/// The value of a parse result: the value of what was read, and the
/// position after it.
pub open spec fn lift<T: View>(r: Result<(T, usize), FormatError>) -> Result<(T::V, int), FormatError> {
    match r {
        Ok((x, p)) => Ok((x@, p as int)),
        Err(e) => Err(e),
    }
}

fn read_name(buf: &[u8], pos: usize) -> (r: Result<(String, usize), FormatError>)
    requires
        pos <= buf.len(),
    ensures
        lift(r) == name_at(buf@, pos as int),
        r matches Ok((_, p)) ==> pos + 2 <= p <= buf.len(),
{
    if buf.len() - pos < 2 {
        return Err(FormatError::UnexpectedEnd);
    }
    let n = read_i16(buf, pos);
    if n < 0 {
        return Err(FormatError::NegativeLength);
    }
    let n = n as usize;
    if buf.len() - (pos + 2) < n {
        return Err(FormatError::UnexpectedEnd);
    }
    let text = read_text(buf, pos + 2, n);
    Ok((text, pos + 2 + n))
}

fn read_count(buf: &[u8], pos: usize) -> (r: Result<usize, FormatError>)
    requires
        pos <= buf.len(),
    ensures
        match r {
            Ok(n) => count_at(buf@, pos as int) == Ok::<int, FormatError>(n as int) && n <= 65536,
            Err(e) => count_at(buf@, pos as int) == Err::<int, FormatError>(e),
        },
{
    if buf.len() - pos < 4 {
        return Err(FormatError::UnexpectedEnd);
    }
    let n = read_i32(buf, pos);
    if n > 65536 {
        Err(FormatError::SizeLimitExceeded)
    } else if n < 0 {
        Err(FormatError::NegativeLength)
    } else {
        Ok(n as usize)
    }
}

fn read_byte_array(buf: &[u8], pos: usize, name: String) -> (r: Result<(NbtTag, usize), FormatError>)
    requires
        pos <= buf.len(),
    ensures
        lift(r) == value_at(buf@, pos as int, NbtTagType::ByteArray, name@),
        r matches Ok((_, p)) ==> pos < p <= buf.len(),
{
    let n = match read_count(buf, pos) {
        Ok(n) => n,
        Err(e) => return Err(e),
    };
    if buf.len() - (pos + 4) < n {
        return Err(FormatError::UnexpectedEnd);
    }
    let mut values: Vec<i8> = Vec::with_capacity(n);
    let mut i: usize = 0;
    while i < n
        invariant
            i <= n,
            pos + 4 + n <= buf.len(),
            values@ == Seq::new(i as nat, |j: int| i8_at(buf@, pos + 4 + j)),
        decreases n - i,
    {
        values.push(read_i8(buf, pos + 4 + i));
        i = i + 1;
        assert(values@ =~= Seq::new(i as nat, |j: int| i8_at(buf@, pos + 4 + j)));
    }
    Ok((NbtTag::ByteArray(NbtTagByteArray { name, values }), pos + 4 + n))
}

fn read_int_array(buf: &[u8], pos: usize, name: String) -> (r: Result<(NbtTag, usize), FormatError>)
    requires
        pos <= buf.len(),
    ensures
        lift(r) == value_at(buf@, pos as int, NbtTagType::IntArray, name@),
        r matches Ok((_, p)) ==> pos < p <= buf.len(),
{
    let n = match read_count(buf, pos) {
        Ok(n) => n,
        Err(e) => return Err(e),
    };
    if buf.len() - (pos + 4) < 4 * n {
        return Err(FormatError::UnexpectedEnd);
    }
    let mut values: Vec<i32> = Vec::with_capacity(n);
    let mut i: usize = 0;
    while i < n
        invariant
            i <= n,
            n <= 65536,
            pos + 4 + 4 * n <= buf.len(),
            values@ == Seq::new(i as nat, |j: int| i32_at(buf@, pos + 4 + 4 * j)),
        decreases n - i,
    {
        values.push(read_i32(buf, pos + 4 + 4 * i));
        i = i + 1;
        assert(values@ =~= Seq::new(i as nat, |j: int| i32_at(buf@, pos + 4 + 4 * j)));
    }
    Ok((NbtTag::IntArray(NbtTagIntArray { name, values }), pos + 4 + 4 * n))
}

fn read_long_array(buf: &[u8], pos: usize, name: String) -> (r: Result<(NbtTag, usize), FormatError>)
    requires
        pos <= buf.len(),
    ensures
        lift(r) == value_at(buf@, pos as int, NbtTagType::LongArray, name@),
        r matches Ok((_, p)) ==> pos < p <= buf.len(),
{
    let n = match read_count(buf, pos) {
        Ok(n) => n,
        Err(e) => return Err(e),
    };
    if buf.len() - (pos + 4) < 8 * n {
        return Err(FormatError::UnexpectedEnd);
    }
    let mut values: Vec<i64> = Vec::with_capacity(n);
    let mut i: usize = 0;
    while i < n
        invariant
            i <= n,
            n <= 65536,
            pos + 4 + 8 * n <= buf.len(),
            values@ == Seq::new(i as nat, |j: int| i64_at(buf@, pos + 4 + 8 * j)),
        decreases n - i,
    {
        values.push(read_i64(buf, pos + 4 + 8 * i));
        i = i + 1;
        assert(values@ =~= Seq::new(i as nat, |j: int| i64_at(buf@, pos + 4 + 8 * j)));
    }
    Ok((NbtTag::LongArray(NbtTagLongArray { name, values }), pos + 4 + 8 * n))
}

fn read_string(buf: &[u8], pos: usize, name: String) -> (r: Result<(NbtTag, usize), FormatError>)
    requires
        pos <= buf.len(),
    ensures
        lift(r) == value_at(buf@, pos as int, NbtTagType::String, name@),
        r matches Ok((_, p)) ==> pos < p <= buf.len(),
{
    if buf.len() - pos < 2 {
        return Err(FormatError::UnexpectedEnd);
    }
    proof {
        lemma_pow256_values();
    }
    let n = read_uint(buf, pos, 2) as usize;
    if buf.len() - (pos + 2) < n {
        return Err(FormatError::UnexpectedEnd);
    }
    let value = read_text(buf, pos + 2, n);
    Ok((NbtTag::String(NbtTagString { name, value }), pos + 2 + n))
}

/// Reads the payload of a value of kind `ty`; the element kind and count
/// of a list, and the children of a compound, are part of the payload.
fn parse_value(buf: &[u8], pos: usize, ty: NbtTagType, name: String) -> (r: Result<
    (NbtTag, usize),
    FormatError,
>)
    requires
        pos <= buf.len(),
    ensures
        lift(r) == value_at(buf@, pos as int, ty, name@),
        r matches Ok((t, p)) ==> pos < p <= buf.len() && kind(t@) == ty,
    decreases buf.len() - pos, 2nat,
{
    let left = buf.len() - pos;
    match ty {
        NbtTagType::End => Err(FormatError::InvalidTypeId),
        NbtTagType::Byte => if left < 1 {
            Err(FormatError::UnexpectedEnd)
        } else {
            Ok((NbtTag::Byte(NbtTagByte { name, value: read_i8(buf, pos) }), pos + 1))
        },
        NbtTagType::Short => if left < 2 {
            Err(FormatError::UnexpectedEnd)
        } else {
            Ok((NbtTag::Short(NbtTagShort { name, value: read_i16(buf, pos) }), pos + 2))
        },
        NbtTagType::Int => if left < 4 {
            Err(FormatError::UnexpectedEnd)
        } else {
            Ok((NbtTag::Int(NbtTagInt { name, value: read_i32(buf, pos) }), pos + 4))
        },
        NbtTagType::Long => if left < 8 {
            Err(FormatError::UnexpectedEnd)
        } else {
            Ok((NbtTag::Long(NbtTagLong { name, value: read_i64(buf, pos) }), pos + 8))
        },
        NbtTagType::Float => if left < 4 {
            Err(FormatError::UnexpectedEnd)
        } else {
            let bits = read_uint(buf, pos, 4) as u32;
            Ok((NbtTag::Float(NbtTagFloat { name, bits }), pos + 4))
        },
        NbtTagType::Double => if left < 8 {
            Err(FormatError::UnexpectedEnd)
        } else {
            let bits = read_uint(buf, pos, 8);
            Ok((NbtTag::Double(NbtTagDouble { name, bits }), pos + 8))
        },
        NbtTagType::ByteArray => read_byte_array(buf, pos, name),
        NbtTagType::String => read_string(buf, pos, name),
        NbtTagType::List => parse_list(buf, pos, name),
        NbtTagType::Compound => parse_compound(buf, pos, name),
        NbtTagType::IntArray => read_int_array(buf, pos, name),
        NbtTagType::LongArray => read_long_array(buf, pos, name),
    }
}

/// Reads a list: its element kind, its count, then that many unnamed payloads.
fn parse_list(buf: &[u8], pos: usize, name: String) -> (r: Result<(NbtTag, usize), FormatError>)
    requires
        pos <= buf.len(),
    ensures
        lift(r) == value_at(buf@, pos as int, NbtTagType::List, name@),
        r matches Ok((t, p)) ==> pos < p <= buf.len() && kind(t@) == NbtTagType::List,
    decreases buf.len() - pos, 1nat,
{
    if buf.len() - pos < 5 {
        return Err(FormatError::UnexpectedEnd);
    }
    let n = match read_count(buf, pos + 1) {
        Ok(n) => n,
        Err(e) => return Err(e),
    };
    let ety = match NbtTagType::from_id(buf[pos]) {
        Some(t) => t,
        None => return Err(FormatError::InvalidTypeId),
    };
    let ghost s = buf@;
    let mut values: Vec<NbtTag> = Vec::with_capacity(n);
    let mut p: usize = pos + 5;
    let mut i: usize = 0;
    while i < n
        invariant
            i <= n,
            pos + 5 <= p <= buf.len(),
            s == buf@,
            count_at(s, pos + 1) == Ok::<int, FormatError>(n as int),
            type_of_id(s[pos as int]) == Some(ety),
            elems_at(s, pos + 5, ety, n as nat, Seq::empty()) == elems_at(
                s,
                p as int,
                ety,
                (n - i) as nat,
                tags_view(values@),
            ),
        decreases n - i,
    {
        match parse_value(buf, p, ety, String::new()) {
            Ok((t, value_end)) => {
                proof {
                    lemma_tags_view_push(values@, t);
                }
                values.push(t);
                p = value_end;
                i = i + 1;
            },
            Err(e) => {
                return Err(e);
            },
        }
    }
    Ok((NbtTag::List(NbtTagList { name, ty: ety, values }), p))
}

/// Adds `t` to the children: it replaces the child of the same name, or
/// comes last if there is none.
fn insert_child(values: &mut Vec<NbtTag>, t: NbtTag)
    requires
        !(t@ is End),
        names_unique(tags_view(old(values)@)),
        forall|j: int| 0 <= j < old(values)@.len() ==> !(#[trigger] old(values)@[j]@ is End),
    ensures
        tags_view(final(values)@) == with_child(tags_view(old(values)@), t@),
        names_unique(tags_view(final(values)@)),
        forall|j: int| 0 <= j < final(values)@.len() ==> !(#[trigger] final(values)@[j]@ is End),
{
    proof {
        lemma_tags_view(values@);
    }
    let key: String = match name_of(&t) {
        Some(n) => n.clone(),
        None => String::new(),
    };
    let ghost acc = tags_view(values@);
    let mut i: usize = 0;
    while i < values.len()
        invariant
            i <= values.len(),
            values@ == old(values)@,
            acc == tags_view(values@),
            acc.len() == values@.len(),
            forall|k: int| 0 <= k < values@.len() ==> #[trigger] acc[k] == values@[k]@,
            key@ == tag_name(t@),
            !(t@ is End),
            names_unique(acc),
            forall|j: int| 0 <= j < values@.len() ==> !(#[trigger] values@[j]@ is End),
            forall|j: int| 0 <= j < i ==> tag_name(#[trigger] acc[j]) != key@,
        decreases values.len() - i,
    {
        let same = match name_of(&values[i]) {
            Some(n) => n.eq(&key),
            None => false,
        };
        if same {
            proof {
                assert(0 <= i < acc.len() && tag_name(acc[i as int]) == tag_name(t@));
                let w = choose|k: int| 0 <= k < acc.len() && tag_name(#[trigger] acc[k]) == tag_name(t@);
                assert(w == i);
                lemma_tags_view_update(values@, i as int, t);
                lemma_tags_view(values@.update(i as int, t));
            }
            values.set(i, t);
            return;
        }
        i = i + 1;
    }
    proof {
        lemma_tags_view_push(values@, t);
        lemma_tags_view(values@.push(t));
    }
    values.push(t);
}

/// Reads the children of a compound up to the `End` id that closes it.
fn parse_compound(buf: &[u8], pos: usize, name: String) -> (r: Result<(NbtTag, usize), FormatError>)
    requires
        pos <= buf.len(),
    ensures
        lift(r) == value_at(buf@, pos as int, NbtTagType::Compound, name@),
        r matches Ok((t, p)) ==> pos < p <= buf.len() && kind(t@) == NbtTagType::Compound,
    decreases buf.len() - pos, 1nat,
{
    let ghost s = buf@;
    let mut values: Vec<NbtTag> = Vec::new();
    let mut p: usize = pos;
    loop
        invariant
            pos <= p <= buf.len(),
            s == buf@,
            children_at(s, pos as int, Seq::empty()) == children_at(s, p as int, tags_view(values@)),
            names_unique(tags_view(values@)),
            forall|j: int| 0 <= j < values@.len() ==> !(#[trigger] values@[j]@ is End),
        decreases buf.len() - p,
    {
        if p >= buf.len() {
            return Err(FormatError::UnexpectedEnd);
        }
        let ty = match NbtTagType::from_id(buf[p]) {
            Some(t) => t,
            None => return Err(FormatError::InvalidTypeId),
        };
        if ty == NbtTagType::End {
            return Ok((NbtTag::Compound(NbtTagCompound { name, values }), p + 1));
        }
        let (child_name, name_end) = match read_name(buf, p + 1) {
            Ok(x) => x,
            Err(e) => return Err(e),
        };
        let (t, value_end) = match parse_value(buf, name_end, ty, child_name) {
            Ok(x) => x,
            Err(e) => return Err(e),
        };
        insert_child(&mut values, t);
        p = value_end;
    }
}

/// Decodes a document: the id of a compound (10), its name, and its
/// children. Bytes after the root compound are ignored.
pub fn parse_bytes(bytes: &[u8]) -> (r: Result<NbtTag, FormatError>)
    ensures
        match r {
            Ok(t) => decode_document(bytes@) == Ok::<Tag, FormatError>(t@),
            Err(e) => decode_document(bytes@) == Err::<Tag, FormatError>(e),
        },
        bytes@.len() > 0 && bytes@[0] != 10 ==> r == Err::<NbtTag, FormatError>(
            FormatError::InvalidRoot,
        ),
        r matches Ok(t) ==> document_ok(t@),
{
    proof {
        crate::round_trip::lemma_document_sound(bytes@);
    }
    if bytes.len() < 1 {
        return Err(FormatError::UnexpectedEnd);
    }
    if bytes[0] != 10 {
        return Err(FormatError::InvalidRoot);
    }
    let (name, name_end) = match read_name(bytes, 1) {
        Ok(x) => x,
        Err(e) => return Err(e),
    };
    match parse_compound(bytes, name_end, name) {
        Ok((t, _)) => Ok(t),
        Err(e) => Err(e),
    }
}

} // verus!
