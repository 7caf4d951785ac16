use vstd::prelude::*;

verus! {

/// The thirteen kinds of NBT tag, in the order of their wire ids.
#[derive(Clone, Copy, Debug, PartialEq, Eq, Hash, Structural)]
pub enum NbtTagType {
    End,
    Byte,
    Short,
    Int,
    Long,
    Float,
    Double,
    ByteArray,
    String,
    List,
    Compound,
    IntArray,
    LongArray,
}

/// The wire id of a tag kind.
pub open spec fn type_id(t: NbtTagType) -> u8 {
    match t {
        NbtTagType::End => 0,
        NbtTagType::Byte => 1,
        NbtTagType::Short => 2,
        NbtTagType::Int => 3,
        NbtTagType::Long => 4,
        NbtTagType::Float => 5,
        NbtTagType::Double => 6,
        NbtTagType::ByteArray => 7,
        NbtTagType::String => 8,
        NbtTagType::List => 9,
        NbtTagType::Compound => 10,
        NbtTagType::IntArray => 11,
        NbtTagType::LongArray => 12,
    }
}

/// The tag kind with a given wire id, if there is one.
pub open spec fn type_of_id(id: u8) -> Option<NbtTagType> {
    if id == 0 { Some(NbtTagType::End) }
    else if id == 1 { Some(NbtTagType::Byte) }
    else if id == 2 { Some(NbtTagType::Short) }
    else if id == 3 { Some(NbtTagType::Int) }
    else if id == 4 { Some(NbtTagType::Long) }
    else if id == 5 { Some(NbtTagType::Float) }
    else if id == 6 { Some(NbtTagType::Double) }
    else if id == 7 { Some(NbtTagType::ByteArray) }
    else if id == 8 { Some(NbtTagType::String) }
    else if id == 9 { Some(NbtTagType::List) }
    else if id == 10 { Some(NbtTagType::Compound) }
    else if id == 11 { Some(NbtTagType::IntArray) }
    else if id == 12 { Some(NbtTagType::LongArray) }
    else { None }
}

impl NbtTagType {
    /// The wire id of this kind.
    pub fn id(&self) -> (r: u8)
        ensures
            r == type_id(*self),
    {
        match self {
            NbtTagType::End => 0,
            NbtTagType::Byte => 1,
            NbtTagType::Short => 2,
            NbtTagType::Int => 3,
            NbtTagType::Long => 4,
            NbtTagType::Float => 5,
            NbtTagType::Double => 6,
            NbtTagType::ByteArray => 7,
            NbtTagType::String => 8,
            NbtTagType::List => 9,
            NbtTagType::Compound => 10,
            NbtTagType::IntArray => 11,
            NbtTagType::LongArray => 12,
        }
    }

    /// The kind whose wire id is `id`; `None` for ids above 12.
    pub fn from_id(id: u8) -> (r: Option<NbtTagType>)
        ensures
            r == type_of_id(id),
    {
        match id {
            0 => Some(NbtTagType::End),
            1 => Some(NbtTagType::Byte),
            2 => Some(NbtTagType::Short),
            3 => Some(NbtTagType::Int),
            4 => Some(NbtTagType::Long),
            5 => Some(NbtTagType::Float),
            6 => Some(NbtTagType::Double),
            7 => Some(NbtTagType::ByteArray),
            8 => Some(NbtTagType::String),
            9 => Some(NbtTagType::List),
            10 => Some(NbtTagType::Compound),
            11 => Some(NbtTagType::IntArray),
            12 => Some(NbtTagType::LongArray),
            _ => None,
        }
    }
}

/// Ids and kinds correspond one to one.
pub proof fn lemma_type_id_round_trip(t: NbtTagType)
    ensures
        type_of_id(type_id(t)) == Some(t),
        type_id(t) <= 12,
{
}


impl Default for NbtTagType {
    fn default() -> (r: NbtTagType)
        ensures
            r == NbtTagType::End,
    {
        NbtTagType::End
    }
}

/// A tag holding an `i8`.
#[derive(Clone, Debug, PartialEq)]
pub struct NbtTagByte {
    pub name: String,
    pub value: i8,
}

/// A tag holding an `i16`.
#[derive(Clone, Debug, PartialEq)]
pub struct NbtTagShort {
    pub name: String,
    pub value: i16,
}

/// A tag holding an `i32`.
#[derive(Clone, Debug, PartialEq)]
pub struct NbtTagInt {
    pub name: String,
    pub value: i32,
}

/// A tag holding an `i64`.
#[derive(Clone, Debug, PartialEq)]
pub struct NbtTagLong {
    pub name: String,
    pub value: i64,
}

/// A tag holding a 32-bit IEEE 754 float, kept as its bit pattern
/// (`f32::from_bits` gives the number).
#[derive(Clone, Debug, PartialEq)]
pub struct NbtTagFloat {
    pub name: String,
    pub bits: u32,
}

/// A tag holding a 64-bit IEEE 754 float, kept as its bit pattern
/// (`f64::from_bits` gives the number).
#[derive(Clone, Debug, PartialEq)]
pub struct NbtTagDouble {
    pub name: String,
    pub bits: u64,
}

/// A tag holding a sequence of `i8`.
#[derive(Clone, Debug, PartialEq)]
pub struct NbtTagByteArray {
    pub name: String,
    pub values: Vec<i8>,
}

/// A tag holding text. Each character stands for one byte on the wire.
#[derive(Clone, Debug, PartialEq)]
pub struct NbtTagString {
    pub name: String,
    pub value: String,
}

/// An ordered sequence of unnamed tags that all have the kind `ty`.
#[derive(Debug, PartialEq)]
pub struct NbtTagList {
    pub name: String,
    pub ty: NbtTagType,
    pub values: Vec<NbtTag>,
}

/// Named children, at most one for each name, in the order in which they
/// were first inserted.
#[derive(Debug, PartialEq)]
pub struct NbtTagCompound {
    pub name: String,
    pub values: Vec<NbtTag>,
}

/// A tag holding a sequence of `i32`.
#[derive(Clone, Debug, PartialEq)]
pub struct NbtTagIntArray {
    pub name: String,
    pub values: Vec<i32>,
}

/// A tag holding a sequence of `i64`.
#[derive(Clone, Debug, PartialEq)]
pub struct NbtTagLongArray {
    pub name: String,
    pub values: Vec<i64>,
}

/// One node of an NBT tree.
#[derive(Debug, PartialEq)]
pub enum NbtTag {
    End,
    Byte(NbtTagByte),
    Short(NbtTagShort),
    Int(NbtTagInt),
    Long(NbtTagLong),
    Float(NbtTagFloat),
    Double(NbtTagDouble),
    ByteArray(NbtTagByteArray),
    String(NbtTagString),
    List(NbtTagList),
    Compound(NbtTagCompound),
    IntArray(NbtTagIntArray),
    LongArray(NbtTagLongArray),
}

/// The mathematical value of a tag: every name and text is a sequence of
/// characters, every array a sequence of numbers.
pub enum Tag {
    End,
    Byte(Seq<char>, i8),
    Short(Seq<char>, i16),
    Int(Seq<char>, i32),
    Long(Seq<char>, i64),
    Float(Seq<char>, u32),
    Double(Seq<char>, u64),
    ByteArray(Seq<char>, Seq<i8>),
    String(Seq<char>, Seq<char>),
    List(Seq<char>, NbtTagType, Seq<Tag>),
    Compound(Seq<char>, Seq<Tag>),
    IntArray(Seq<char>, Seq<i32>),
    LongArray(Seq<char>, Seq<i64>),
}

/// The kind of a tag value.
pub open spec fn kind(t: Tag) -> NbtTagType {
    match t {
        Tag::End => NbtTagType::End,
        Tag::Byte(..) => NbtTagType::Byte,
        Tag::Short(..) => NbtTagType::Short,
        Tag::Int(..) => NbtTagType::Int,
        Tag::Long(..) => NbtTagType::Long,
        Tag::Float(..) => NbtTagType::Float,
        Tag::Double(..) => NbtTagType::Double,
        Tag::ByteArray(..) => NbtTagType::ByteArray,
        Tag::String(..) => NbtTagType::String,
        Tag::List(..) => NbtTagType::List,
        Tag::Compound(..) => NbtTagType::Compound,
        Tag::IntArray(..) => NbtTagType::IntArray,
        Tag::LongArray(..) => NbtTagType::LongArray,
    }
}

/// The name of a tag value; `End` has none and gives the empty sequence.
pub open spec fn tag_name(t: Tag) -> Seq<char> {
    match t {
        Tag::End => Seq::empty(),
        Tag::Byte(n, _) => n,
        Tag::Short(n, _) => n,
        Tag::Int(n, _) => n,
        Tag::Long(n, _) => n,
        Tag::Float(n, _) => n,
        Tag::Double(n, _) => n,
        Tag::ByteArray(n, _) => n,
        Tag::String(n, _) => n,
        Tag::List(n, _, _) => n,
        Tag::Compound(n, _) => n,
        Tag::IntArray(n, _) => n,
        Tag::LongArray(n, _) => n,
    }
}

/// The value of a tag tree.
pub open spec fn tag_view(t: NbtTag) -> Tag
    decreases t,
{
    match t {
        NbtTag::End => Tag::End,
        NbtTag::Byte(x) => Tag::Byte(x.name@, x.value),
        NbtTag::Short(x) => Tag::Short(x.name@, x.value),
        NbtTag::Int(x) => Tag::Int(x.name@, x.value),
        NbtTag::Long(x) => Tag::Long(x.name@, x.value),
        NbtTag::Float(x) => Tag::Float(x.name@, x.bits),
        NbtTag::Double(x) => Tag::Double(x.name@, x.bits),
        NbtTag::ByteArray(x) => Tag::ByteArray(x.name@, x.values@),
        NbtTag::String(x) => Tag::String(x.name@, x.value@),
        NbtTag::List(x) => Tag::List(x.name@, x.ty, tags_view(x.values@)),
        NbtTag::Compound(x) => Tag::Compound(x.name@, tags_view(x.values@)),
        NbtTag::IntArray(x) => Tag::IntArray(x.name@, x.values@),
        NbtTag::LongArray(x) => Tag::LongArray(x.name@, x.values@),
    }
}

/// The values of a sequence of tag trees, in order.
pub open spec fn tags_view(s: Seq<NbtTag>) -> Seq<Tag>
    decreases s,
{
    if s.len() == 0 {
        Seq::empty()
    } else {
        seq![tag_view(s[0])] + tags_view(s.subrange(1, s.len() as int))
    }
}

pub proof fn lemma_tags_view(s: Seq<NbtTag>)
    ensures
        tags_view(s).len() == s.len(),
        forall|i: int| 0 <= i < s.len() ==> #[trigger] tags_view(s)[i] == tag_view(s[i]),
    decreases s.len(),
{
    if s.len() > 0 {
        lemma_tags_view(s.subrange(1, s.len() as int));
    }
}

pub proof fn lemma_tags_view_push(s: Seq<NbtTag>, x: NbtTag)
    ensures
        tags_view(s.push(x)) == tags_view(s).push(tag_view(x)),
{
    lemma_tags_view(s);
    lemma_tags_view(s.push(x));
    assert(tags_view(s.push(x)) =~= tags_view(s).push(tag_view(x)));
}

pub proof fn lemma_tags_view_update(s: Seq<NbtTag>, i: int, x: NbtTag)
    requires
        0 <= i < s.len(),
    ensures
        tags_view(s.update(i, x)) == tags_view(s).update(i, tag_view(x)),
{
    lemma_tags_view(s);
    lemma_tags_view(s.update(i, x));
    assert(tags_view(s.update(i, x)) =~= tags_view(s).update(i, tag_view(x)));
}

/// The name of a tag tree; `None` for `End`, which has none.
pub(crate) fn name_of(t: &NbtTag) -> (r: Option<&String>)
    ensures
        match r {
            Some(n) => !(t@ is End) && n@ == tag_name(t@),
            None => t@ is End,
        },
{
    match t {
        NbtTag::End => None,
        NbtTag::Byte(x) => Some(&x.name),
        NbtTag::Short(x) => Some(&x.name),
        NbtTag::Int(x) => Some(&x.name),
        NbtTag::Long(x) => Some(&x.name),
        NbtTag::Float(x) => Some(&x.name),
        NbtTag::Double(x) => Some(&x.name),
        NbtTag::ByteArray(x) => Some(&x.name),
        NbtTag::String(x) => Some(&x.name),
        NbtTag::List(x) => Some(&x.name),
        NbtTag::Compound(x) => Some(&x.name),
        NbtTag::IntArray(x) => Some(&x.name),
        NbtTag::LongArray(x) => Some(&x.name),
    }
}

impl NbtTag {
    /// The kind of this tag.
    pub fn ty(&self) -> (r: NbtTagType)
        ensures
            r == kind(self@),
    {
        match self {
            NbtTag::End => NbtTagType::End,
            NbtTag::Byte(_) => NbtTagType::Byte,
            NbtTag::Short(_) => NbtTagType::Short,
            NbtTag::Int(_) => NbtTagType::Int,
            NbtTag::Long(_) => NbtTagType::Long,
            NbtTag::Float(_) => NbtTagType::Float,
            NbtTag::Double(_) => NbtTagType::Double,
            NbtTag::ByteArray(_) => NbtTagType::ByteArray,
            NbtTag::String(_) => NbtTagType::String,
            NbtTag::List(_) => NbtTagType::List,
            NbtTag::Compound(_) => NbtTagType::Compound,
            NbtTag::IntArray(_) => NbtTagType::IntArray,
            NbtTag::LongArray(_) => NbtTagType::LongArray,
        }
    }

    /// The tag as a `Byte`, or `None` if it is of another kind.
    pub fn byte(&self) -> (r: Option<&NbtTagByte>)
        ensures
            r is Some <==> self is Byte,
            r matches Some(x) ==> *self == NbtTag::Byte(*x),
    {
        match self {
            NbtTag::Byte(x) => Some(x),
            _ => None,
        }
    }

    /// The tag as a `Short`, or `None` if it is of another kind.
    pub fn short(&self) -> (r: Option<&NbtTagShort>)
        ensures
            r is Some <==> self is Short,
            r matches Some(x) ==> *self == NbtTag::Short(*x),
    {
        match self {
            NbtTag::Short(x) => Some(x),
            _ => None,
        }
    }

    /// The tag as a `Int`, or `None` if it is of another kind.
    pub fn int_tag(&self) -> (r: Option<&NbtTagInt>)
        ensures
            r is Some <==> self is Int,
            r matches Some(x) ==> *self == NbtTag::Int(*x),
    {
        match self {
            NbtTag::Int(x) => Some(x),
            _ => None,
        }
    }

    /// The tag as a `Long`, or `None` if it is of another kind.
    pub fn long(&self) -> (r: Option<&NbtTagLong>)
        ensures
            r is Some <==> self is Long,
            r matches Some(x) ==> *self == NbtTag::Long(*x),
    {
        match self {
            NbtTag::Long(x) => Some(x),
            _ => None,
        }
    }

    /// The tag as a `Float`, or `None` if it is of another kind.
    pub fn float(&self) -> (r: Option<&NbtTagFloat>)
        ensures
            r is Some <==> self is Float,
            r matches Some(x) ==> *self == NbtTag::Float(*x),
    {
        match self {
            NbtTag::Float(x) => Some(x),
            _ => None,
        }
    }

    /// The tag as a `Double`, or `None` if it is of another kind.
    pub fn double(&self) -> (r: Option<&NbtTagDouble>)
        ensures
            r is Some <==> self is Double,
            r matches Some(x) ==> *self == NbtTag::Double(*x),
    {
        match self {
            NbtTag::Double(x) => Some(x),
            _ => None,
        }
    }

    /// The tag as a `ByteArray`, or `None` if it is of another kind.
    pub fn byte_array(&self) -> (r: Option<&NbtTagByteArray>)
        ensures
            r is Some <==> self is ByteArray,
            r matches Some(x) ==> *self == NbtTag::ByteArray(*x),
    {
        match self {
            NbtTag::ByteArray(x) => Some(x),
            _ => None,
        }
    }

    /// The tag as a `String`, or `None` if it is of another kind.
    pub fn string(&self) -> (r: Option<&NbtTagString>)
        ensures
            r is Some <==> self is String,
            r matches Some(x) ==> *self == NbtTag::String(*x),
    {
        match self {
            NbtTag::String(x) => Some(x),
            _ => None,
        }
    }

    /// The tag as a `List`, or `None` if it is of another kind.
    pub fn list(&self) -> (r: Option<&NbtTagList>)
        ensures
            r is Some <==> self is List,
            r matches Some(x) ==> *self == NbtTag::List(*x),
    {
        match self {
            NbtTag::List(x) => Some(x),
            _ => None,
        }
    }

    /// The tag as a `Compound`, or `None` if it is of another kind.
    pub fn compound(&self) -> (r: Option<&NbtTagCompound>)
        ensures
            r is Some <==> self is Compound,
            r matches Some(x) ==> *self == NbtTag::Compound(*x),
    {
        match self {
            NbtTag::Compound(x) => Some(x),
            _ => None,
        }
    }

    /// The tag as a `IntArray`, or `None` if it is of another kind.
    pub fn int_array(&self) -> (r: Option<&NbtTagIntArray>)
        ensures
            r is Some <==> self is IntArray,
            r matches Some(x) ==> *self == NbtTag::IntArray(*x),
    {
        match self {
            NbtTag::IntArray(x) => Some(x),
            _ => None,
        }
    }

    /// The tag as a `LongArray`, or `None` if it is of another kind.
    pub fn long_array(&self) -> (r: Option<&NbtTagLongArray>)
        ensures
            r is Some <==> self is LongArray,
            r matches Some(x) ==> *self == NbtTag::LongArray(*x),
    {
        match self {
            NbtTag::LongArray(x) => Some(x),
            _ => None,
        }
    }
}

impl Default for NbtTag {
    fn default() -> (r: NbtTag)
        ensures
            r == NbtTag::End,
    {
        NbtTag::End
    }
}

/// A child of a compound answers to the name `n`.
pub open spec fn answers_to(t: Tag, n: Seq<char>) -> bool {
    !(t is End) && tag_name(t) == n
}

impl NbtTagCompound {
    /// An empty compound named `name`.
    pub fn new(name: &str) -> (r: NbtTagCompound)
        ensures
            r@ == Tag::Compound(name@, Seq::empty()),
    {
        let c = NbtTagCompound { name: name.to_owned(), values: Vec::new() };
        assert(tags_view(c.values@) =~= Seq::<Tag>::empty());
        c
    }

    /// The first child named `name`, if there is one.
    pub fn get(&self, name: &str) -> (r: Option<&NbtTag>)
        ensures
            match r {
                Some(t) => exists|i: int|
                    0 <= i < self.values@.len() && self.values@[i] == *t && answers_to(t@, name@)
                        && forall|j: int| 0 <= j < i ==> !answers_to(#[trigger] self.values@[j]@, name@),
                None => forall|i: int|
                    0 <= i < self.values@.len() ==> !answers_to(#[trigger] self.values@[i]@, name@),
            },
    {
        let key: String = name.to_owned();
        let mut i: usize = 0;
        while i < self.values.len()
            invariant
                i <= self.values@.len(),
                key@ == name@,
                forall|j: int| 0 <= j < i ==> !answers_to(#[trigger] self.values@[j]@, name@),
            decreases self.values.len() - i,
        {
            let found = match name_of(&self.values[i]) {
                Some(n) => n.eq(&key),
                None => false,
            };
            if found {
                return Some(&self.values[i]);
            }
            i = i + 1;
        }
        None
    }
}

impl View for NbtTag {
    type V = Tag;

    open spec fn view(&self) -> Tag {
        tag_view(*self)
    }
}

impl View for NbtTagList {
    type V = Tag;

    open spec fn view(&self) -> Tag {
        Tag::List(self.name@, self.ty, tags_view(self.values@))
    }
}

impl View for NbtTagCompound {
    type V = Tag;

    open spec fn view(&self) -> Tag {
        Tag::Compound(self.name@, tags_view(self.values@))
    }
}

/// Every character stands for one byte (code points below 256).
pub open spec fn latin1(s: Seq<char>) -> bool {
    forall|i: int| 0 <= i < s.len() ==> (#[trigger] s[i] as u32) < 256
}

/// A name that the wire format can carry: one byte per character and a
/// length that fits its signed 16-bit prefix.
pub open spec fn name_ok(n: Seq<char>) -> bool {
    latin1(n) && n.len() <= 0x7fff
}

/// No two tags of `cs` share a name.
pub open spec fn names_unique(cs: Seq<Tag>) -> bool {
    forall|i: int, j: int|
        0 <= i < cs.len() && 0 <= j < cs.len() && i != j ==> tag_name(#[trigger] cs[i]) != tag_name(
            #[trigger] cs[j],
        )
}

/// The payload of `t` (all but its own name) can be written: texts and
/// names below it fit their prefixes, lengths fit a signed 32-bit count,
/// every list holds only elements of its declared kind, and no `End`
/// stands where a value must be.
pub open spec fn encodable(t: Tag) -> bool
    decreases t,
{
    match t {
        Tag::End => false,
        Tag::ByteArray(_, v) => v.len() <= 0x7fff_ffff,
        Tag::String(_, v) => latin1(v) && v.len() <= 0xffff,
        Tag::List(_, ety, items) => items.len() <= 0x7fff_ffff && forall|i: int|
            0 <= i < items.len() ==> kind(#[trigger] items[i]) == ety && encodable(items[i]),
        Tag::Compound(_, cs) => forall|i: int|
            0 <= i < cs.len() ==> name_ok(tag_name(#[trigger] cs[i])) && encodable(cs[i]),
        Tag::IntArray(_, v) => v.len() <= 0x7fff_ffff,
        Tag::LongArray(_, v) => v.len() <= 0x7fff_ffff,
        _ => true,
    }
}

/// The payload of `t` is one that the decoder produces: it is encodable,
/// no array or list is longer than 65536, list elements have empty names,
/// and the children of every compound have distinct names.
pub open spec fn decodable(t: Tag) -> bool
    decreases t,
{
    match t {
        Tag::End => false,
        Tag::ByteArray(_, v) => v.len() <= 65536,
        Tag::String(_, v) => latin1(v) && v.len() <= 0xffff,
        Tag::List(_, ety, items) => items.len() <= 65536 && forall|i: int|
            0 <= i < items.len() ==> kind(#[trigger] items[i]) == ety && tag_name(items[i])
                == Seq::<char>::empty() && decodable(items[i]),
        Tag::Compound(_, cs) => names_unique(cs) && forall|i: int|
            0 <= i < cs.len() ==> name_ok(tag_name(#[trigger] cs[i])) && decodable(cs[i]),
        Tag::IntArray(_, v) => v.len() <= 65536,
        Tag::LongArray(_, v) => v.len() <= 65536,
        _ => true,
    }
}

/// A whole document: a compound with a writable name and a decodable payload.
pub open spec fn document_ok(t: Tag) -> bool {
    t is Compound && name_ok(tag_name(t)) && decodable(t)
}

/// What the decoder produces can be written back.
pub proof fn lemma_decodable_encodable(t: Tag)
    requires
        decodable(t),
    ensures
        encodable(t),
    decreases t,
{
    match t {
        Tag::List(_, ety, items) => {
            assert forall|i: int| 0 <= i < items.len() implies kind(#[trigger] items[i]) == ety
                && encodable(items[i]) by {
                lemma_decodable_encodable(items[i]);
            }
        },
        Tag::Compound(_, cs) => {
            assert forall|i: int| 0 <= i < cs.len() implies name_ok(tag_name(#[trigger] cs[i]))
                && encodable(cs[i]) by {
                lemma_decodable_encodable(cs[i]);
            }
        },
        _ => {},
    }
}

} // verus!
