use vstd::prelude::*;
use vstd::string::StringExecFns;

verus! {

/// A tag is one node of the tree: a name and a payload. The name is absent
/// when the tag is an element of a [`Tag::List`]. Floating-point payloads are
/// held as their IEEE 754 bit patterns.
#[derive(Debug, PartialEq)]
pub enum Tag {
    /// A signed 8-bit integer. Sometimes used for booleans.
    Byte(Option<String>, i8),
    /// A signed 16-bit integer.
    Short(Option<String>, i16),
    /// A signed 32-bit integer.
    Int(Option<String>, i32),
    /// A signed 64-bit integer.
    Long(Option<String>, i64),
    /// A 32-bit float, as its bits.
    Float(Option<String>, u32),
    /// A 64-bit float, as its bits.
    Double(Option<String>, u64),
    /// An array of bytes.
    ByteArray(Option<String>, Vec<i8>),
    /// A text.
    String(Option<String>, String),
    /// A list of payloads of one kind, without type ids or names.
    List(Option<String>, Vec<Tag>),
    /// Named tags, each with its type id, name and payload.
    Compound(Option<String>, Vec<Tag>),
    /// An array of 32-bit integers.
    IntArray(Option<String>, Vec<i32>),
    /// An array of 64-bit integers.
    LongArray(Option<String>, Vec<i64>),
}

/// The mathematical value of a [`Tag`]: texts as character sequences and
/// collections as sequences.
pub enum TagView {
    Byte(Option<Seq<char>>, i8),
    Short(Option<Seq<char>>, i16),
    Int(Option<Seq<char>>, i32),
    Long(Option<Seq<char>>, i64),
    Float(Option<Seq<char>>, u32),
    Double(Option<Seq<char>>, u64),
    ByteArray(Option<Seq<char>>, Seq<i8>),
    String(Option<Seq<char>>, Seq<char>),
    List(Option<Seq<char>>, Seq<TagView>),
    Compound(Option<Seq<char>>, Seq<TagView>),
    IntArray(Option<Seq<char>>, Seq<i32>),
    LongArray(Option<Seq<char>>, Seq<i64>),
}

impl TagView {
    /// The type id that stands for this kind of tag on the wire.
    pub open spec fn id(self) -> u8 {
        match self {
            TagView::Byte(..) => 1,
            TagView::Short(..) => 2,
            TagView::Int(..) => 3,
            TagView::Long(..) => 4,
            TagView::Float(..) => 5,
            TagView::Double(..) => 6,
            TagView::ByteArray(..) => 7,
            TagView::String(..) => 8,
            TagView::List(..) => 9,
            TagView::Compound(..) => 10,
            TagView::IntArray(..) => 11,
            TagView::LongArray(..) => 12,
        }
    }

    pub open spec fn name(self) -> Option<Seq<char>> {
        match self {
            TagView::Byte(n, _) => n,
            TagView::Short(n, _) => n,
            TagView::Int(n, _) => n,
            TagView::Long(n, _) => n,
            TagView::Float(n, _) => n,
            TagView::Double(n, _) => n,
            TagView::ByteArray(n, _) => n,
            TagView::String(n, _) => n,
            TagView::List(n, _) => n,
            TagView::Compound(n, _) => n,
            TagView::IntArray(n, _) => n,
            TagView::LongArray(n, _) => n,
        }
    }

    /// The same payload under the name `n`.
    pub open spec fn with_name(self, n: Option<Seq<char>>) -> TagView {
        match self {
            TagView::Byte(_, p) => TagView::Byte(n, p),
            TagView::Short(_, p) => TagView::Short(n, p),
            TagView::Int(_, p) => TagView::Int(n, p),
            TagView::Long(_, p) => TagView::Long(n, p),
            TagView::Float(_, p) => TagView::Float(n, p),
            TagView::Double(_, p) => TagView::Double(n, p),
            TagView::ByteArray(_, p) => TagView::ByteArray(n, p),
            TagView::String(_, p) => TagView::String(n, p),
            TagView::List(_, p) => TagView::List(n, p),
            TagView::Compound(_, p) => TagView::Compound(n, p),
            TagView::IntArray(_, p) => TagView::IntArray(n, p),
            TagView::LongArray(_, p) => TagView::LongArray(n, p),
        }
    }

    /// The name that `Tag::name` gives this kind of tag.
    pub open spec fn kind_name(self) -> Seq<char> {
        match self {
            TagView::Byte(..) => "TAG_Byte"@,
            TagView::Short(..) => "TAG_Short"@,
            TagView::Int(..) => "TAG_Int"@,
            TagView::Long(..) => "TAG_Long"@,
            TagView::Float(..) => "TAG_Float"@,
            TagView::Double(..) => "TAG_Double"@,
            TagView::ByteArray(..) => "TAG_Byte_Array"@,
            TagView::String(..) => "TAG_String"@,
            TagView::List(..) => "TAG_List"@,
            TagView::Compound(..) => "TAG_Compound"@,
            TagView::IntArray(..) => "TAG_Int_Array"@,
            TagView::LongArray(..) => "TAG_Long_Array"@,
        }
    }
}

pub open spec fn name_view(n: Option<String>) -> Option<Seq<char>> {
    match n {
        Some(s) => Some(s@),
        None => None,
    }
}

pub open spec fn tag_view(t: Tag) -> TagView
    decreases t,
{
    match t {
        Tag::Byte(n, p) => TagView::Byte(name_view(n), p),
        Tag::Short(n, p) => TagView::Short(name_view(n), p),
        Tag::Int(n, p) => TagView::Int(name_view(n), p),
        Tag::Long(n, p) => TagView::Long(name_view(n), p),
        Tag::Float(n, p) => TagView::Float(name_view(n), p),
        Tag::Double(n, p) => TagView::Double(name_view(n), p),
        Tag::ByteArray(n, p) => TagView::ByteArray(name_view(n), p@),
        Tag::String(n, p) => TagView::String(name_view(n), p@),
        Tag::List(n, p) => TagView::List(name_view(n), tags_view(p@)),
        Tag::Compound(n, p) => TagView::Compound(name_view(n), tags_view(p@)),
        Tag::IntArray(n, p) => TagView::IntArray(name_view(n), p@),
        Tag::LongArray(n, p) => TagView::LongArray(name_view(n), p@),
    }
}

pub open spec fn tags_view(s: Seq<Tag>) -> Seq<TagView>
    decreases s,
{
    if s.len() == 0 {
        seq![]
    } else {
        seq![tag_view(s[0])] + tags_view(s.drop_first())
    }
}

impl View for Tag {
    type V = TagView;

    open spec fn view(&self) -> TagView {
        tag_view(*self)
    }
}

/// The view of a sequence of tags is the sequence of their views.
pub proof fn lemma_tags_view(s: Seq<Tag>)
    ensures
        tags_view(s).len() == s.len(),
        forall|i: int| 0 <= i < s.len() ==> #[trigger] tags_view(s)[i] == s[i]@,
    decreases s.len(),
{
    if s.len() > 0 {
        lemma_tags_view(s.drop_first());
        assert forall|i: int| 0 <= i < s.len() implies #[trigger] tags_view(s)[i] == s[i]@ by {
            if i > 0 {
                assert(tags_view(s)[i] == tags_view(s.drop_first())[i - 1]);
            }
        }
    }
}

/// Appending a tag appends its view.
pub proof fn lemma_tags_view_push(s: Seq<Tag>, t: Tag)
    ensures
        tags_view(s.push(t)) == tags_view(s).push(t@),
{
    lemma_tags_view(s);
    lemma_tags_view(s.push(t));
    assert(tags_view(s.push(t)) =~= tags_view(s).push(t@));
}

impl Tag {
    /// Returns the name of the tag's kind, such as `TAG_Byte`.
    pub fn name(&self) -> (r: &'static str)
        ensures
            r@ == self@.kind_name(),
    {
        proof {
            reveal_strlit("TAG_Byte");
            reveal_strlit("TAG_Short");
            reveal_strlit("TAG_Int");
            reveal_strlit("TAG_Long");
            reveal_strlit("TAG_Float");
            reveal_strlit("TAG_Double");
            reveal_strlit("TAG_Byte_Array");
            reveal_strlit("TAG_String");
            reveal_strlit("TAG_List");
            reveal_strlit("TAG_Compound");
            reveal_strlit("TAG_Int_Array");
            reveal_strlit("TAG_Long_Array");
        }
        match self {
            Tag::Byte(..) => "TAG_Byte",
            Tag::Short(..) => "TAG_Short",
            Tag::Int(..) => "TAG_Int",
            Tag::Long(..) => "TAG_Long",
            Tag::Float(..) => "TAG_Float",
            Tag::Double(..) => "TAG_Double",
            Tag::ByteArray(..) => "TAG_Byte_Array",
            Tag::String(..) => "TAG_String",
            Tag::List(..) => "TAG_List",
            Tag::Compound(..) => "TAG_Compound",
            Tag::IntArray(..) => "TAG_Int_Array",
            Tag::LongArray(..) => "TAG_Long_Array",
        }
    }

    /// Returns the type id of the tag.
    pub fn id(&self) -> (r: u8)
        ensures
            r == self@.id(),
    {
        match self {
            Tag::Byte(..) => 1,
            Tag::Short(..) => 2,
            Tag::Int(..) => 3,
            Tag::Long(..) => 4,
            Tag::Float(..) => 5,
            Tag::Double(..) => 6,
            Tag::ByteArray(..) => 7,
            Tag::String(..) => 8,
            Tag::List(..) => 9,
            Tag::Compound(..) => 10,
            Tag::IntArray(..) => 11,
            Tag::LongArray(..) => 12,
        }
    }

    /// Returns the root compound that wraps `children` under the empty name.
    pub fn root(children: Vec<Tag>) -> (r: Tag)
        ensures
            r@ == TagView::Compound(Some(Seq::empty()), tags_view(children@)),
    {
        Tag::Compound(Some(String::new()), children)
    }

    /// Returns the same payload under the name `name`, as a child of a
    /// compound or a root needs.
    pub fn with_name(self, name: &str) -> (r: Tag)
        ensures
            r@ == self@.with_name(Some(name@)),
    {
        self.renamed(Some(String::from_str(name)))
    }

    /// Returns the same payload under the name `n`.
    pub fn renamed(self, n: Option<String>) -> (r: Tag)
        ensures
            r@ == self@.with_name(name_view(n)),
    {
        match self {
            Tag::Byte(_, p) => Tag::Byte(n, p),
            Tag::Short(_, p) => Tag::Short(n, p),
            Tag::Int(_, p) => Tag::Int(n, p),
            Tag::Long(_, p) => Tag::Long(n, p),
            Tag::Float(_, p) => Tag::Float(n, p),
            Tag::Double(_, p) => Tag::Double(n, p),
            Tag::ByteArray(_, p) => Tag::ByteArray(n, p),
            Tag::String(_, p) => Tag::String(n, p),
            Tag::List(_, p) => Tag::List(n, p),
            Tag::Compound(_, p) => Tag::Compound(n, p),
            Tag::IntArray(_, p) => Tag::IntArray(n, p),
            Tag::LongArray(_, p) => Tag::LongArray(n, p),
        }
    }

    /// Returns the tag's own name, if it has one.
    pub fn tag_name(&self) -> (r: &Option<String>)
        ensures
            name_view(*r) == self@.name(),
    {
        match self {
            Tag::Byte(n, _) => n,
            Tag::Short(n, _) => n,
            Tag::Int(n, _) => n,
            Tag::Long(n, _) => n,
            Tag::Float(n, _) => n,
            Tag::Double(n, _) => n,
            Tag::ByteArray(n, _) => n,
            Tag::String(n, _) => n,
            Tag::List(n, _) => n,
            Tag::Compound(n, _) => n,
            Tag::IntArray(n, _) => n,
            Tag::LongArray(n, _) => n,
        }
    }
}

} // verus!
