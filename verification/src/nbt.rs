//! NBT trees as plain values.
//!
//! Floating-point payloads are kept as their bit patterns. The entries of a compound stand in the
//! order in which they were handed over. What shows them puts them in the order of their names.

use vstd::prelude::*;

verus! {

/// What a compound holds: its entries, names first.
pub type CompoundView = Seq<(Seq<char>, TagView)>;

/// What a tag holds.
pub enum TagView {
    End,
    Byte(i8),
    Short(i16),
    Int(i32),
    Long(i64),
    Float(u32),
    Double(u64),
    ByteArray(Seq<i8>),
    Text(Seq<char>),
    List(Seq<TagView>),
    Compound(CompoundView),
    IntArray(Seq<i32>),
    LongArray(Seq<i64>),
}

/// One NBT value.
pub enum Tag {
    End,
    Byte(i8),
    Short(i16),
    Int(i32),
    Long(i64),
    /// The bits of a 32-bit floating-point number.
    Float(u32),
    /// The bits of a 64-bit floating-point number.
    Double(u64),
    ByteArray(Vec<i8>),
    Text(String),
    List(Vec<Tag>),
    Compound(CompoundTag),
    IntArray(Vec<i32>),
    LongArray(Vec<i64>),
}

/// A compound: named values.
pub struct CompoundTag {
    pub entries: Vec<(String, Tag)>,
}

/// What a tag holds.
pub open spec fn tag_view(t: Tag) -> TagView
    decreases t,
{
    match t {
        Tag::End => TagView::End,
        Tag::Byte(v) => TagView::Byte(v),
        Tag::Short(v) => TagView::Short(v),
        Tag::Int(v) => TagView::Int(v),
        Tag::Long(v) => TagView::Long(v),
        Tag::Float(v) => TagView::Float(v),
        Tag::Double(v) => TagView::Double(v),
        Tag::ByteArray(v) => TagView::ByteArray(v@),
        Tag::Text(s) => TagView::Text(s@),
        Tag::List(l) => TagView::List(list_view(l@)),
        Tag::Compound(c) => TagView::Compound(compound_view(c)),
        Tag::IntArray(v) => TagView::IntArray(v@),
        Tag::LongArray(v) => TagView::LongArray(v@),
    }
}

/// What the elements of a list hold.
pub open spec fn list_view(l: Seq<Tag>) -> Seq<TagView>
    decreases l,
{
    Seq::new(
        l.len(),
        |i: int|
            if 0 <= i < l.len() {
                tag_view(l[i])
            } else {
                TagView::End
            },
    )
}

/// What a compound holds.
pub open spec fn compound_view(c: CompoundTag) -> CompoundView
    decreases c,
{
    Seq::new(
        c.entries@.len(),
        |i: int|
            if 0 <= i < c.entries@.len() {
                (c.entries@[i].0@, tag_view(c.entries@[i].1))
            } else {
                (Seq::empty(), TagView::End)
            },
    )
}

impl View for Tag {
    type V = TagView;

    open spec fn view(&self) -> TagView {
        tag_view(*self)
    }
}

impl View for CompoundTag {
    type V = CompoundView;

    open spec fn view(&self) -> CompoundView {
        compound_view(*self)
    }
}

/// The value that a compound has under a name: that of the first entry with the name.
pub open spec fn lookup(c: CompoundView, name: Seq<char>) -> Option<TagView>
    decreases c.len(),
{
    if c.len() == 0 {
        None
    } else if c[0].0 == name {
        Some(c[0].1)
    } else {
        lookup(c.skip(1), name)
    }
}

/// The text under a name, where there is one.
pub open spec fn lookup_text(c: CompoundView, name: Seq<char>) -> Option<Seq<char>> {
    match lookup(c, name) {
        Some(TagView::Text(s)) => Some(s),
        _ => None,
    }
}

/// The list under a name, where there is one.
pub open spec fn lookup_list(c: CompoundView, name: Seq<char>) -> Option<Seq<TagView>> {
    match lookup(c, name) {
        Some(TagView::List(l)) => Some(l),
        _ => None,
    }
}

/// The compound under a name, where there is one.
pub open spec fn lookup_compound(c: CompoundView, name: Seq<char>) -> Option<CompoundView> {
    match lookup(c, name) {
        Some(TagView::Compound(m)) => Some(m),
        _ => None,
    }
}

/// The 32-bit integer under a name, where an `Int` stands there.
pub open spec fn lookup_int(c: CompoundView, name: Seq<char>) -> Option<i32> {
    match lookup(c, name) {
        Some(TagView::Int(v)) => Some(v),
        _ => None,
    }
}

/// An integer tag as a 32-bit integer. A `Long` keeps its low 32 bits.
pub open spec fn tag_i32(t: TagView) -> Option<i32> {
    match t {
        TagView::Byte(v) => Some(v as i32),
        TagView::Short(v) => Some(v as i32),
        TagView::Int(v) => Some(v),
        TagView::Long(v) => Some(v as i32),
        _ => None,
    }
}

/// An integer tag as a 64-bit integer.
pub open spec fn tag_i64(t: TagView) -> Option<i64> {
    match t {
        TagView::Byte(v) => Some(v as i64),
        TagView::Short(v) => Some(v as i64),
        TagView::Int(v) => Some(v as i64),
        TagView::Long(v) => Some(v),
        _ => None,
    }
}

/// The integer under a name as a 32-bit integer.
pub open spec fn lookup_i32(c: CompoundView, name: Seq<char>) -> Option<i32> {
    match lookup(c, name) {
        Some(t) => tag_i32(t),
        None => None,
    }
}

/// The integer under a name as a 64-bit integer.
pub open spec fn lookup_i64(c: CompoundView, name: Seq<char>) -> Option<i64> {
    match lookup(c, name) {
        Some(t) => tag_i64(t),
        None => None,
    }
}

/// The bits of a floating-point number of either width.
#[derive(Clone, Copy, PartialEq, Eq, Structural, Debug)]
pub enum Real {
    Single(u32),
    Double(u64),
}

/// A floating-point tag as its bits.
pub open spec fn tag_real(t: TagView) -> Option<Real> {
    match t {
        TagView::Float(v) => Some(Real::Single(v)),
        TagView::Double(v) => Some(Real::Double(v)),
        _ => None,
    }
}

/// The floating-point number under a name.
pub open spec fn lookup_real(c: CompoundView, name: Seq<char>) -> Option<Real> {
    match lookup(c, name) {
        Some(t) => tag_real(t),
        None => None,
    }
}

impl Tag {
    /// The text of a string tag.
    pub fn as_str(&self) -> (r: Option<&str>)
        ensures
            match r {
                Some(s) => self@ == TagView::Text(s@),
                None => !(self@ is Text),
            },
    {
        match self {
            Tag::Text(s) => Some(s.as_str()),
            _ => None,
        }
    }

    /// The value of an `Int` tag.
    pub fn as_i32(&self) -> (r: Option<i32>)
        ensures
            match r {
                Some(v) => self@ == TagView::Int(v),
                None => !(self@ is Int),
            },
    {
        match self {
            Tag::Int(v) => Some(*v),
            _ => None,
        }
    }

    /// The compound in a compound tag.
    pub fn as_compound(&self) -> (r: Option<&CompoundTag>)
        ensures
            match r {
                Some(c) => self@ == TagView::Compound(c@),
                None => !(self@ is Compound),
            },
    {
        match self {
            Tag::Compound(c) => Some(c),
            _ => None,
        }
    }

    /// The elements of a list tag.
    pub fn as_list(&self) -> (r: Option<&Vec<Tag>>)
        ensures
            match r {
                Some(l) => self@ == TagView::List(list_view(l@)),
                None => !(self@ is List),
            },
    {
        match self {
            Tag::List(l) => Some(l),
            _ => None,
        }
    }
}

/// An integer tag as a 32-bit integer. A `Long` keeps its low 32 bits.
pub fn tag_to_i32(tag: &Tag) -> (r: Option<i32>)
    ensures
        r == tag_i32(tag@),
{
    match tag {
        Tag::Byte(v) => Some(*v as i32),
        Tag::Short(v) => Some(*v as i32),
        Tag::Int(v) => Some(*v),
        Tag::Long(v) => Some(
            #[verifier::truncate]
            (*v as i32),
        ),
        _ => None,
    }
}

/// An integer tag as a 64-bit integer.
pub fn tag_to_i64(tag: &Tag) -> (r: Option<i64>)
    ensures
        r == tag_i64(tag@),
{
    match tag {
        Tag::Byte(v) => Some(*v as i64),
        Tag::Short(v) => Some(*v as i64),
        Tag::Int(v) => Some(*v as i64),
        Tag::Long(v) => Some(*v),
        _ => None,
    }
}

/// A floating-point tag as its bits.
pub fn tag_to_real(tag: &Tag) -> (r: Option<Real>)
    ensures
        r == tag_real(tag@),
{
    match tag {
        Tag::Float(v) => Some(Real::Single(*v)),
        Tag::Double(v) => Some(Real::Double(*v)),
        _ => None,
    }
}

impl CompoundTag {
    /// A compound with no entries.
    pub fn new() -> (r: CompoundTag)
        ensures
            r@ == CompoundView::empty(),
    {
        let r = CompoundTag { entries: Vec::new() };
        assert(r@ =~= CompoundView::empty());
        r
    }

    /// Whether the compound has no entries.
    pub fn empty(&self) -> (r: bool)
        ensures
            r == (self@.len() == 0),
    {
        self.entries.len() == 0
    }

    /// The value under a name.
    pub fn get(&self, name: &str) -> (r: Option<&Tag>)
        ensures
            match r {
                Some(t) => lookup(self@, name@) == Some(t@),
                None => lookup(self@, name@) is None,
            },
    {
        let wanted: String = name.to_owned();
        let mut i: usize = 0;
        assert(self@.skip(0) =~= self@);
        while i < self.entries.len()
            invariant
                wanted@ == name@,
                i <= self.entries@.len(),
                lookup(self@, name@) == lookup(self@.skip(i as int), name@),
            decreases self.entries@.len() - i,
        {
            assert(self@.skip(i as int)[0] == self@[i as int]);
            assert(self@.skip(i as int).skip(1) =~= self@.skip(i + 1));
            if self.entries[i].0 == wanted {
                return Some(&self.entries[i].1);
            }
            i += 1;
        }
        None
    }

    /// The text under a name.
    pub fn get_text(&self, name: &str) -> (r: Option<&str>)
        ensures
            match r {
                Some(s) => lookup_text(self@, name@) == Some(s@),
                None => lookup_text(self@, name@) is None,
            },
    {
        match self.get(name) {
            Some(t) => t.as_str(),
            None => None,
        }
    }

    /// The list under a name.
    pub fn get_list(&self, name: &str) -> (r: Option<&Vec<Tag>>)
        ensures
            match r {
                Some(l) => lookup_list(self@, name@) == Some(list_view(l@)),
                None => lookup_list(self@, name@) is None,
            },
    {
        match self.get(name) {
            Some(t) => t.as_list(),
            None => None,
        }
    }

    /// The compound under a name.
    pub fn get_compound(&self, name: &str) -> (r: Option<&CompoundTag>)
        ensures
            match r {
                Some(c) => lookup_compound(self@, name@) == Some(c@),
                None => lookup_compound(self@, name@) is None,
            },
    {
        match self.get(name) {
            Some(t) => t.as_compound(),
            None => None,
        }
    }

    /// The value of the `Int` under a name.
    pub fn get_int(&self, name: &str) -> (r: Option<i32>)
        ensures
            r == lookup_int(self@, name@),
    {
        match self.get(name) {
            Some(t) => t.as_i32(),
            None => None,
        }
    }

    /// The integer under a name as a 32-bit integer.
    pub fn get_i32(&self, name: &str) -> (r: Option<i32>)
        ensures
            r == lookup_i32(self@, name@),
    {
        match self.get(name) {
            Some(t) => tag_to_i32(t),
            None => None,
        }
    }

    /// The integer under a name as a 64-bit integer.
    pub fn get_i64(&self, name: &str) -> (r: Option<i64>)
        ensures
            r == lookup_i64(self@, name@),
    {
        match self.get(name) {
            Some(t) => tag_to_i64(t),
            None => None,
        }
    }

    /// The floating-point number under a name.
    pub fn get_real(&self, name: &str) -> (r: Option<Real>)
        ensures
            r == lookup_real(self@, name@),
    {
        match self.get(name) {
            Some(t) => tag_to_real(t),
            None => None,
        }
    }
}

fn clone_list(l: &Vec<Tag>) -> (r: Vec<Tag>)
    ensures
        list_view(r@) == list_view(l@),
    decreases l,
{
    let mut out: Vec<Tag> = Vec::new();
    let mut i: usize = 0;
    while i < l.len()
        invariant
            i <= l@.len(),
            out@.len() == i,
            forall|k: int| 0 <= k < i ==> (#[trigger] out@[k])@ == l@[k]@,
        decreases l@.len() - i,
    {
        out.push(l[i].clone());
        i += 1;
    }
    assert(list_view(out@) =~= list_view(l@));
    out
}

impl Clone for Tag {
    fn clone(&self) -> (r: Tag)
        ensures
            r@ == self@,
        decreases self,
    {
        match self {
            Tag::End => Tag::End,
            Tag::Byte(v) => Tag::Byte(*v),
            Tag::Short(v) => Tag::Short(*v),
            Tag::Int(v) => Tag::Int(*v),
            Tag::Long(v) => Tag::Long(*v),
            Tag::Float(v) => Tag::Float(*v),
            Tag::Double(v) => Tag::Double(*v),
            Tag::ByteArray(v) => Tag::ByteArray(v.clone()),
            Tag::Text(s) => Tag::Text(s.clone()),
            Tag::List(l) => Tag::List(clone_list(l)),
            Tag::Compound(c) => Tag::Compound(c.clone()),
            Tag::IntArray(v) => Tag::IntArray(v.clone()),
            Tag::LongArray(v) => Tag::LongArray(v.clone()),
        }
    }
}

impl Clone for CompoundTag {
    fn clone(&self) -> (r: CompoundTag)
        ensures
            r@ == self@,
        decreases self,
    {
        let mut out: Vec<(String, Tag)> = Vec::new();
        let mut i: usize = 0;
        while i < self.entries.len()
            invariant
                i <= self.entries@.len(),
                out@.len() == i,
                forall|k: int|
                    0 <= k < i ==> (#[trigger] out@[k]).0@ == self.entries@[k].0@ && out@[k].1@
                        == self.entries@[k].1@,
            decreases self.entries@.len() - i,
        {
            out.push((self.entries[i].0.clone(), self.entries[i].1.clone()));
            i += 1;
        }
        let r = CompoundTag { entries: out };
        assert(r@ =~= self@);
        r
    }
}

/// What a compound has under a name is what its first entry with the name holds, and nothing where
/// no entry has the name.
pub proof fn law_lookup(c: CompoundView, name: Seq<char>)
    ensures
        match lookup(c, name) {
            Some(t) => exists|i: int|
                0 <= i < c.len() && #[trigger] c[i] == (name, t) && forall|j: int|
                    0 <= j < i ==> (#[trigger] c[j]).0 != name,
            None => forall|j: int| 0 <= j < c.len() ==> (#[trigger] c[j]).0 != name,
        },
    decreases c.len(),
{
    if c.len() > 0 {
        let rest = c.skip(1);
        law_lookup(rest, name);
        assert(forall|j: int| 0 < j < c.len() ==> #[trigger] c[j] == rest[j - 1]);
        if c[0].0 == name {
            assert(c[0] == (name, c[0].1));
        } else if let Some(t) = lookup(rest, name) {
            let i = choose|i: int|
                0 <= i < rest.len() && #[trigger] rest[i] == (name, t) && forall|j: int|
                    0 <= j < i ==> (#[trigger] rest[j]).0 != name;
            assert(c[i + 1] == (name, t));
        }
    }
}

/// A number keeps its value whatever the width of its tag, and no other tag is a number. In 32 bits
/// only the low bits of a wider number are left.
pub proof fn law_tag_numbers(a: i8, b: i16, c: i32, d: i64, t: TagView)
    ensures
        tag_i64(TagView::Byte(a)) == Some(a as i64),
        tag_i64(TagView::Short(b)) == Some(b as i64),
        tag_i64(TagView::Int(c)) == Some(c as i64),
        tag_i64(TagView::Long(d)) == Some(d),
        tag_i32(TagView::Byte(a)) == Some(a as i32),
        tag_i32(TagView::Short(b)) == Some(b as i32),
        tag_i32(TagView::Int(c)) == Some(c),
        i32::MIN <= d <= i32::MAX ==> tag_i32(TagView::Long(d)) == Some(d as i32),
        tag_i32(t) is Some <==> tag_i64(t) is Some,
        tag_i64(t) is Some <==> t is Byte || t is Short || t is Int || t is Long,
        tag_real(t) is Some <==> t is Float || t is Double,
{
}

} // verus!
