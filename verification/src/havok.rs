//! Data model of Havok binary tag files: member type tags, member
//! descriptions, object types (with single inheritance), objects and values,
//! each with a mathematical view.
use vstd::prelude::*;
use std::sync::Arc;

verus! {

/// Type tag of an object member: a base type in the low four bits, and the
/// array (0x10) and tuple (0x20) flags above it.
#[derive(Copy, Clone, PartialEq, Eq, Structural)]
pub struct HavokType {
    pub bits: u32,
}

impl HavokType {
    pub const BYTE: u32 = 1;
    pub const INT: u32 = 2;
    pub const REAL: u32 = 3;
    pub const VEC4: u32 = 4;
    pub const VEC8: u32 = 5;
    pub const VEC12: u32 = 6;
    pub const VEC16: u32 = 7;
    pub const OBJECT: u32 = 8;
    pub const STRUCT: u32 = 9;
    pub const STRING: u32 = 10;
    pub const ARRAY: u32 = 0x10;
    pub const TUPLE: u32 = 0x20;

    /// Every bit that a defined flag uses.
    pub const ALL_BITS: u32 = 0x3f;

    /// The base type: the low four bits.
    pub open spec fn spec_base(self) -> u32 {
        self.bits % 16
    }

    pub open spec fn spec_is_array(self) -> bool {
        (self.bits / 16) % 2 == 1
    }

    pub open spec fn spec_is_tuple(self) -> bool {
        (self.bits / 32) % 2 == 1
    }

    pub open spec fn spec_is_vec(self) -> bool {
        4 <= self.spec_base() <= 7
    }

    /// A tag is accepted only when it sets no bit outside the defined flags.
    pub open spec fn spec_from_bits(bits: u32) -> Option<HavokType> {
        if bits <= Self::ALL_BITS {
            Some(HavokType { bits })
        } else {
            None
        }
    }

    pub fn from_bits(bits: u32) -> (r: Option<HavokType>)
        ensures
            r == Self::spec_from_bits(bits),
    {
        if bits & !Self::ALL_BITS == 0 {
            assert(bits & !0x3fu32 == 0 ==> bits <= 0x3f) by (bit_vector);
            Some(HavokType { bits })
        } else {
            assert(bits & !0x3fu32 != 0 ==> bits > 0x3f) by (bit_vector);
            None
        }
    }

    pub fn is_tuple(self) -> (r: bool)
        ensures
            r == self.spec_is_tuple(),
    {
        let b = self.bits;
        assert((b & 0x20u32 != 0) == ((b / 32) % 2 == 1)) by (bit_vector);
        (self.bits & Self::TUPLE) != 0
    }

    pub fn is_array(self) -> (r: bool)
        ensures
            r == self.spec_is_array(),
    {
        let b = self.bits;
        assert((b & 0x10u32 != 0) == ((b / 16) % 2 == 1)) by (bit_vector);
        (self.bits & Self::ARRAY) != 0
    }

    pub fn base_type(self) -> (r: HavokType)
        ensures
            r.bits == self.spec_base(),
    {
        let b = self.bits;
        assert(b & 0x0fu32 == b % 16) by (bit_vector);
        HavokType { bits: self.bits & 0x0f }
    }

    pub fn is_vec(self) -> (r: bool)
        ensures
            r == self.spec_is_vec(),
    {
        let base = self.base_type().bits;
        base == Self::VEC4 || base == Self::VEC8 || base == Self::VEC12 || base == Self::VEC16
    }

    /// Number of components of a vector type (the 12-wide vector is stored as 16).
    pub fn vec_size(self) -> (r: u8)
        requires
            self.spec_is_vec(),
        ensures
            r == (if self.spec_base() == 4 {
                4u8
            } else if self.spec_base() == 5 {
                8u8
            } else {
                16u8
            }),
    {
        let base = self.base_type().bits;
        if base == Self::VEC4 {
            4
        } else if base == Self::VEC8 {
            8
        } else {
            16
        }
    }
}

/// A member value read from a tag file.
pub enum HavokValue {
    Integer(i32),
    Array(Vec<HavokValue>),
    ObjectReference(usize),
}

/// Mathematical view of [`HavokValue`].
pub enum SpecHavokValue {
    Integer(i32),
    Array(Seq<SpecHavokValue>),
    ObjectReference(usize),
}

pub open spec fn values_view(s: Seq<HavokValue>) -> Seq<SpecHavokValue>
    decreases s,
{
    if s.len() == 0 {
        Seq::empty()
    } else {
        values_view(s.drop_last()).push(s.last().spec_view())
    }
}

/// The view of a sequence of values has one item per value.
pub proof fn lemma_values_view(s: Seq<HavokValue>)
    ensures
        values_view(s).len() == s.len(),
        forall|i: int| 0 <= i < s.len() ==> values_view(s)[i] == (#[trigger] s[i]).spec_view(),
    decreases s.len(),
{
    if s.len() > 0 {
        lemma_values_view(s.drop_last());
        assert forall|i: int| 0 <= i < s.len() implies values_view(s)[i] == (
        #[trigger] s[i]).spec_view() by {
            if i < s.len() - 1 {
                assert(s.drop_last()[i] == s[i]);
            }
        }
    }
}

impl HavokValue {
    /// The number held by an integer value.
    pub fn as_int(&self) -> (r: Option<i32>)
        ensures
            r == (match self.spec_view() {
                SpecHavokValue::Integer(i) => Some(i),
                _ => None,
            }),
    {
        match self {
            HavokValue::Integer(i) => Some(*i),
            _ => None,
        }
    }

    /// The items of an array value.
    pub fn as_array(&self) -> (r: Option<&Vec<HavokValue>>)
        ensures
            match r {
                Some(v) => self.spec_view() == SpecHavokValue::Array(values_view(v@)),
                None => !(self.spec_view() is Array),
            },
    {
        match self {
            HavokValue::Array(v) => Some(v),
            _ => None,
        }
    }

    pub open spec fn spec_view(&self) -> SpecHavokValue
        decreases self,
    {
        match self {
            HavokValue::Integer(i) => SpecHavokValue::Integer(*i),
            HavokValue::Array(v) => SpecHavokValue::Array(values_view(v@)),
            HavokValue::ObjectReference(r) => SpecHavokValue::ObjectReference(*r),
        }
    }
}

/// Description of one member of an object type.
pub struct HavokObjectMemberType {
    pub name: Arc<String>,
    pub type_: HavokType,
    pub tuple_size: u32,
    pub class_name: Option<Arc<String>>,
}

/// Mathematical view of [`HavokObjectMemberType`].
pub struct SpecMember {
    pub name: Seq<char>,
    pub type_: HavokType,
    pub tuple_size: u32,
    pub class_name: Option<Seq<char>>,
}

impl HavokObjectMemberType {
    pub open spec fn spec_view(&self) -> SpecMember {
        SpecMember {
            name: self.name@,
            type_: self.type_,
            tuple_size: self.tuple_size,
            class_name: match &self.class_name {
                Some(c) => Some(c@),
                None => None,
            },
        }
    }

    pub fn new(name: Arc<String>, type_: HavokType, tuple_size: u32, class_name_arg: Option<Arc<String>>) -> (r: Self)
        ensures
            r.name == name,
            r.type_ == type_,
            r.tuple_size == tuple_size,
            r.class_name == class_name_arg,
    {
        Self { name, type_, tuple_size, class_name: class_name_arg }
    }
}

/// An object type: a name, a version, an optional parent type whose members
/// come first, and the members it declares itself (in declaration order).
pub struct HavokObjectType {
    name: Arc<String>,
    version: u32,
    parent: Option<Arc<HavokObjectType>>,
    members: Vec<HavokObjectMemberType>,
}

/// Mathematical view of [`HavokObjectType`].
pub struct SpecObjectType {
    pub name: Seq<char>,
    pub version: u32,
    pub parent: Option<Box<SpecObjectType>>,
    pub members: Seq<SpecMember>,
}

pub open spec fn members_view(s: Seq<HavokObjectMemberType>) -> Seq<SpecMember> {
    s.map_values(|m: HavokObjectMemberType| m.spec_view())
}

/// All members of a type: those of its ancestors first, then its own.
pub open spec fn spec_all_members(t: SpecObjectType) -> Seq<SpecMember>
    decreases t,
{
    match t.parent {
        Some(p) => spec_all_members(*p) + t.members,
        None => t.members,
    }
}

/// The member count as the type reports it: the parent's own members and
/// this type's own members (grandparents are not counted).
pub open spec fn spec_member_count(t: SpecObjectType) -> int {
    (match t.parent {
        Some(p) => p.members.len() as int,
        None => 0,
    }) + t.members.len()
}

impl HavokObjectType {
    pub closed spec fn spec_view(&self) -> SpecObjectType
        decreases self,
    {
        SpecObjectType {
            name: self.name@,
            version: self.version,
            parent: match &self.parent {
                Some(p) => Some(Box::new(p.spec_view())),
                None => None,
            },
            members: members_view(self.members@),
        }
    }

    pub fn new(
        name: Arc<String>,
        version: u32,
        parent: Option<Arc<HavokObjectType>>,
        members: Vec<HavokObjectMemberType>,
    ) -> (r: Self)
        ensures
            r.spec_view() == (SpecObjectType {
                name: name@,
                version,
                parent: match parent {
                    Some(p) => Some(Box::new(p.spec_view())),
                    None => None,
                },
                members: members_view(members@),
            }),
    {
        Self { name, version, parent, members }
    }

    pub fn name(&self) -> (r: &Arc<String>)
        ensures
            r@ == self.spec_view().name,
    {
        &self.name
    }

    /// Every member, ancestors' first.
    pub fn members(&self) -> (r: Vec<&HavokObjectMemberType>)
        ensures
            r@.len() == spec_all_members(self.spec_view()).len(),
            forall|i: int|
                0 <= i < r@.len() ==> (#[trigger] r@[i]).spec_view() == spec_all_members(
                    self.spec_view(),
                )[i],
        decreases self,
    {
        let mut result: Vec<&HavokObjectMemberType> = match &self.parent {
            Some(p) => p.members(),
            None => Vec::new(),
        };
        let ghost prefix = match self.spec_view().parent {
            Some(p) => spec_all_members(*p),
            None => Seq::<SpecMember>::empty(),
        };
        let n = self.members.len();
        for i in 0..n
            invariant
                n == self.members@.len(),
                result@.len() == prefix.len() + i,
                forall|j: int|
                    0 <= j < result@.len() ==> (#[trigger] result@[j]).spec_view() == (prefix
                        + members_view(self.members@))[j],
        {
            result.push(&self.members[i]);
        }
        result
    }

    /// The parent's own member count plus this type's own member count.
    pub fn member_count(&self) -> (r: usize)
        requires
            spec_member_count(self.spec_view()) <= usize::MAX,
        ensures
            r == spec_member_count(self.spec_view()),
    {
        let parent_count = match &self.parent {
            Some(p) => {
                assert(p.spec_view().members.len() == p.members@.len());
                p.members.len()
            },
            None => 0,
        };
        assert(self.spec_view().members.len() == self.members@.len());
        parent_count + self.members.len()
    }
}

/// Index of the first member called `name`.
pub open spec fn spec_find_member(ms: Seq<SpecMember>, name: Seq<char>) -> Option<int>
    decreases ms.len(),
{
    if ms.len() == 0 {
        None
    } else {
        match spec_find_member(ms.drop_last(), name) {
            Some(i) => Some(i),
            None => if ms.last().name == name {
                Some(ms.len() - 1)
            } else {
                None
            },
        }
    }
}

/// The value of the first member called `name`, when the object holds one.
pub open spec fn spec_get(o: SpecObject, name: Seq<char>) -> Option<SpecHavokValue> {
    match spec_find_member(spec_all_members(o.object_type), name) {
        Some(i) => if i < o.data.len() {
            Some(o.data[i])
        } else {
            None
        },
        None => None,
    }
}

/// An object: its type and one value per member of the type (ancestors'
/// members first).
pub struct HavokObject {
    object_type: Arc<HavokObjectType>,
    data: Vec<HavokValue>,
}

/// Mathematical view of [`HavokObject`].
pub struct SpecObject {
    pub object_type: SpecObjectType,
    pub data: Seq<SpecHavokValue>,
}

impl HavokObject {
    pub closed spec fn spec_view(&self) -> SpecObject {
        SpecObject { object_type: self.object_type.spec_view(), data: values_view(self.data@) }
    }

    pub fn new(object_type: Arc<HavokObjectType>, data: Vec<HavokValue>) -> (r: Self)
        ensures
            r.spec_view() == (SpecObject {
                object_type: object_type.spec_view(),
                data: values_view(data@),
            }),
    {
        Self { object_type, data }
    }

    /// The value of the first member called `name`.
    pub fn get(&self, name: &String) -> (r: Option<&HavokValue>)
        ensures
            match r {
                Some(v) => spec_get(self.spec_view(), name@) == Some(v.spec_view()),
                None => spec_get(self.spec_view(), name@) is None,
            },
    {
        let members = self.object_type.members();
        let ghost ms = spec_all_members(self.object_type.spec_view());
        let mut i: usize = 0;
        while i < members.len()
            invariant
                i <= members@.len(),
                members@.len() == ms.len(),
                forall|j: int| 0 <= j < members@.len() ==> (#[trigger] members@[j]).spec_view() == ms[j],
                spec_find_member(ms.subrange(0, i as int), name@) is None,
                ms == spec_all_members(self.spec_view().object_type),
            decreases members@.len() - i,
        {
            assert(ms.subrange(0, i + 1).drop_last() =~= ms.subrange(0, i as int));
            if *members[i].name == *name {
                assert(spec_find_member(ms.subrange(0, i + 1), name@) == Some(i as int));
                proof {
                    lemma_find_member_prefix(ms, name@, i + 1);
                }
                proof {
                    lemma_values_view(self.data@);
                }
                if i < self.data.len() {
                    return Some(&self.data[i]);
                }
                return None;
            }
            i += 1;
        }
        assert(ms.subrange(0, i as int) =~= ms);
        proof {
            lemma_values_view(self.data@);
        }
        None
    }
}

/// A member found in a prefix is the first one of the whole sequence too.
proof fn lemma_find_member_prefix(ms: Seq<SpecMember>, name: Seq<char>, k: int)
    requires
        0 <= k <= ms.len(),
        spec_find_member(ms.subrange(0, k), name) is Some,
    ensures
        spec_find_member(ms, name) == spec_find_member(ms.subrange(0, k), name),
    decreases ms.len() - k,
{
    if k < ms.len() {
        assert(ms.subrange(0, k + 1).drop_last() =~= ms.subrange(0, k));
        lemma_find_member_prefix(ms, name, k + 1);
    } else {
        assert(ms.subrange(0, k) =~= ms);
    }
}

} // verus!
