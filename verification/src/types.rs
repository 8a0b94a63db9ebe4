//! C types: descriptions, interning, and struct/union layout.

use vstd::prelude::*;
use crate::ids::{FieldId, TypeId};
use crate::text::{strings_eq, string_is};

verus! {

/// Structure of a C type.
#[derive(Debug)]
pub enum TypeDesc {
    Void,
    Char,
    Int,
    Long,
    SizeT,
    Unknown,
    Ptr(Box<TypeDesc>),
    Array { elem: Box<TypeDesc>, size: Option<u64> },
    Struct { name: String, fields: Vec<(String, TypeDesc)> },
    Union { name: String, fields: Vec<(String, TypeDesc)> },
    FnPtr { ret: Box<TypeDesc>, params: Vec<TypeDesc> },
}

/// Structural equality of type descriptions (names compared by spelling).
pub open spec fn desc_same(a: TypeDesc, b: TypeDesc) -> bool
    decreases a,
{
    match a {
        TypeDesc::Void => b is Void,
        TypeDesc::Char => b is Char,
        TypeDesc::Int => b is Int,
        TypeDesc::Long => b is Long,
        TypeDesc::SizeT => b is SizeT,
        TypeDesc::Unknown => b is Unknown,
        TypeDesc::Ptr(x) => match b {
            TypeDesc::Ptr(y) => desc_same(*x, *y),
            _ => false,
        },
        TypeDesc::Array { elem, size } => match b {
            TypeDesc::Array { elem: e2, size: s2 } => size == s2 && desc_same(*elem, *e2),
            _ => false,
        },
        TypeDesc::Struct { name, fields } => match b {
            TypeDesc::Struct { name: n2, fields: f2 } => name@ == n2@ && fields@.len() == f2@.len()
                && forall|k: int| 0 <= k < fields@.len() ==> (#[trigger] fields@[k]).0@ == f2@[k].0@
                    && desc_same(fields@[k].1, f2@[k].1),
            _ => false,
        },
        TypeDesc::Union { name, fields } => match b {
            TypeDesc::Union { name: n2, fields: f2 } => name@ == n2@ && fields@.len() == f2@.len()
                && forall|k: int| 0 <= k < fields@.len() ==> (#[trigger] fields@[k]).0@ == f2@[k].0@
                    && desc_same(fields@[k].1, f2@[k].1),
            _ => false,
        },
        TypeDesc::FnPtr { ret, params } => match b {
            TypeDesc::FnPtr { ret: r2, params: p2 } => desc_same(*ret, *r2) && params@.len() == p2@.len()
                && forall|k: int| 0 <= k < params@.len() ==> desc_same(#[trigger] params@[k], p2@[k]),
            _ => false,
        },
    }
}


/// `desc_same` is reflexive.
pub proof fn lemma_desc_same_refl(a: TypeDesc)
    ensures
        desc_same(a, a),
    decreases a,
{
    match a {
        TypeDesc::Ptr(x) => lemma_desc_same_refl(*x),
        TypeDesc::Array { elem, size } => lemma_desc_same_refl(*elem),
        TypeDesc::Struct { name, fields } => {
            assert forall|k: int| 0 <= k < fields@.len() implies (#[trigger] fields@[k]).0@ == fields@[k].0@
                && desc_same(fields@[k].1, fields@[k].1) by {
                lemma_desc_same_refl(fields@[k].1);
            }
        },
        TypeDesc::Union { name, fields } => {
            assert forall|k: int| 0 <= k < fields@.len() implies (#[trigger] fields@[k]).0@ == fields@[k].0@
                && desc_same(fields@[k].1, fields@[k].1) by {
                lemma_desc_same_refl(fields@[k].1);
            }
        },
        TypeDesc::FnPtr { ret, params } => {
            lemma_desc_same_refl(*ret);
            assert forall|k: int| 0 <= k < params@.len() implies desc_same(#[trigger] params@[k], params@[k]) by {
                lemma_desc_same_refl(params@[k]);
            }
        },
        _ => {},
    }
}

/// Structural equality of two type descriptions.
pub fn desc_eq(a: &TypeDesc, b: &TypeDesc) -> (r: bool)
    ensures
        r == desc_same(*a, *b),
    decreases a, 1nat,
{
    match a {
        TypeDesc::Void => matches!(b, TypeDesc::Void),
        TypeDesc::Char => matches!(b, TypeDesc::Char),
        TypeDesc::Int => matches!(b, TypeDesc::Int),
        TypeDesc::Long => matches!(b, TypeDesc::Long),
        TypeDesc::SizeT => matches!(b, TypeDesc::SizeT),
        TypeDesc::Unknown => matches!(b, TypeDesc::Unknown),
        TypeDesc::Ptr(x) => match b {
            TypeDesc::Ptr(y) => desc_eq(x, y),
            _ => false,
        },
        TypeDesc::Array { elem, size } => match b {
            TypeDesc::Array { elem: e2, size: s2 } => {
                let same_size = match (size, s2) {
                    (Some(p), Some(q)) => *p == *q,
                    (None, None) => true,
                    _ => false,
                };
                same_size && desc_eq(elem, e2)
            },
            _ => false,
        },
        TypeDesc::Struct { name, fields } => match b {
            TypeDesc::Struct { name: n2, fields: f2 } => strings_eq(name, n2) && fields_eq(a, fields, f2),
            _ => false,
        },
        TypeDesc::Union { name, fields } => match b {
            TypeDesc::Union { name: n2, fields: f2 } => strings_eq(name, n2) && fields_eq(a, fields, f2),
            _ => false,
        },
        TypeDesc::FnPtr { ret, params } => match b {
            TypeDesc::FnPtr { ret: r2, params: p2 } => desc_eq(ret, r2) && params_eq(a, params, p2),
            _ => false,
        },
    }
}

/// Field lists with the same names and structurally equal types.
fn fields_eq(outer: &TypeDesc, fields: &Vec<(String, TypeDesc)>, f2: &Vec<(String, TypeDesc)>) -> (r: bool)
    requires
        (outer matches TypeDesc::Struct { fields: f, .. } && f == *fields)
            || (outer matches TypeDesc::Union { fields: f, .. } && f == *fields),
    ensures
        r == (fields@.len() == f2@.len() && forall|k: int| 0 <= k < fields@.len() ==> (#[trigger] fields@[k]).0@ == f2@[k].0@
            && desc_same(fields@[k].1, f2@[k].1)),
    decreases outer, 0nat,
{
    if fields.len() != f2.len() {
        return false;
    }
    let mut k: usize = 0;
    while k < fields.len()
        invariant
            fields@.len() == f2@.len(),
            k <= fields@.len(),
            (outer matches TypeDesc::Struct { fields: f, .. } && f == *fields)
                || (outer matches TypeDesc::Union { fields: f, .. } && f == *fields),
            forall|j: int| 0 <= j < k ==> (#[trigger] fields@[j]).0@ == f2@[j].0@ && desc_same(fields@[j].1, f2@[j].1),
        decreases fields@.len() - k,
    {
        if !strings_eq(&fields[k].0, &f2[k].0) {
            return false;
        }
        proof { vstd::std_specs::vec::axiom_vec_index_decreases(*fields, k as int); }
        if !desc_eq(&fields[k].1, &f2[k].1) {
            return false;
        }
        k = k + 1;
    }
    true
}

/// Parameter lists with structurally equal types.
fn params_eq(outer: &TypeDesc, params: &Vec<TypeDesc>, p2: &Vec<TypeDesc>) -> (r: bool)
    requires
        outer matches TypeDesc::FnPtr { params: p, .. } && p == *params,
    ensures
        r == (params@.len() == p2@.len() && forall|k: int| 0 <= k < params@.len() ==> desc_same(#[trigger] params@[k], p2@[k])),
    decreases outer, 0nat,
{
    if params.len() != p2.len() {
        return false;
    }
    let mut k: usize = 0;
    while k < params.len()
        invariant
            params@.len() == p2@.len(),
            k <= params@.len(),
            outer matches TypeDesc::FnPtr { params: p, .. } && p == *params,
            forall|j: int| 0 <= j < k ==> desc_same(#[trigger] params@[j], p2@[j]),
        decreases params@.len() - k,
    {
        proof { vstd::std_specs::vec::axiom_vec_index_decreases(*params, k as int); }
        if !desc_eq(&params[k], &p2[k]) {
            return false;
        }
        k = k + 1;
    }
    true
}


impl TypeDesc {
    /// Pointer or function pointer.
    pub fn is_pointer_like(&self) -> (r: bool)
        ensures
            r == (self is Ptr || self is FnPtr),
    {
        match self {
            TypeDesc::Ptr(_) => true,
            TypeDesc::FnPtr { .. } => true,
            _ => false,
        }
    }

    /// The pointed-to type of a data pointer.
    pub fn pointee(&self) -> (r: Option<&TypeDesc>)
        ensures
            match *self {
                TypeDesc::Ptr(inner) => r == Some(&*inner),
                _ => r is None,
            },
    {
        match self {
            TypeDesc::Ptr(inner) => Some(&**inner),
            _ => None,
        }
    }

    /// A structurally equal copy.
    pub fn duplicate(&self) -> (r: TypeDesc)
        ensures
            desc_same(r, *self),
            desc_same(*self, r),
        decreases self, 1nat,
    {
        proof { lemma_desc_same_refl(*self); }
        match self {
            TypeDesc::Void => TypeDesc::Void,
            TypeDesc::Char => TypeDesc::Char,
            TypeDesc::Int => TypeDesc::Int,
            TypeDesc::Long => TypeDesc::Long,
            TypeDesc::SizeT => TypeDesc::SizeT,
            TypeDesc::Unknown => TypeDesc::Unknown,
            TypeDesc::Ptr(x) => TypeDesc::Ptr(Box::new(x.duplicate())),
            TypeDesc::Array { elem, size } => TypeDesc::Array { elem: Box::new(elem.duplicate()), size: *size },
            TypeDesc::Struct { name, fields } => {
                let f = dup_fields(self, fields);
                let r = TypeDesc::Struct { name: name.clone(), fields: f };
                r
            },
            TypeDesc::Union { name, fields } => {
                let f = dup_fields(self, fields);
                TypeDesc::Union { name: name.clone(), fields: f }
            },
            TypeDesc::FnPtr { ret, params } => {
                let mut ps: Vec<TypeDesc> = Vec::new();
                let mut k: usize = 0;
                while k < params.len()
                    invariant
                        k <= params@.len(),
                        ps@.len() == k,
                        *self matches TypeDesc::FnPtr { params: p, .. } && p == *params,
                        forall|j: int| 0 <= j < k ==> desc_same(#[trigger] ps@[j], params@[j]) && desc_same(params@[j], ps@[j]),
                    decreases params@.len() - k,
                {
                    proof { vstd::std_specs::vec::axiom_vec_index_decreases(*params, k as int); }
                    ps.push(params[k].duplicate());
                    k = k + 1;
                }
                TypeDesc::FnPtr { ret: Box::new(ret.duplicate()), params: ps }
            },
        }
    }
}

/// Copy of a field list with structurally equal types.
fn dup_fields(outer: &TypeDesc, fields: &Vec<(String, TypeDesc)>) -> (r: Vec<(String, TypeDesc)>)
    requires
        (outer matches TypeDesc::Struct { fields: f, .. } && f == *fields)
            || (outer matches TypeDesc::Union { fields: f, .. } && f == *fields),
    ensures
        r@.len() == fields@.len(),
        forall|k: int| 0 <= k < r@.len() ==> (#[trigger] r@[k]).0@ == fields@[k].0@ && desc_same(r@[k].1, fields@[k].1)
            && desc_same(fields@[k].1, r@[k].1),
    decreases outer, 0nat,
{
    let mut out: Vec<(String, TypeDesc)> = Vec::new();
    let mut k: usize = 0;
    while k < fields.len()
        invariant
            k <= fields@.len(),
            out@.len() == k,
            (outer matches TypeDesc::Struct { fields: f, .. } && f == *fields)
                || (outer matches TypeDesc::Union { fields: f, .. } && f == *fields),
            forall|j: int| 0 <= j < k ==> (#[trigger] out@[j]).0@ == fields@[j].0@ && desc_same(out@[j].1, fields@[j].1)
                && desc_same(fields@[j].1, out@[j].1),
        decreases fields@.len() - k,
    {
        proof { vstd::std_specs::vec::axiom_vec_index_decreases(*fields, k as int); }
        let d = fields[k].1.duplicate();
        out.push((fields[k].0.clone(), d));
        k = k + 1;
    }
    out
}

#[derive(Debug, Clone, Copy, PartialEq, Eq, Hash, Structural)]
pub enum TypeKind {
    Void,
    Char,
    Int,
    Long,
    SizeT,
    Unknown,
    Ptr,
    Array,
    Struct,
    Union,
    FnPtr,
}

/// One field of a struct or union layout.
#[derive(Debug, Clone)]
pub struct FieldLayout {
    pub name: String,
    pub offset: u64,
    pub size: u64,
    pub type_id: TypeId,
}

/// Field layouts; field `FieldId(k)` is at position `k`.
#[derive(Debug)]
pub struct TypeLayout {
    pub fields: Vec<FieldLayout>,
}

/// An interned type with its size, alignment and layout.
#[derive(Debug)]
pub struct TypeInfo {
    pub id: TypeId,
    pub desc: TypeDesc,
    pub size: u64,
    pub align: u64,
    pub layout: TypeLayout,
}

/// Interned types; a type's id is its position.
#[derive(Debug)]
pub struct TypeTable {
    pub types: Vec<TypeInfo>,
}

/// Whether `desc` is the struct (or union) tagged `name`.
pub open spec fn tag_matches(desc: TypeDesc, name: Seq<char>, kind: TypeKind) -> bool {
    match desc {
        TypeDesc::Struct { name: n, .. } => kind == TypeKind::Struct && n@ == name,
        TypeDesc::Union { name: n, .. } => kind == TypeKind::Union && n@ == name,
        _ => false,
    }
}

/// Whether `desc` is the struct (or union) tagged `name`.
pub fn tag_name_matches(desc: &TypeDesc, name: &str, kind: TypeKind) -> (r: bool)
    ensures
        r == tag_matches(*desc, name@, kind),
{
    match desc {
        TypeDesc::Struct { name: n, .. } => kind == TypeKind::Struct && string_is(n, name),
        TypeDesc::Union { name: n, .. } => kind == TypeKind::Union && string_is(n, name),
        _ => false,
    }
}

/// Smallest multiple of `align` at or above `value` (modulo 2^64); `value`
/// itself when `align` is 0.
pub open spec fn aligned(value: u64, align: u64) -> int {
    if align == 0 {
        value as int
    } else {
        (((value as int + align - 1) / align as int) * align) % 0x1_0000_0000_0000_0000
    }
}

/// Rounds `value` up to a multiple of `align`.
pub fn align_up(value: u64, align: u64) -> (r: u64)
    ensures
        r as int == aligned(value, align),
{
    if align == 0 {
        return value;
    }
    let q = value / align;
    let rem = value % align;
    assert(rem != 0 ==> q < u64::MAX) by (nonlinear_arith)
        requires
            align > 0,
            q == value / align,
            rem == value % align,
            value <= u64::MAX,
    ;
    let c: u64 = if rem == 0 { q } else { q + 1 };
    proof {
        assert(c as int == (value as int + align - 1) / align as int) by (nonlinear_arith)
            requires
                align > 0,
                q == value / align,
                rem == value % align,
                c == (if rem == 0 { q } else { (q + 1) as u64 }),
                q + 1 <= u64::MAX || rem == 0,
        ;
    }
    c.wrapping_mul(align)
}


/// Number of fields a type description lists.
pub open spec fn desc_field_count(d: TypeDesc) -> nat {
    match d {
        TypeDesc::Struct { fields, .. } => fields@.len(),
        TypeDesc::Union { fields, .. } => fields@.len(),
        _ => 0,
    }
}

/// Key by which the most complete same-tag type is chosen.
pub open spec fn completeness(t: TypeInfo) -> nat {
    let a = t.layout.fields@.len();
    let b = desc_field_count(t.desc);
    if a >= b { a } else { b }
}

/// The table's invariant: ids are positions, the six scalar types come
/// first, and every field's type is in the table.
pub open spec fn table_wf(t: TypeTable) -> bool {
    &&& 6 <= t.types@.len() <= u32::MAX
    &&& forall|k: int| 0 <= k < t.types@.len() ==> (#[trigger] t.types@[k]).id.0 == k
    &&& t.types@[0].desc is Void
    &&& t.types@[1].desc is Char
    &&& t.types@[2].desc is Int
    &&& t.types@[3].desc is Long
    &&& t.types@[4].desc is SizeT
    &&& t.types@[5].desc is Unknown
    &&& forall|k: int, f: int| 0 <= k < t.types@.len() && 0 <= f < t.types@[k].layout.fields@.len()
        ==> (#[trigger] t.types@[k].layout.fields@[f]).type_id.0 < t.types@.len()
}

/// `new` extends `old`: every type of `old` is kept at its position.
pub open spec fn table_grows(old: TypeTable, new: TypeTable) -> bool {
    &&& old.types@.len() <= new.types@.len()
    &&& forall|k: int| 0 <= k < old.types@.len() ==> #[trigger] new.types@[k] == old.types@[k]
}

/// Position of the first type structurally equal to `d`, or -1.
pub open spec fn desc_index(types: Seq<TypeInfo>, d: TypeDesc) -> int
    decreases types.len(),
{
    if types.len() == 0 {
        -1
    } else if desc_index(types.drop_last(), d) >= 0 {
        desc_index(types.drop_last(), d)
    } else if desc_same(types.last().desc, d) {
        types.len() - 1
    } else {
        -1
    }
}

pub proof fn lemma_desc_index(types: Seq<TypeInfo>, d: TypeDesc)
    ensures
        -1 <= desc_index(types, d) < types.len(),
        desc_index(types, d) >= 0 ==> desc_same(types[desc_index(types, d)].desc, d),
        desc_index(types, d) >= 0 ==> forall|k: int| 0 <= k < desc_index(types, d) ==> !desc_same(#[trigger] types[k].desc, d),
        desc_index(types, d) == -1 ==> forall|k: int| 0 <= k < types.len() ==> !desc_same(#[trigger] types[k].desc, d),
    decreases types.len(),
{
    if types.len() > 0 {
        lemma_desc_index(types.drop_last(), d);
        assert forall|k: int| 0 <= k < types.len() - 1 implies #[trigger] types[k] == types.drop_last()[k] by {}
    }
}

/// The type with tag `name` that `type_id_by_tag` picks: among the
/// matching types one of greatest completeness, the last such on ties.
pub open spec fn is_tag_pick(types: Seq<TypeInfo>, name: Seq<char>, kind: TypeKind, k: int) -> bool {
    &&& 0 <= k < types.len()
    &&& tag_matches(types[k].desc, name, kind)
    &&& forall|j: int| 0 <= j < types.len() && tag_matches(#[trigger] types[j].desc, name, kind)
        ==> completeness(types[j]) <= completeness(types[k])
    &&& forall|j: int| k < j < types.len() && tag_matches(#[trigger] types[j].desc, name, kind)
        ==> completeness(types[j]) < completeness(types[k])
}

/// Whether a description only names a struct or union by its tag.
pub open spec fn is_tag_ref(d: TypeDesc) -> Option<(Seq<char>, TypeKind)> {
    match d {
        TypeDesc::Struct { name, fields } => if fields@.len() == 0 && name@.len() > 0 {
            Some((name@, TypeKind::Struct))
        } else {
            None
        },
        TypeDesc::Union { name, fields } => if fields@.len() == 0 && name@.len() > 0 {
            Some((name@, TypeKind::Union))
        } else {
            None
        },
        _ => None,
    }
}

/// Fields' count in a description (exec).
fn field_count(d: &TypeDesc) -> (r: usize)
    ensures
        r == desc_field_count(*d),
{
    match d {
        TypeDesc::Struct { fields, .. } => fields.len(),
        TypeDesc::Union { fields, .. } => fields.len(),
        _ => 0,
    }
}

impl TypeTable {
    /// A table holding the six scalar types (ids 0 to 5).
    pub fn new() -> (t: TypeTable)
        ensures
            table_wf(t),
            t.types@.len() == 6,
    {
        let mut types: Vec<TypeInfo> = Vec::new();
        types.push(TypeInfo { id: TypeId(0), desc: TypeDesc::Void, size: 0, align: 1, layout: TypeLayout { fields: Vec::new() } });
        types.push(TypeInfo { id: TypeId(1), desc: TypeDesc::Char, size: 1, align: 1, layout: TypeLayout { fields: Vec::new() } });
        types.push(TypeInfo { id: TypeId(2), desc: TypeDesc::Int, size: 4, align: 4, layout: TypeLayout { fields: Vec::new() } });
        types.push(TypeInfo { id: TypeId(3), desc: TypeDesc::Long, size: 8, align: 8, layout: TypeLayout { fields: Vec::new() } });
        types.push(TypeInfo { id: TypeId(4), desc: TypeDesc::SizeT, size: 8, align: 8, layout: TypeLayout { fields: Vec::new() } });
        types.push(TypeInfo { id: TypeId(5), desc: TypeDesc::Unknown, size: 8, align: 8, layout: TypeLayout { fields: Vec::new() } });
        TypeTable { types }
    }

    /// The type with id `id`.
    pub fn get(&self, id: TypeId) -> (r: &TypeInfo)
        requires
            (id.0 as int) < self.types@.len(),
        ensures
            *r == self.types@[id.0 as int],
    {
        &self.types[id.0 as usize]
    }

    pub fn void(&self) -> (r: TypeId)
        ensures
            r == TypeId(0),
    {
        TypeId(0)
    }

    pub fn int_type(&self) -> (r: TypeId)
        ensures
            r == TypeId(2),
    {
        TypeId(2)
    }

    /// All types, by id.
    pub fn all(&self) -> (r: &[TypeInfo])
        ensures
            r@ == self.types@,
    {
        self.types.as_slice()
    }

    /// Id of the first type structurally equal to `d`.
    fn find_desc(&self, d: &TypeDesc) -> (r: Option<TypeId>)
        requires
            table_wf(*self),
        ensures
            match r {
                Some(id) => id.0 as int == desc_index(self.types@, *d),
                None => desc_index(self.types@, *d) == -1,
            },
    {
        proof { lemma_desc_index(self.types@, *d); }
        let mut k: usize = 0;
        while k < self.types.len()
            invariant
                k <= self.types@.len(),
                table_wf(*self),
                forall|j: int| 0 <= j < k ==> !desc_same(#[trigger] self.types@[j].desc, *d),
            decreases self.types@.len() - k,
        {
            if desc_eq(&self.types[k].desc, d) {
                proof {
                    lemma_desc_index(self.types@, *d);
                    let fi = desc_index(self.types@, *d);
                    if fi == -1 {
                        assert(desc_same(self.types@[k as int].desc, *d));
                    } else if fi < k {
                        assert(desc_same(self.types@[fi].desc, *d));
                    }
                }
                return Some(self.types[k].id);
            }
            k = k + 1;
        }
        None
    }

    /// The most complete struct (or union) tagged `name`; the last such on ties.
    pub fn type_id_by_tag(&self, name: &str, kind: TypeKind) -> (r: Option<TypeId>)
        requires
            table_wf(*self),
        ensures
            match r {
                Some(id) => is_tag_pick(self.types@, name@, kind, id.0 as int),
                None => forall|j: int| 0 <= j < self.types@.len() ==> !tag_matches(#[trigger] self.types@[j].desc, name@, kind),
            },
    {
        let mut best: Option<usize> = None;
        let mut best_key: usize = 0;
        let mut k: usize = 0;
        while k < self.types.len()
            invariant
                k <= self.types@.len(),
                table_wf(*self),
                match best {
                    Some(b) => b < k && tag_matches(self.types@[b as int].desc, name@, kind)
                        && best_key == completeness(self.types@[b as int])
                        && (forall|j: int| 0 <= j < k && tag_matches(#[trigger] self.types@[j].desc, name@, kind)
                            ==> completeness(self.types@[j]) <= best_key)
                        && (forall|j: int| b < j < k && tag_matches(#[trigger] self.types@[j].desc, name@, kind)
                            ==> completeness(self.types@[j]) < best_key),
                    None => forall|j: int| 0 <= j < k ==> !tag_matches(#[trigger] self.types@[j].desc, name@, kind),
                },
            decreases self.types@.len() - k,
        {
            if tag_name_matches(&self.types[k].desc, name, kind) {
                let a = self.types[k].layout.fields.len();
                let b = field_count(&self.types[k].desc);
                let key = if a >= b { a } else { b };
                let take = match best {
                    None => true,
                    Some(_) => key >= best_key,
                };
                if take {
                    best = Some(k);
                    best_key = key;
                }
            }
            k = k + 1;
        }
        match best {
            Some(b) => Some(self.types[b].id),
            None => None,
        }
    }

    /// For a bare `struct T` / `union T` reference: the table's type for
    /// that tag.
    fn lookup_tag_ref(&self, desc: &TypeDesc) -> (r: Option<TypeId>)
        requires
            table_wf(*self),
        ensures
            match is_tag_ref(*desc) {
                Some(nk) => match r {
                    Some(id) => is_tag_pick(self.types@, nk.0, nk.1, id.0 as int),
                    None => forall|j: int| 0 <= j < self.types@.len() ==> !tag_matches(#[trigger] self.types@[j].desc, nk.0, nk.1),
                },
                None => r is None,
            },
    {
        match desc {
            TypeDesc::Struct { name, fields } => {
                if fields.len() == 0 && !name.as_str().is_empty() {
                    self.type_id_by_tag(name.as_str(), TypeKind::Struct)
                } else {
                    None
                }
            },
            TypeDesc::Union { name, fields } => {
                if fields.len() == 0 && !name.as_str().is_empty() {
                    self.type_id_by_tag(name.as_str(), TypeKind::Union)
                } else {
                    None
                }
            },
            _ => None,
        }
    }
}


/// Wrapping sum of two sizes.
pub open spec fn wadd(a: u64, b: u64) -> u64 {
    vstd::wrapping::u64_specs::wrapping_add(a, b)
}

/// Wrapping product of two sizes.
pub open spec fn wmul(a: u64, b: u64) -> u64 {
    vstd::wrapping::u64_specs::wrapping_mul(a, b)
}

/// Size and alignment of a type, as laid out here.
pub open spec fn layout_of(d: TypeDesc) -> (u64, u64)
    decreases d, 1nat, 0nat,
{
    match d {
        TypeDesc::Void => (0, 1),
        TypeDesc::Char => (1, 1),
        TypeDesc::Int => (4, 4),
        TypeDesc::Long => (8, 8),
        TypeDesc::SizeT => (8, 8),
        TypeDesc::Unknown => (8, 8),
        TypeDesc::Ptr(_) => (8, 8),
        TypeDesc::FnPtr { .. } => (8, 8),
        TypeDesc::Array { elem, size } => {
            let e = layout_of(*elem);
            let count: u64 = match size {
                Some(n) => n,
                None => 0,
            };
            (wmul(e.0, count), e.1)
        },
        TypeDesc::Struct { fields, .. } => {
            let f = fields_fold(d, fields@.len());
            (aligned(f.2, f.1) as u64, f.1)
        },
        TypeDesc::Union { fields, .. } => {
            let f = fields_fold(d, fields@.len());
            (aligned(f.2, f.1) as u64, f.1)
        },
    }
}

/// The fields of a struct or union description.
pub open spec fn desc_fields(d: TypeDesc) -> Seq<(String, TypeDesc)> {
    match d {
        TypeDesc::Struct { fields, .. } => fields@,
        TypeDesc::Union { fields, .. } => fields@,
        _ => Seq::empty(),
    }
}

/// Running (next offset, greatest alignment, extent) after laying out the
/// first `n` fields of `outer`.
pub open spec fn fields_fold(outer: TypeDesc, n: nat) -> (u64, u64, u64)
    decreases outer, 0nat, n,
{
    match outer {
        TypeDesc::Struct { fields, .. } => if n == 0 || n > fields@.len() {
            (0, 1, 0)
        } else {
            let prev = fields_fold(outer, (n - 1) as nat);
            proof { vstd::std_specs::vec::axiom_vec_index_decreases(fields, n - 1); }
            let fl = layout_of(fields@[n - 1].1);
            fold_step(prev, fl)
        },
        TypeDesc::Union { fields, .. } => if n == 0 || n > fields@.len() {
            (0, 1, 0)
        } else {
            let prev = fields_fold(outer, (n - 1) as nat);
            proof { vstd::std_specs::vec::axiom_vec_index_decreases(fields, n - 1); }
            let fl = layout_of(fields@[n - 1].1);
            fold_step(prev, fl)
        },
        _ => (0, 1, 0),
    }
}

/// One field placed after `prev`: aligned to its own alignment.
pub open spec fn fold_step(prev: (u64, u64, u64), fl: (u64, u64)) -> (u64, u64, u64) {
    let max_align: u64 = if prev.1 >= fl.1 { prev.1 } else { fl.1 };
    let off = aligned(prev.0, fl.1) as u64;
    let next = wadd(off, fl.0);
    let total: u64 = if prev.2 >= next { prev.2 } else { next };
    (next, max_align, total)
}


/// `id` names a type of `types` that stands for `d`: one structurally
/// equal to it, or, for a bare tag reference, a type with that tag.
pub open spec fn represents(types: Seq<TypeInfo>, id: TypeId, d: TypeDesc) -> bool {
    &&& (id.0 as int) < types.len()
    &&& (desc_same(types[id.0 as int].desc, d) || match is_tag_ref(d) {
        Some(nk) => tag_matches(types[id.0 as int].desc, nk.0, nk.1),
        None => false,
    })
}

/// What interning `d` gives: the type standing for it, or the Unknown type
/// once the table holds as many types as ids can number.
pub open spec fn interned_as(types: Seq<TypeInfo>, id: TypeId, d: TypeDesc) -> bool {
    represents(types, id, d) || (id == TypeId(5) && types.len() == u32::MAX)
}

/// Offset of field `k` of a struct or union.
pub open spec fn field_offset(d: TypeDesc, k: int) -> u64 {
    aligned(fields_fold(d, k as nat).0, layout_of(desc_fields(d)[k].1).1) as u64
}

/// `size`, `align` and `layout` are the layout of `d`, with each field's
/// type interned in `types`.
pub open spec fn layout_matches(types: Seq<TypeInfo>, size: u64, align: u64, layout: TypeLayout, d: TypeDesc) -> bool {
    &&& (size, align) == layout_of(d)
    &&& layout.fields@.len() == desc_fields(d).len()
    &&& forall|k: int| 0 <= k < layout.fields@.len() ==> {
        &&& (#[trigger] layout.fields@[k]).name@ == desc_fields(d)[k].0@
        &&& layout.fields@[k].offset == field_offset(d, k)
        &&& layout.fields@[k].size == layout_of(desc_fields(d)[k].1).0
        &&& interned_as(types, layout.fields@[k].type_id, desc_fields(d)[k].1)
    }
}

/// Whether some type of `types` carries the tag that `d` refers to.
pub open spec fn tag_known(types: Seq<TypeInfo>, d: TypeDesc) -> bool {
    match is_tag_ref(d) {
        Some(nk) => exists|j: int| 0 <= j < types.len() && tag_matches(#[trigger] types[j].desc, nk.0, nk.1),
        None => false,
    }
}

/// Interning `d` in a table holding `old` returned `r` and left `new`.
pub open spec fn intern_outcome(old: Seq<TypeInfo>, d: TypeDesc, r: TypeId, new: Seq<TypeInfo>) -> bool {
    if tag_known(old, d) {
        &&& new == old
        &&& is_tag_pick(old, is_tag_ref(d).unwrap().0, is_tag_ref(d).unwrap().1, r.0 as int)
    } else if desc_index(old, d) >= 0 {
        &&& new == old
        &&& r.0 as int == desc_index(old, d)
    } else {
        ||| {
            &&& r.0 as int == new.len() - 1
            &&& desc_same(new[r.0 as int].desc, d)
            &&& new[r.0 as int].id == r
            &&& layout_matches(new, new[r.0 as int].size, new[r.0 as int].align, new[r.0 as int].layout, d)
            &&& added_smaller(old, new.drop_last(), desc_size(d))
        }
        ||| (r == TypeId(5) && new.len() == u32::MAX)
    }
}

/// Every type that `new` holds beyond `old` has fewer than `n` nodes.
pub open spec fn added_smaller(old: Seq<TypeInfo>, new: Seq<TypeInfo>, n: nat) -> bool {
    forall|k: int| old.len() <= k < new.len() ==> desc_size(#[trigger] new[k].desc) < n
}

/// Interned types persist as the table grows.
pub proof fn lemma_interned_grows(a: TypeTable, b: TypeTable, id: TypeId, d: TypeDesc)
    requires
        table_grows(a, b),
        table_wf(b),
        interned_as(a.types@, id, d),
    ensures
        interned_as(b.types@, id, d),
{
    if represents(a.types@, id, d) {
        assert(b.types@[id.0 as int] == a.types@[id.0 as int]);
    }
}

/// A layout stays matched as the table grows.
proof fn lemma_layout_grows(a: TypeTable, b: TypeTable, size: u64, align: u64, layout: TypeLayout, d: TypeDesc)
    requires
        table_grows(a, b),
        table_wf(b),
        layout_matches(a.types@, size, align, layout, d),
    ensures
        layout_matches(b.types@, size, align, layout, d),
{
    assert forall|k: int| 0 <= k < layout.fields@.len() implies
        interned_as(b.types@, (#[trigger] layout.fields@[k]).type_id, desc_fields(d)[k].1) by {
        lemma_interned_grows(a, b, layout.fields@[k].type_id, desc_fields(d)[k].1);
    }
}

impl TypeTable {
    /// Interns `desc`: a bare `struct T` / `union T` resolves to the most
    /// complete type with that tag; a description already in the table gives
    /// its id; otherwise the type is laid out (interning its field types
    /// first) and appended.
    pub fn intern(&mut self, desc: TypeDesc) -> (r: TypeId)
        requires
            table_wf(*old(self)),
        ensures
            table_wf(*final(self)),
            table_grows(*old(self), *final(self)),
            interned_as(final(self).types@, r, desc),
            intern_outcome(old(self).types@, desc, r, final(self).types@),
            added_smaller(old(self).types@, final(self).types@, desc_size(desc) + 1),
    {
        self.intern_ref(&desc)
    }

    fn intern_ref(&mut self, desc: &TypeDesc) -> (r: TypeId)
        requires
            table_wf(*old(self)),
        ensures
            table_wf(*final(self)),
            table_grows(*old(self), *final(self)),
            interned_as(final(self).types@, r, *desc),
            intern_outcome(old(self).types@, *desc, r, final(self).types@),
            added_smaller(old(self).types@, final(self).types@, desc_size(*desc) + 1),
        decreases desc, 2nat,
    {
        let looked = self.lookup_tag_ref(desc);
        if let Some(id) = looked {
            return id;
        }
        let found = self.find_desc(desc);
        if let Some(id) = found {
            proof { lemma_desc_index(self.types@, *desc); }
            return id;
        }
        let ghost before = *self;
        let (size, align, layout) = compute_layout(desc, self);
        if self.types.len() >= 0xffff_ffff {
            return TypeId(5);
        }
        let id = TypeId(self.types.len() as u32);
        let d = desc.duplicate();
        let ghost mid = *self;
        self.types.push(TypeInfo { id, desc: d, size, align, layout });
        proof {
            assert(table_grows(mid, *self));
            lemma_layout_grows(mid, *self, size, align, layout, *desc);
            assert(self.types@[id.0 as int].desc == d);
            lemma_size_same(d, *desc);
            assert(self.types@.drop_last() =~= mid.types@);
        }
        id
    }
}

/// Size, alignment and field layout of `desc`; the field types are
/// interned in `table` on the way.
fn compute_layout(desc: &TypeDesc, table: &mut TypeTable) -> (r: (u64, u64, TypeLayout))
    requires
        table_wf(*old(table)),
    ensures
        table_wf(*final(table)),
        table_grows(*old(table), *final(table)),
        layout_matches(final(table).types@, r.0, r.1, r.2, *desc),
        added_smaller(old(table).types@, final(table).types@, desc_size(*desc)),
    decreases desc, 1nat,
{
    match desc {
        TypeDesc::Void => (0, 1, TypeLayout { fields: Vec::new() }),
        TypeDesc::Char => (1, 1, TypeLayout { fields: Vec::new() }),
        TypeDesc::Int => (4, 4, TypeLayout { fields: Vec::new() }),
        TypeDesc::Long => (8, 8, TypeLayout { fields: Vec::new() }),
        TypeDesc::SizeT => (8, 8, TypeLayout { fields: Vec::new() }),
        TypeDesc::Unknown => (8, 8, TypeLayout { fields: Vec::new() }),
        TypeDesc::Ptr(_) => (8, 8, TypeLayout { fields: Vec::new() }),
        TypeDesc::FnPtr { .. } => (8, 8, TypeLayout { fields: Vec::new() }),
        TypeDesc::Array { elem, size } => {
            let (elem_size, elem_align, _) = compute_layout(elem, table);
            let count: u64 = match size {
                Some(n) => *n,
                None => 0,
            };
            (elem_size.wrapping_mul(count), elem_align, TypeLayout { fields: Vec::new() })
        },
        TypeDesc::Struct { fields, .. } => fields_layout(desc, fields, table),
        TypeDesc::Union { fields, .. } => fields_layout(desc, fields, table),
    }
}

/// Lays out the fields of a struct or union one after another.
fn fields_layout(outer: &TypeDesc, fields: &Vec<(String, TypeDesc)>, table: &mut TypeTable) -> (r: (u64, u64, TypeLayout))
    requires
        table_wf(*old(table)),
        (outer matches TypeDesc::Struct { fields: f, .. } && f == *fields)
            || (outer matches TypeDesc::Union { fields: f, .. } && f == *fields),
    ensures
        table_wf(*final(table)),
        table_grows(*old(table), *final(table)),
        layout_matches(final(table).types@, r.0, r.1, r.2, *outer),
        added_smaller(old(table).types@, final(table).types@, desc_size(*outer)),
    decreases outer, 0nat,
{
    let ghost start = *table;
    let mut out: Vec<FieldLayout> = Vec::new();
    let mut offset: u64 = 0;
    let mut max_align: u64 = 1;
    let mut total: u64 = 0;
    let mut k: usize = 0;
    while k < fields.len()
        invariant
            k <= fields@.len(),
            (outer matches TypeDesc::Struct { fields: f, .. } && f == *fields)
                || (outer matches TypeDesc::Union { fields: f, .. } && f == *fields),
            desc_fields(*outer) == fields@,
            table_wf(*table),
            table_grows(start, *table),
            added_smaller(start.types@, table.types@, desc_size(*outer)),
            fields_fold(*outer, k as nat) == (offset, max_align, total),
            out@.len() == k,
            forall|j: int| 0 <= j < k ==> {
                &&& (#[trigger] out@[j]).name@ == fields@[j].0@
                &&& out@[j].offset == field_offset(*outer, j)
                &&& out@[j].size == layout_of(fields@[j].1).0
                &&& interned_as(table.types@, out@[j].type_id, fields@[j].1)
            },
        decreases fields@.len() - k,
    {
        proof { vstd::std_specs::vec::axiom_vec_index_decreases(*fields, k as int); }
        let ghost t0 = *table;
        let field_type_id = table.intern_ref(&fields[k].1);
        let ghost t1 = *table;
        let (field_size, field_align, _) = compute_layout(&fields[k].1, table);
        proof {
            lemma_interned_grows(t1, *table, field_type_id, fields@[k as int].1);
            assert(children(*outer)[k as int] == fields@[k as int].1);
            lemma_child_smaller(*outer, children(*outer).len(), k as int);
            assert forall|j: int| 0 <= j < k implies
                interned_as(table.types@, (#[trigger] out@[j]).type_id, fields@[j].1) by {
                lemma_interned_grows(t0, *table, out@[j].type_id, fields@[j].1);
            }
        }
        if field_align > max_align {
            max_align = field_align;
        }
        offset = align_up(offset, field_align);
        out.push(FieldLayout { name: fields[k].0.clone(), offset, size: field_size, type_id: field_type_id });
        offset = offset.wrapping_add(field_size);
        if offset > total {
            total = offset;
        }
        k = k + 1;
    }
    let size = align_up(total, max_align);
    (size, max_align, TypeLayout { fields: out })
}

/// `desc_same` is symmetric.
pub proof fn lemma_desc_same_sym(a: TypeDesc, b: TypeDesc)
    requires
        desc_same(a, b),
    ensures
        desc_same(b, a),
    decreases a,
{
    match a {
        TypeDesc::Ptr(x) => {
            if let TypeDesc::Ptr(y) = b {
                lemma_desc_same_sym(*x, *y);
            }
        },
        TypeDesc::Array { elem, .. } => {
            if let TypeDesc::Array { elem: e2, .. } = b {
                lemma_desc_same_sym(*elem, *e2);
            }
        },
        TypeDesc::Struct { fields, .. } => {
            if let TypeDesc::Struct { fields: f2, .. } = b {
                assert forall|k: int| 0 <= k < f2@.len() implies (#[trigger] f2@[k]).0@ == fields@[k].0@
                    && desc_same(f2@[k].1, fields@[k].1) by {
                    assert(fields@[k].0@ == f2@[k].0@);
                    lemma_desc_same_sym(fields@[k].1, f2@[k].1);
                }
            }
        },
        TypeDesc::Union { fields, .. } => {
            if let TypeDesc::Union { fields: f2, .. } = b {
                assert forall|k: int| 0 <= k < f2@.len() implies (#[trigger] f2@[k]).0@ == fields@[k].0@
                    && desc_same(f2@[k].1, fields@[k].1) by {
                    assert(fields@[k].0@ == f2@[k].0@);
                    lemma_desc_same_sym(fields@[k].1, f2@[k].1);
                }
            }
        },
        TypeDesc::FnPtr { ret, params } => {
            if let TypeDesc::FnPtr { ret: r2, params: p2 } = b {
                lemma_desc_same_sym(*ret, *r2);
                assert forall|k: int| 0 <= k < p2@.len() implies desc_same(#[trigger] p2@[k], params@[k]) by {
                    assert(desc_same(params@[k], p2@[k]));
                    lemma_desc_same_sym(params@[k], p2@[k]);
                }
            }
        },
        _ => {},
    }
}

/// `desc_same` is transitive.
pub proof fn lemma_desc_same_trans(a: TypeDesc, b: TypeDesc, c: TypeDesc)
    requires
        desc_same(a, b),
        desc_same(b, c),
    ensures
        desc_same(a, c),
    decreases a,
{
    match a {
        TypeDesc::Ptr(x) => {
            if let TypeDesc::Ptr(y) = b {
                if let TypeDesc::Ptr(z) = c {
                    lemma_desc_same_trans(*x, *y, *z);
                }
            }
        },
        TypeDesc::Array { elem, .. } => {
            if let TypeDesc::Array { elem: e2, .. } = b {
                if let TypeDesc::Array { elem: e3, .. } = c {
                    lemma_desc_same_trans(*elem, *e2, *e3);
                }
            }
        },
        TypeDesc::Struct { fields, .. } => {
            if let TypeDesc::Struct { fields: f2, .. } = b {
                if let TypeDesc::Struct { fields: f3, .. } = c {
                    assert forall|k: int| 0 <= k < fields@.len() implies (#[trigger] fields@[k]).0@ == f3@[k].0@
                        && desc_same(fields@[k].1, f3@[k].1) by {
                        assert(f2@[k].0@ == f3@[k].0@);
                        lemma_desc_same_trans(fields@[k].1, f2@[k].1, f3@[k].1);
                    }
                }
            }
        },
        TypeDesc::Union { fields, .. } => {
            if let TypeDesc::Union { fields: f2, .. } = b {
                if let TypeDesc::Union { fields: f3, .. } = c {
                    assert forall|k: int| 0 <= k < fields@.len() implies (#[trigger] fields@[k]).0@ == f3@[k].0@
                        && desc_same(fields@[k].1, f3@[k].1) by {
                        assert(f2@[k].0@ == f3@[k].0@);
                        lemma_desc_same_trans(fields@[k].1, f2@[k].1, f3@[k].1);
                    }
                }
            }
        },
        TypeDesc::FnPtr { ret, params } => {
            if let TypeDesc::FnPtr { ret: r2, params: p2 } = b {
                if let TypeDesc::FnPtr { ret: r3, params: p3 } = c {
                    lemma_desc_same_trans(*ret, *r2, *r3);
                    assert forall|k: int| 0 <= k < params@.len() implies desc_same(#[trigger] params@[k], p3@[k]) by {
                        assert(desc_same(p2@[k], p3@[k]));
                        lemma_desc_same_trans(params@[k], p2@[k], p3@[k]);
                    }
                }
            }
        },
        _ => {},
    }
}

/// Structurally equal descriptions are found at the same position.
pub proof fn lemma_desc_index_same(types: Seq<TypeInfo>, d1: TypeDesc, d2: TypeDesc)
    requires
        desc_same(d1, d2),
    ensures
        desc_index(types, d1) == desc_index(types, d2),
    decreases types.len(),
{
    if types.len() > 0 {
        lemma_desc_index_same(types.drop_last(), d1, d2);
        if desc_same(types.last().desc, d1) {
            lemma_desc_same_trans(types.last().desc, d1, d2);
        }
        if desc_same(types.last().desc, d2) {
            lemma_desc_same_sym(d1, d2);
            lemma_desc_same_trans(types.last().desc, d2, d1);
        }
    }
}

/// The type `type_id_by_tag` picks for a tag, when one carries it.
pub open spec fn tag_pick(types: Seq<TypeInfo>, name: Seq<char>, kind: TypeKind) -> int {
    choose|k: int| is_tag_pick(types, name, kind, k)
}

/// At most one type is the pick for a tag.
pub proof fn lemma_tag_pick_unique(types: Seq<TypeInfo>, name: Seq<char>, kind: TypeKind, k1: int, k2: int)
    requires
        is_tag_pick(types, name, kind, k1),
        is_tag_pick(types, name, kind, k2),
    ensures
        k1 == k2,
{
    if k1 < k2 {
        assert(completeness(types[k1]) <= completeness(types[k2]));
    } else if k2 < k1 {
        assert(completeness(types[k2]) <= completeness(types[k1]));
    }
}

/// The type that looking `d` up, without interning, finds.
pub open spec fn lookup_spec(types: Seq<TypeInfo>, d: TypeDesc) -> Option<int> {
    if tag_known(types, d) {
        Some(tag_pick(types, is_tag_ref(d).unwrap().0, is_tag_ref(d).unwrap().1))
    } else if desc_index(types, d) >= 0 {
        Some(desc_index(types, d))
    } else {
        None
    }
}

/// The type id `resolve_type_id` gives for `d`.
pub open spec fn resolve_spec(types: Seq<TypeInfo>, d: TypeDesc) -> int {
    match lookup_spec(types, d) {
        Some(k) => k,
        None => match d {
            TypeDesc::Ptr(inner) => {
                let p = match lookup_spec(types, *inner) {
                    Some(k) => k,
                    None => 5,
                };
                let pd = TypeDesc::Ptr(Box::new(types[p].desc));
                if p != 5 && desc_index(types, pd) >= 0 {
                    desc_index(types, pd)
                } else {
                    5
                }
            },
            _ => 5,
        },
    }
}

impl TypeTable {
    /// Looks `desc` up without interning anything.
    fn lookup(&self, desc: &TypeDesc) -> (r: Option<TypeId>)
        requires
            table_wf(*self),
        ensures
            match lookup_spec(self.types@, *desc) {
                Some(k) => r == Some(TypeId(k as u32)) && 0 <= k < self.types@.len(),
                None => r is None,
            },
    {
        let looked = self.lookup_tag_ref(desc);
        if let Some(id) = looked {
            proof {
                let nk = is_tag_ref(*desc).unwrap();
                lemma_tag_pick_unique(self.types@, nk.0, nk.1, id.0 as int, tag_pick(self.types@, nk.0, nk.1));
            }
            return Some(id);
        }
        proof {
            if tag_known(self.types@, *desc) {
                let nk = is_tag_ref(*desc).unwrap();
                let j = choose|j: int| 0 <= j < self.types@.len() && tag_matches(#[trigger] self.types@[j].desc, nk.0, nk.1);
                assert(tag_matches(self.types@[j].desc, nk.0, nk.1));
            }
        }
        let found = self.find_desc(desc);
        proof { lemma_desc_index(self.types@, *desc); }
        found
    }

    /// The id of an already interned type standing for `desc`: a tag
    /// reference or an equal description; for a pointer to something
    /// interned, the pointer to that type if it is interned; else Unknown.
    pub fn resolve_type_id(&self, desc: &TypeDesc) -> (r: TypeId)
        requires
            table_wf(*self),
        ensures
            r.0 as int == resolve_spec(self.types@, *desc),
            (r.0 as int) < self.types@.len(),
    {
        if let Some(id) = self.lookup(desc) {
            return id;
        }
        if let TypeDesc::Ptr(inner) = desc {
            let pointee = match self.lookup(inner) {
                Some(id) => id,
                None => TypeId(5),
            };
            if pointee.0 != 5 {
                let pd = self.types[pointee.0 as usize].desc.duplicate();
                let ptr_desc = TypeDesc::Ptr(Box::new(pd));
                proof {
                    let spec_pd = TypeDesc::Ptr(Box::new(self.types@[pointee.0 as int].desc));
                    assert(desc_same(ptr_desc, spec_pd));
                    lemma_desc_index_same(self.types@, ptr_desc, spec_pd);
                }
                let found = self.find_desc(&ptr_desc);
                proof { lemma_desc_index(self.types@, ptr_desc); }
                if let Some(id) = found {
                    return id;
                }
            }
        }
        TypeId(5)
    }

    /// Interns a pointer to `inner`.
    pub fn ptr_to(&mut self, inner: TypeDesc) -> (r: TypeId)
        requires
            table_wf(*old(self)),
        ensures
            table_wf(*final(self)),
            table_grows(*old(self), *final(self)),
            interned_as(final(self).types@, r, TypeDesc::Ptr(Box::new(inner))),
            intern_outcome(old(self).types@, TypeDesc::Ptr(Box::new(inner)), r, final(self).types@),
    {
        self.intern(TypeDesc::Ptr(Box::new(inner)))
    }

    /// Interns the struct `name` with `fields`.
    pub fn compute_struct_layout(&mut self, name: String, fields: Vec<(String, TypeDesc)>) -> (r: TypeId)
        requires
            table_wf(*old(self)),
        ensures
            table_wf(*final(self)),
            table_grows(*old(self), *final(self)),
            interned_as(final(self).types@, r, TypeDesc::Struct { name, fields }),
            intern_outcome(old(self).types@, TypeDesc::Struct { name, fields }, r, final(self).types@),
    {
        self.intern(TypeDesc::Struct { name, fields })
    }

    /// Interns the union `name` with `fields`.
    pub fn compute_union_layout(&mut self, name: String, fields: Vec<(String, TypeDesc)>) -> (r: TypeId)
        requires
            table_wf(*old(self)),
        ensures
            table_wf(*final(self)),
            table_grows(*old(self), *final(self)),
            interned_as(final(self).types@, r, TypeDesc::Union { name, fields }),
            intern_outcome(old(self).types@, TypeDesc::Union { name, fields }, r, final(self).types@),
    {
        self.intern(TypeDesc::Union { name, fields })
    }

    /// The first field of `type_id` named `fname`.
    pub fn field_id_by_name(&self, type_id: TypeId, fname: &str) -> (r: Option<FieldId>)
        requires
            (type_id.0 as int) < self.types@.len(),
        ensures
            match r {
                Some(f) => {
                    let fs = self.types@[type_id.0 as int].layout.fields@;
                    &&& (f.0 as int) < fs.len()
                    &&& fs[f.0 as int].name@ == fname@
                    &&& forall|j: int| 0 <= j < f.0 ==> (#[trigger] fs[j]).name@ != fname@
                },
                None => forall|j: int| 0 <= j < self.types@[type_id.0 as int].layout.fields@.len()
                    && j <= u32::MAX ==> (#[trigger] self.types@[type_id.0 as int].layout.fields@[j]).name@ != fname@,
            },
    {
        let fs = &self.types[type_id.0 as usize].layout.fields;
        let mut k: usize = 0;
        while k < fs.len()
            invariant
                k <= fs@.len(),
                *fs == self.types@[type_id.0 as int].layout.fields,
                forall|j: int| 0 <= j < k ==> (#[trigger] fs@[j]).name@ != fname@,
            decreases fs@.len() - k,
        {
            if string_is(&fs[k].name, fname) {
                if k <= 0xffff_ffff {
                    return Some(FieldId(k as u32));
                }
                return None;
            }
            k = k + 1;
        }
        None
    }
}

/// Number of nodes of a type description.
pub open spec fn desc_size(d: TypeDesc) -> nat
    decreases d, 1nat, 0nat,
{
    match d {
        TypeDesc::Ptr(x) => 1 + desc_size(*x),
        TypeDesc::Array { elem, .. } => 1 + desc_size(*elem),
        TypeDesc::Struct { fields, .. } => 1 + children_size(d, fields@.len()),
        TypeDesc::Union { fields, .. } => 1 + children_size(d, fields@.len()),
        TypeDesc::FnPtr { ret, params } => 1 + desc_size(*ret) + children_size(d, params@.len()),
        _ => 1,
    }
}

/// Total size of the first `n` member types of `outer` (field types, or
/// parameter types of a function pointer).
pub open spec fn children_size(outer: TypeDesc, n: nat) -> nat
    decreases outer, 0nat, n,
{
    match outer {
        TypeDesc::Struct { fields, .. } => if n == 0 || n > fields@.len() {
            0
        } else {
            proof { vstd::std_specs::vec::axiom_vec_index_decreases(fields, n - 1); }
            children_size(outer, (n - 1) as nat) + desc_size(fields@[n - 1].1)
        },
        TypeDesc::Union { fields, .. } => if n == 0 || n > fields@.len() {
            0
        } else {
            proof { vstd::std_specs::vec::axiom_vec_index_decreases(fields, n - 1); }
            children_size(outer, (n - 1) as nat) + desc_size(fields@[n - 1].1)
        },
        TypeDesc::FnPtr { params, .. } => if n == 0 || n > params@.len() {
            0
        } else {
            proof { vstd::std_specs::vec::axiom_vec_index_decreases(params, n - 1); }
            children_size(outer, (n - 1) as nat) + desc_size(params@[n - 1])
        },
        _ => 0,
    }
}

/// The member types of `d` that `children_size` sums.
pub open spec fn children(d: TypeDesc) -> Seq<TypeDesc> {
    match d {
        TypeDesc::Struct { fields, .. } => fields@.map_values(|f: (String, TypeDesc)| f.1),
        TypeDesc::Union { fields, .. } => fields@.map_values(|f: (String, TypeDesc)| f.1),
        TypeDesc::FnPtr { params, .. } => params@,
        _ => Seq::empty(),
    }
}

/// Each member type is smaller than the sum over the members up to it.
proof fn lemma_child_smaller(d: TypeDesc, n: nat, k: int)
    requires
        0 <= k < n <= children(d).len(),
    ensures
        desc_size(children(d)[k]) <= children_size(d, n),
    decreases n,
{
    if k < n - 1 {
        lemma_child_smaller(d, (n - 1) as nat, k);
    }
}

/// Structurally equal descriptions have the same size.
proof fn lemma_size_same(a: TypeDesc, b: TypeDesc)
    requires
        desc_same(a, b),
    ensures
        desc_size(a) == desc_size(b),
    decreases a, 1nat, 0nat,
{
    match a {
        TypeDesc::Ptr(x) => {
            if let TypeDesc::Ptr(y) = b {
                lemma_size_same(*x, *y);
            }
        },
        TypeDesc::Array { elem, .. } => {
            if let TypeDesc::Array { elem: e2, .. } = b {
                lemma_size_same(*elem, *e2);
            }
        },
        TypeDesc::Struct { fields, .. } => {
            lemma_children_size_same(a, b, fields@.len());
        },
        TypeDesc::Union { fields, .. } => {
            lemma_children_size_same(a, b, fields@.len());
        },
        TypeDesc::FnPtr { ret, params } => {
            if let TypeDesc::FnPtr { ret: r2, .. } = b {
                lemma_size_same(*ret, *r2);
            }
            lemma_children_size_same(a, b, params@.len());
        },
        _ => {},
    }
}

proof fn lemma_children_size_same(a: TypeDesc, b: TypeDesc, n: nat)
    requires
        desc_same(a, b),
    ensures
        children_size(a, n) == children_size(b, n),
    decreases a, 0nat, n,
{
    if n > 0 {
        lemma_children_size_same(a, b, (n - 1) as nat);
        match a {
            TypeDesc::Struct { fields, .. } => {
                if let TypeDesc::Struct { fields: f2, .. } = b {
                    if n <= fields@.len() {
                        assert(desc_same(fields@[n - 1].1, f2@[n - 1].1));
                        vstd::std_specs::vec::axiom_vec_index_decreases(fields, n - 1);
                        lemma_size_same(fields@[n - 1].1, f2@[n - 1].1);
                    }
                }
            },
            TypeDesc::Union { fields, .. } => {
                if let TypeDesc::Union { fields: f2, .. } = b {
                    if n <= fields@.len() {
                        assert(desc_same(fields@[n - 1].1, f2@[n - 1].1));
                        vstd::std_specs::vec::axiom_vec_index_decreases(fields, n - 1);
                        lemma_size_same(fields@[n - 1].1, f2@[n - 1].1);
                    }
                }
            },
            TypeDesc::FnPtr { params, .. } => {
                if let TypeDesc::FnPtr { params: p2, .. } = b {
                    if n <= params@.len() {
                        assert(desc_same(params@[n - 1], p2@[n - 1]));
                        vstd::std_specs::vec::axiom_vec_index_decreases(params, n - 1);
                        lemma_size_same(params@[n - 1], p2@[n - 1]);
                    }
                }
            },
            _ => {},
        }
    }
}

/// A bare tag reference is seen the same way in structurally equal
/// descriptions.
proof fn lemma_tag_ref_same(a: TypeDesc, b: TypeDesc)
    requires
        desc_same(a, b),
    ensures
        is_tag_ref(a) == is_tag_ref(b),
{
}

/// The position of `d` is `r` when the type there is equal to it and none
/// before it is.
proof fn lemma_desc_index_at(types: Seq<TypeInfo>, d: TypeDesc, r: int)
    requires
        0 <= r < types.len(),
        desc_same(types[r].desc, d),
        forall|k: int| 0 <= k < r ==> !desc_same(#[trigger] types[k].desc, d),
    ensures
        desc_index(types, d) == r,
{
    lemma_desc_index(types, d);
    let i = desc_index(types, d);
    if i == -1 {
        assert(!desc_same(types[r].desc, d));
    } else if i < r {
        assert(!desc_same(types[i].desc, d));
    } else if i > r {
        assert(!desc_same(types[r].desc, d));
    }
}

/// Interning is idempotent: once `d` has been interned as `r` (below the
/// id limit), interning it or any structurally equal description again
/// gives `r` and leaves the table as it is.
pub proof fn lemma_intern_idempotent(old: TypeTable, d: TypeDesc, r: TypeId, new: TypeTable, d2: TypeDesc)
    requires
        table_wf(old),
        table_wf(new),
        table_grows(old, new),
        intern_outcome(old.types@, d, r, new.types@),
        new.types@.len() < u32::MAX,
        desc_same(d, d2),
    ensures
        forall|r2: TypeId, new2: Seq<TypeInfo>| #[trigger] intern_outcome(new.types@, d2, r2, new2)
            ==> r2 == r && new2 == new.types@,
{
    let ot = old.types@;
    let nt = new.types@;
    lemma_tag_ref_same(d, d2);
    lemma_desc_index_same(ot, d, d2);
    lemma_desc_index_same(nt, d, d2);
    if tag_known(ot, d) {
        let nk = is_tag_ref(d).unwrap();
        assert(tag_known(nt, d2));
        assert forall|r2: TypeId, new2: Seq<TypeInfo>| #[trigger] intern_outcome(nt, d2, r2, new2)
            implies r2 == r && new2 == nt by {
            lemma_tag_pick_unique(nt, nk.0, nk.1, r.0 as int, r2.0 as int);
        }
    } else if desc_index(ot, d) >= 0 {
        assert(!tag_known(nt, d2));
    } else {
        let ri = r.0 as int;
        assert(ri == nt.len() - 1);
        assert forall|k: int| ot.len() <= k < ri implies !desc_same(#[trigger] nt[k].desc, d) by {
            assert(nt.drop_last()[k] == nt[k]);
            if desc_same(nt[k].desc, d) {
                lemma_size_same(nt[k].desc, d);
            }
        }
        lemma_desc_index(ot, d);
        assert forall|k: int| 0 <= k < ot.len() implies !desc_same(#[trigger] nt[k].desc, d) by {
            assert(nt[k] == ot[k]);
        }
        match is_tag_ref(d) {
            Some(nk) => {
                assert(children_size(d, 0nat) == 0);
                assert(desc_size(d) == 1);
                assert(ri == ot.len()) by {
                    if ot.len() < ri {
                        assert(nt.drop_last()[ot.len() as int] == nt[ot.len() as int]);
                        assert(desc_size(nt[ot.len() as int].desc) < 1);
                        assert(desc_size(nt[ot.len() as int].desc) >= 1);
                    }
                }
                lemma_desc_same_sym(nt[ri].desc, d);
                assert(tag_matches(nt[ri].desc, nk.0, nk.1));
                assert forall|j: int| 0 <= j < nt.len() && tag_matches(#[trigger] nt[j].desc, nk.0, nk.1)
                    implies j == ri by {
                    if j < ri {
                        assert(nt[j] == ot[j]);
                        assert(tag_known(ot, d));
                    }
                }
                assert(is_tag_pick(nt, nk.0, nk.1, ri));
                assert(tag_known(nt, d2));
                assert forall|r2: TypeId, new2: Seq<TypeInfo>| #[trigger] intern_outcome(nt, d2, r2, new2)
                    implies r2 == r && new2 == nt by {
                    lemma_tag_pick_unique(nt, nk.0, nk.1, ri, r2.0 as int);
                }
            },
            None => {
                lemma_desc_index_at(nt, d, ri);
                assert(!tag_known(nt, d2));
            },
        }
    }
}
/// `v` rounded up to a multiple of `a` (unchanged when `a` is 0), without
/// wrapping.
pub open spec fn round_up(v: int, a: int) -> int {
    if a <= 0 { v } else { (v + a - 1) / a * a }
}

/// No step of laying out the first `n` fields of `d` leaves 64 bits: each
/// field's aligned offset, and its end, fit in a `u64`.
pub open spec fn fold_fits(d: TypeDesc, n: nat) -> bool {
    forall|k: nat| k < n ==> ({
        let prev = #[trigger] fields_fold(d, k);
        let fl = layout_of(desc_fields(d)[k as int].1);
        &&& prev.0 + fl.1 <= u64::MAX
        &&& round_up(prev.0 as int, fl.1 as int) + fl.0 <= u64::MAX
    })
}

proof fn lemma_round_up(v: int, a: int)
    requires
        0 <= v,
        0 < a,
    ensures
        v <= round_up(v, a) <= v + a - 1,
        round_up(v, a) % a == 0,
{
    let q = (v + a - 1) / a;
    assert(q * a <= v + a - 1 && v + a - 1 < q * a + a) by (nonlinear_arith)
        requires
            a > 0,
            q == (v + a - 1) / a,
            v >= 0,
    ;
    assert((q * a) % a == 0) by (nonlinear_arith)
        requires
            a > 0,
    ;
}

/// Without wrapping, `aligned` rounds up.
proof fn lemma_aligned_exact(v: u64, a: u64)
    requires
        v + a <= u64::MAX + 1,
    ensures
        aligned(v, a) == round_up(v as int, a as int),
{
    if a > 0 {
        lemma_round_up(v as int, a as int);
        let r = (v as int + a - 1) / a as int * a;
        assert(r == round_up(v as int, a as int));
        assert(0 <= r < 0x1_0000_0000_0000_0000);
        assert(r % 0x1_0000_0000_0000_0000 == r);
    }
}

/// Where field `k` of `d` ends.
pub open spec fn field_end(d: TypeDesc, k: int) -> int {
    field_offset(d, k) + layout_of(desc_fields(d)[k].1).0
}

/// One more field is one more layout step.
proof fn lemma_fold_unfold(d: TypeDesc, n: nat)
    requires
        d is Struct || d is Union,
        1 <= n <= desc_fields(d).len(),
    ensures
        fields_fold(d, n) == fold_step(fields_fold(d, (n - 1) as nat), layout_of(desc_fields(d)[n - 1].1)),
{
}

/// Laying out fields keeps an alignment of at least 1, and the extent
/// covers the end of every field laid out so far.
proof fn lemma_fold_covers(d: TypeDesc, n: nat)
    requires
        d is Struct || d is Union,
        n <= desc_fields(d).len(),
        fold_fits(d, n),
    ensures
        fields_fold(d, n).1 >= 1,
        forall|k: int| 0 <= k < n ==> #[trigger] field_end(d, k) <= fields_fold(d, n).2,
        forall|k: int| 0 <= k < n ==> layout_of(#[trigger] desc_fields(d)[k].1).1 <= fields_fold(d, n).1,
        n > 0 ==> fields_fold(d, n).0 == field_end(d, n - 1),
    decreases n,
{
    if n == 0 {
        assert(fields_fold(d, 0) == (0u64, 1u64, 0u64));
    } else {
        let m = (n - 1) as nat;
        assert(fold_fits(d, m)) by {
            assert forall|k: nat| k < m implies ({
                let prev = #[trigger] fields_fold(d, k);
                let fl = layout_of(desc_fields(d)[k as int].1);
                &&& prev.0 + fl.1 <= u64::MAX
                &&& round_up(prev.0 as int, fl.1 as int) + fl.0 <= u64::MAX
            }) by {
                let _ = fields_fold(d, k);
            }
        }
        lemma_fold_covers(d, m);
        let prev = fields_fold(d, m);
        let fl = layout_of(desc_fields(d)[m as int].1);
        assert(prev.0 + fl.1 <= u64::MAX && round_up(prev.0 as int, fl.1 as int) + fl.0 <= u64::MAX);
        lemma_fold_unfold(d, n);
        lemma_aligned_exact(prev.0, fl.1);
        if fl.1 > 0 {
            lemma_round_up(prev.0 as int, fl.1 as int);
        }
        let off = aligned(prev.0, fl.1) as u64;
        assert(off as int == round_up(prev.0 as int, fl.1 as int));
        assert(field_offset(d, m as int) == off);
        assert(field_end(d, m as int) == off + fl.0);
        let cur = fields_fold(d, n);
        assert(cur.2 >= prev.2 && cur.2 >= off + fl.0);
        assert forall|k: int| 0 <= k < n implies #[trigger] field_end(d, k) <= fields_fold(d, n).2 by {
            if k < m {
                assert(field_end(d, k) <= prev.2);
            }
        }
        assert(cur.1 >= prev.1 && cur.1 >= fl.1);
        assert(cur.0 == off + fl.0);
        assert forall|k: int| 0 <= k < n implies layout_of(#[trigger] desc_fields(d)[k].1).1 <= fields_fold(d, n).1 by {
            if k < m {
                assert(layout_of(desc_fields(d)[k].1).1 <= prev.1);
            }
        }
    }
}

/// A laid-out struct or union is as large as a whole number of its
/// alignment (at least 1) and reaches past the end of every field; each
/// field starts at a multiple of its own alignment. This holds whenever
/// no step of the layout leaves 64 bits.
pub proof fn lemma_layout_covers_fields(d: TypeDesc)
    requires
        d is Struct || d is Union,
        fold_fits(d, desc_fields(d).len()),
        fields_fold(d, desc_fields(d).len()).2 + fields_fold(d, desc_fields(d).len()).1 <= u64::MAX,
    ensures
        layout_of(d).1 >= 1,
        layout_of(d).0 % layout_of(d).1 == 0,
        forall|k: int| 0 <= k < desc_fields(d).len()
            ==> field_offset(d, k) + layout_of(#[trigger] desc_fields(d)[k].1).0 <= layout_of(d).0,
        forall|k: int| 0 <= k < desc_fields(d).len() && layout_of(#[trigger] desc_fields(d)[k].1).1 > 0
            ==> field_offset(d, k) % layout_of(desc_fields(d)[k].1).1 == 0,
        forall|k: int| 0 <= k < desc_fields(d).len() ==> layout_of(#[trigger] desc_fields(d)[k].1).1 <= layout_of(d).1,
        forall|k: int| 0 <= k && k + 1 < desc_fields(d).len() ==> #[trigger] field_end(d, k) <= field_offset(d, k + 1),
{
    let n = desc_fields(d).len();
    lemma_fold_covers(d, n);
    let f = fields_fold(d, n);
    assert(layout_of(d) == (aligned(f.2, f.1) as u64, f.1));
    lemma_aligned_exact(f.2, f.1);
    lemma_round_up(f.2 as int, f.1 as int);
    assert forall|k: int| 0 <= k < n implies
        field_offset(d, k) + layout_of(#[trigger] desc_fields(d)[k].1).0 <= layout_of(d).0 by {
        assert(field_end(d, k) <= f.2);
    }
    assert forall|k: int| 0 <= k < n && layout_of(#[trigger] desc_fields(d)[k].1).1 > 0
        implies field_offset(d, k) % layout_of(desc_fields(d)[k].1).1 == 0 by {
        let fk = fields_fold(d, k as nat);
        let a = layout_of(desc_fields(d)[k].1).1;
        let _ = fields_fold(d, k as nat);
        assert(fk.0 + a <= u64::MAX);
        lemma_aligned_exact(fk.0, a);
        lemma_round_up(fk.0 as int, a as int);
    }
    assert forall|k: int| 0 <= k && k + 1 < n implies #[trigger] field_end(d, k) <= field_offset(d, k + 1) by {
        assert(fold_fits(d, (k + 1) as nat)) by {
            assert forall|j: nat| j < (k + 1) as nat implies ({
                let prev = #[trigger] fields_fold(d, j);
                let fl = layout_of(desc_fields(d)[j as int].1);
                &&& prev.0 + fl.1 <= u64::MAX
                &&& round_up(prev.0 as int, fl.1 as int) + fl.0 <= u64::MAX
            }) by {
                let _ = fields_fold(d, j);
            }
        }
        lemma_fold_covers(d, (k + 1) as nat);
        let fk = fields_fold(d, (k + 1) as nat);
        let a = layout_of(desc_fields(d)[k + 1].1).1;
        let _ = fields_fold(d, (k + 1) as nat);
        assert(fk.0 + a <= u64::MAX);
        lemma_aligned_exact(fk.0, a);
        if a > 0 {
            lemma_round_up(fk.0 as int, a as int);
        }
    }
}


/// What a table stores for a laid-out struct or union keeps its fields
/// inside it: the size is a multiple of the alignment, every field ends
/// within the size, starts at a multiple of its own alignment, and ends
/// before the next field begins.
pub proof fn lemma_stored_layout_covers_fields(types: Seq<TypeInfo>, size: u64, align: u64, layout: TypeLayout, d: TypeDesc)
    requires
        d is Struct || d is Union,
        layout_matches(types, size, align, layout, d),
        fold_fits(d, desc_fields(d).len()),
        fields_fold(d, desc_fields(d).len()).2 + fields_fold(d, desc_fields(d).len()).1 <= u64::MAX,
    ensures
        align >= 1,
        size % align == 0,
        forall|k: int| 0 <= k < layout.fields@.len()
            ==> (#[trigger] layout.fields@[k]).offset + layout.fields@[k].size <= size,
        forall|k: int| 0 <= k < layout.fields@.len() && layout_of(desc_fields(d)[k].1).1 > 0
            ==> (#[trigger] layout.fields@[k]).offset % layout_of(desc_fields(d)[k].1).1 == 0,
        forall|k: int| 0 <= k && k + 1 < layout.fields@.len()
            ==> (#[trigger] layout.fields@[k]).offset + layout.fields@[k].size <= layout.fields@[k + 1].offset,
{
    lemma_layout_covers_fields(d);
    assert forall|k: int| 0 <= k < layout.fields@.len()
        implies (#[trigger] layout.fields@[k]).offset + layout.fields@[k].size <= size by {
        let _ = layout_of(desc_fields(d)[k].1);
    }
    assert forall|k: int| 0 <= k && k + 1 < layout.fields@.len()
        implies (#[trigger] layout.fields@[k]).offset + layout.fields@[k].size <= layout.fields@[k + 1].offset by {
        assert(field_end(d, k) <= field_offset(d, k + 1));
        let _ = layout.fields@[k + 1];
    }
}

} // verus!
