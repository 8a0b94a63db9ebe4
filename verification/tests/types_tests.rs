use trace::ids::{FieldId, TypeId};
use trace::types::{align_up, TypeDesc, TypeKind, TypeTable};

fn three_fields() -> Vec<(String, TypeDesc)> {
    vec![
        ("c".to_string(), TypeDesc::Char),
        ("i".to_string(), TypeDesc::Int),
        ("l".to_string(), TypeDesc::Long),
    ]
}

#[test]
fn new_table_holds_the_builtin_types() {
    let t = TypeTable::new();
    assert_eq!(t.all().len(), 6);
    assert_eq!(t.void(), TypeId(0));
    assert_eq!(t.int_type(), TypeId(2));
    assert_eq!(t.get(TypeId(2)).size, 4);
    assert_eq!(t.get(TypeId(1)).size, 1);
    assert_eq!(t.get(TypeId(3)).align, 8);
}

#[test]
fn interning_an_equal_description_returns_the_same_id() {
    let mut t = TypeTable::new();
    let a = t.ptr_to(TypeDesc::Int);
    let n = t.all().len();
    let b = t.intern(TypeDesc::Ptr(Box::new(TypeDesc::Int)));
    assert_eq!(a, b);
    assert_eq!(t.all().len(), n);
    assert_eq!(t.intern(TypeDesc::Int), TypeId(2));
}

#[test]
fn struct_fields_are_aligned_and_the_size_rounded() {
    let mut t = TypeTable::new();
    let id = t.compute_struct_layout("s".to_string(), three_fields());
    let info = t.get(id);
    assert_eq!(info.size, 16);
    assert_eq!(info.align, 8);
    let offsets: Vec<u64> = info.layout.fields.iter().map(|f| f.offset).collect();
    assert_eq!(offsets, vec![0, 4, 8]);
    assert_eq!(info.layout.fields[1].size, 4);
    assert_eq!(info.layout.fields[1].type_id, TypeId(2));
}

#[test]
fn field_ids_are_found_by_name() {
    let mut t = TypeTable::new();
    let id = t.compute_struct_layout("s".to_string(), three_fields());
    assert_eq!(t.field_id_by_name(id, "l"), Some(FieldId(2)));
    assert_eq!(t.field_id_by_name(id, "c"), Some(FieldId(0)));
    assert_eq!(t.field_id_by_name(id, "missing"), None);
}

#[test]
fn tag_reference_resolves_to_the_complete_definition() {
    let mut t = TypeTable::new();
    let full = t.compute_struct_layout("node".to_string(), three_fields());
    assert_eq!(t.type_id_by_tag("node", TypeKind::Struct), Some(full));
    assert_eq!(t.type_id_by_tag("node", TypeKind::Union), None);
    let reference = t.intern(TypeDesc::Struct { name: "node".to_string(), fields: Vec::new() });
    assert_eq!(reference, full);
}

#[test]
fn unknown_descriptions_resolve_to_unknown() {
    let mut t = TypeTable::new();
    let p = t.ptr_to(TypeDesc::Long);
    assert_eq!(t.resolve_type_id(&TypeDesc::Ptr(Box::new(TypeDesc::Long))), p);
    assert_eq!(t.resolve_type_id(&TypeDesc::Ptr(Box::new(TypeDesc::Char))), TypeId(5));
    assert_eq!(t.resolve_type_id(&TypeDesc::Int), TypeId(2));
}

#[test]
fn arrays_multiply_the_element_size() {
    let mut t = TypeTable::new();
    let id = t.intern(TypeDesc::Array { elem: Box::new(TypeDesc::Int), size: Some(10) });
    assert_eq!(t.get(id).size, 40);
    assert_eq!(t.get(id).align, 4);
}

#[test]
fn align_up_rounds_to_the_next_multiple() {
    assert_eq!(align_up(0, 8), 0);
    assert_eq!(align_up(1, 8), 8);
    assert_eq!(align_up(8, 8), 8);
    assert_eq!(align_up(9, 4), 12);
    assert_eq!(align_up(5, 0), 5);
}

#[test]
fn pointer_descriptions_report_their_pointee() {
    let p = TypeDesc::Ptr(Box::new(TypeDesc::Int));
    assert!(p.is_pointer_like());
    assert!(matches!(p.pointee(), Some(TypeDesc::Int)));
    let f = TypeDesc::FnPtr { ret: Box::new(TypeDesc::Void), params: Vec::new() };
    assert!(f.is_pointer_like());
    assert!(f.pointee().is_none());
    assert!(!TypeDesc::Int.is_pointer_like());
}
