use lib::check::ast::Type;
use lib::check::float::big_uint::BigUint;
use lib::check::types::{
    bool_type, ensure_memory_representable, function_placeholder, ensure_representable, is_memory_representable,
    name_of_type, predefined_type, representable_requirements, representation_units,
    satisfies_representable_requirement, substitute_type,
};
use lib::resolve::TypeId;
use lib::source::{FileId, Span};

fn product(elements: Vec<Type>) -> Type {
    Type::Product(elements)
}

#[test]
fn type_names_are_written_as_in_source() {
    assert_eq!(name_of_type(&Type::Int32), "Int32");
    assert_eq!(name_of_type(&product(vec![Type::Int32, Type::Symbol])), "(Int32, Symbol)");
    assert_eq!(name_of_type(&bool_type()), "Bool");
    assert_eq!(name_of_type(&Type::Sum(vec![Type::Int8, Type::Unit])), "[Int8, Unit]");
    assert_eq!(
        name_of_type(&Type::Function { parameter: Box::new(Type::Int32), result: Box::new(Type::Unit) }),
        "Int32 -> Unit"
    );
    assert_eq!(name_of_type(&Type::Cursor(Box::new(Type::UInt8))), "Cursor<UInt8>");
    assert_eq!(name_of_type(&Type::Parameter { id: TypeId(40), name: "T".into() }), "T");
}

#[test]
fn predefined_types_follow_their_identities() {
    assert_eq!(predefined_type(TypeId(3)), Some(Type::Int32));
    assert_eq!(predefined_type(TypeId(11)), Some(bool_type()));
    assert_eq!(predefined_type(TypeId(1000)), None);
}

#[test]
fn memory_representability_rejects_symbols_functions_and_empty_sums() {
    let span = Span::new(FileId::new(2), 1, 4);
    assert!(is_memory_representable(&product(vec![Type::Int32, Type::Float64])));
    assert!(!is_memory_representable(&product(vec![Type::Int32, Type::Symbol])));
    assert!(!is_memory_representable(&Type::Sum(vec![])));
    assert!(ensure_memory_representable(&Type::UInt8, span).is_ok());
    let error = ensure_memory_representable(&product(vec![Type::Int8, Type::Symbol]), span).unwrap_err();
    assert_eq!(error.message, "memory element type is not representable");
    let label = error.primary.unwrap();
    assert_eq!(label.span, span);
    assert_eq!(label.message, "`Symbol` has no canonical memory representation");
}

#[test]
fn representation_units_count_storage_components() {
    assert_eq!(representation_units(&Type::Int32), Some(1));
    assert_eq!(representation_units(&product(vec![Type::Int32, Type::Int64])), Some(2));
    assert_eq!(representation_units(&Type::Sum(vec![Type::Int32, Type::Unit])), Some(2));
    assert_eq!(
        representation_units(&Type::Function { parameter: Box::new(Type::Unit), result: Box::new(Type::Unit) }),
        Some(2)
    );
    let mut deep = Type::Int32;
    for _ in 0..70 {
        deep = product(vec![deep]);
    }
    assert_eq!(representation_units(&deep), None);
    let error = ensure_representable(&deep, Span::new(FileId::new(0), 0, 1)).unwrap_err();
    assert!(error.primary.unwrap().message.contains("64 nested levels and 65536 storage components"));
}

#[test]
fn substitution_replaces_parameters_everywhere() {
    let t = Type::Parameter { id: TypeId(30), name: "T".into() };
    let ty = product(vec![t, Type::Cursor(Box::new(Type::Parameter { id: TypeId(31), name: "U".into() }))]);
    let result = substitute_type(&ty, &vec![(TypeId(30), Type::Int8)]);
    assert_eq!(
        result,
        product(vec![Type::Int8, Type::Cursor(Box::new(Type::Parameter { id: TypeId(31), name: "U".into() }))])
    );
    assert_eq!(representable_requirements(&Type::Int8), vec![]);
    assert!(satisfies_representable_requirement(&Type::Int8, &vec![]));
}

#[test]
fn big_numbers_keep_their_values() {
    let from_text = BigUint::from_decimal("18446744073709551616");
    let product = BigUint::from_u64(1u64 << 32).multiply(&BigUint::from_u64(1u64 << 32));
    assert_eq!(from_text, product);
    assert_eq!(product.0, vec![0, 0, 1]);
    assert_eq!(BigUint::power_of_ten(3), BigUint::from_u64(1000));
    assert_eq!(BigUint::from_u64(1).shift_left(33).0, vec![0, 2]);
    assert_eq!(BigUint::from_u64(5).multiply_u64(7), BigUint::from_u64(35));
    assert_eq!(BigUint::from_u64(1).bit_length(), 1);
    assert_eq!(BigUint::from_u64(0).bit_length(), 0);
    let mut value = BigUint::from_u64(1u64 << 40);
    value.subtract(&BigUint::from_u64(1));
    assert_eq!(value, BigUint::from_u64((1u64 << 40) - 1));
    assert_eq!(BigUint::from_u64(3).compare(&BigUint::from_u64(4)), std::cmp::Ordering::Less);
    assert_eq!(BigUint::from_decimal("0"), BigUint::from_u64(0));
}

#[test]
fn the_function_placeholder_maps_unit_to_unit() {
    assert_eq!(
        function_placeholder(),
        Type::Function { parameter: Box::new(Type::Unit), result: Box::new(Type::Unit) }
    );
    assert_eq!(name_of_type(&function_placeholder()), "Unit -> Unit");
}

#[test]
fn the_type_name_limit_counts_utf8_bytes() {
    let long = Type::External { id: TypeId(40), name: "é".repeat(2100) };
    assert_eq!(name_of_type(&long), "…");
    let exact = Type::External { id: TypeId(41), name: "é".repeat(2048) };
    assert_eq!(name_of_type(&exact), "é".repeat(2048));
    let pair = product(vec![Type::External { id: TypeId(42), name: "é".repeat(2047) }, Type::Int8]);
    let name = name_of_type(&pair);
    assert_eq!(name, format!("({}…", "é".repeat(2047)));
    assert!(name.len() <= 4096 + '…'.len_utf8());
}
