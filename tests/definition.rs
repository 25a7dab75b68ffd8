use holder_rewards::definition::{
    DefinitionError, FieldDef, ParsedField, ParsedStruct, Parser, StructDef, Type, TypeDef,
};

fn known_parser() -> Parser {
    let mut parser = Parser::new();
    parser.register(StructDef { struct_name: "Point".to_string(), fields: vec![] });
    parser
}

#[test]
fn resolve_primitive() {
    let parser = Parser::new();
    assert!(matches!(TypeDef::Primitive(Type::U64).resolve(&parser), Ok(Type::U64)));
}

#[test]
fn resolve_list_of_known_struct() {
    let parser = known_parser();
    let t = TypeDef::Generic("List", Box::new(TypeDef::Struct("Point")));
    match t.resolve(&parser) {
        Ok(Type::List(inner)) => assert!(matches!(*inner, Type::Struct(ref n) if n == "Point")),
        _ => panic!("expected a list of Point"),
    }
}

#[test]
fn resolve_unknown_struct() {
    let parser = known_parser();
    assert!(matches!(
        TypeDef::Struct("Line").resolve(&parser),
        Err(DefinitionError::UnrecognizedType(ref n)) if n == "Line"
    ));
}

#[test]
fn resolve_unknown_generic() {
    let parser = known_parser();
    let t = TypeDef::Generic("Map", Box::new(TypeDef::Primitive(Type::Bool)));
    assert!(matches!(t.resolve(&parser), Err(DefinitionError::UnresolvedType(ref n)) if n == "Map"));
}

#[test]
fn compile_resolves_fields() {
    let parser = known_parser();
    let parsed = ParsedStruct {
        struct_name: "Foo",
        fields: vec![
            ParsedField { name: "bar", type_: TypeDef::Primitive(Type::U64) },
            ParsedField { name: "at", type_: TypeDef::Struct("Point") },
        ],
    };
    let def = match parsed.compile(&parser) {
        Ok(d) => d,
        Err(_) => panic!("expected a definition"),
    };
    assert_eq!(def.struct_name, "Foo");
    assert_eq!(def.fields.len(), 2);
    let FieldDef { name, type_ } = &def.fields[0];
    assert_eq!(name, "bar");
    assert!(matches!(type_, Type::U64));
    assert!(matches!(def.fields[1].type_, Type::Struct(ref n) if n == "Point"));
}

#[test]
fn compile_rejects_duplicate_fields() {
    let parser = Parser::new();
    let parsed = ParsedStruct {
        struct_name: "Foo",
        fields: vec![
            ParsedField { name: "bar", type_: TypeDef::Primitive(Type::U64) },
            ParsedField { name: "bar", type_: TypeDef::Primitive(Type::U64) },
        ],
    };
    assert!(matches!(parsed.compile(&parser), Err(DefinitionError::DuplicateField(ref n)) if n == "bar"));
}

#[test]
fn compile_reports_first_unresolved_field() {
    let parser = Parser::new();
    let parsed = ParsedStruct {
        struct_name: "Foo",
        fields: vec![
            ParsedField { name: "a", type_: TypeDef::Primitive(Type::Bool) },
            ParsedField { name: "b", type_: TypeDef::Struct("Nope") },
            ParsedField { name: "c", type_: TypeDef::Generic("Set", Box::new(TypeDef::Primitive(Type::U8))) },
        ],
    };
    assert!(matches!(parsed.compile(&parser), Err(DefinitionError::UnrecognizedType(ref n)) if n == "Nope"));
}

#[test]
fn compile_empty_struct() {
    let parser = Parser::new();
    let parsed = ParsedStruct { struct_name: "Foo", fields: vec![] };
    match parsed.compile(&parser) {
        Ok(d) => {
            assert_eq!(d.struct_name, "Foo");
            assert_eq!(d.fields.len(), 0);
        }
        Err(_) => panic!("expected a definition"),
    }
}
