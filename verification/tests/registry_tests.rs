use rustmorphism::errors::BuildError;
use rustmorphism::registry::parse;

fn b(s: &str) -> Vec<u8> {
    s.as_bytes().to_vec()
}

#[test]
fn parses_public_two_variant_declaration() {
    let text = b("pub function compute(x: i32) -> i32\n{ x + 1 }\n{ x * 2 }");
    let d = parse(&text).unwrap();
    assert!(d.signature.is_public);
    assert_eq!(d.signature.name, b("compute"));
    assert_eq!(d.signature.params.len(), 1);
    assert_eq!(d.signature.params[0].name, b("x"));
    assert_eq!(d.signature.params[0].ty, b("i32"));
    assert_eq!(d.signature.ret_type, b("i32"));
    assert_eq!(d.variants.len(), 2);
    assert_eq!(d.variants[0].body, b("x + 1"));
    assert_eq!(d.variants[0].position, 0);
    assert_eq!(d.variants[1].body, b("x * 2"));
    assert_eq!(d.variants[1].position, 1);
}

#[test]
fn parses_private_declaration_with_two_parameters() {
    let text = b("function mix(a: u64, b2: u8) -> u64\n{ a }");
    let d = parse(&text).unwrap();
    assert!(!d.signature.is_public);
    assert_eq!(d.signature.name, b("mix"));
    assert_eq!(d.signature.params.len(), 2);
    assert_eq!(d.signature.params[0].name, b("a"));
    assert_eq!(d.signature.params[0].ty, b("u64"));
    assert_eq!(d.signature.params[1].name, b("b2"));
    assert_eq!(d.signature.params[1].ty, b("u8"));
}

#[test]
fn empty_parameter_list_is_accepted() {
    let d = parse(&b("function f() -> u64\n{ 7 }")).unwrap();
    assert_eq!(d.signature.params.len(), 0);
    assert_eq!(d.variants.len(), 1);
    assert_eq!(d.variants[0].body, b("7"));
}

#[test]
fn zero_bodies_is_empty_variant_set() {
    match parse(&b("function lonely() -> u64")) {
        Err(e) => assert_eq!(e, BuildError::EmptyVariantSet),
        Ok(_) => panic!("a declaration with no candidate bodies must be rejected"),
    }
}

#[test]
fn malformed_header_is_rejected() {
    match parse(&b("garbage text")) {
        Err(e) => assert_eq!(e, BuildError::MalformedDeclaration),
        Ok(_) => panic!("a text outside the grammar must be rejected"),
    }
}

#[test]
fn malformed_variant_line_is_rejected() {
    match parse(&b("function f() -> u64\nx + 1")) {
        Err(e) => assert_eq!(e, BuildError::MalformedDeclaration),
        Ok(_) => panic!("a bare body line must be rejected"),
    }
}

#[test]
fn missing_return_type_is_rejected() {
    match parse(&b("function f() ->\n{ 1 }")) {
        Err(e) => assert_eq!(e, BuildError::MalformedDeclaration),
        Ok(_) => panic!("a header without a return type must be rejected"),
    }
}

#[test]
fn rendered_signature_reparses() {
    let text = b("pub function compute(x: i32, y: u64) -> i32\n{ x }");
    let d = parse(&text).unwrap();
    let header = rustmorphism::synthesis::render_signature_exec(&d.signature);
    assert_eq!(header, b("pub function compute(x: i32, y: u64) -> i32"));
    let mut round = header.clone();
    round.extend_from_slice("\n{ x }".as_bytes());
    let d2 = parse(&round).unwrap();
    assert_eq!(d2.signature.is_public, d.signature.is_public);
    assert_eq!(d2.signature.name, d.signature.name);
    assert_eq!(d2.signature.ret_type, d.signature.ret_type);
    assert_eq!(d2.signature.params.len(), 2);
    assert_eq!(d2.variants.len(), 1);
    assert_eq!(d2.variants[0].body, b("x"));
}
