use cyclonedx_license::license::{
    fallback_reason, from_declared, from_declared_checked, licenses_xml, resolve_declaration,
    resolve_requirements, try_parse_licenses, write_licenses, FallbackReason, License, LicenseError,
    LicenseId, Requirement,
};
use cyclonedx_license::xml::XmlSink;

fn resolve(text: &str) -> Vec<License> {
    try_parse_licenses(Some(text.to_string())).unwrap()
}

fn id_of(l: &License) -> (&str, &str) {
    match l {
        License::Id(id) => (id.name.as_str(), id.full_name.as_str()),
        License::Expression(_) => panic!("expected an identifier"),
    }
}

fn expression_of(l: &License) -> &str {
    match l {
        License::Expression(t) => t.as_str(),
        License::Id(_) => panic!("expected an expression"),
    }
}

fn xml_text(licenses: &Vec<License>) -> String {
    String::from_utf8(licenses_xml(licenses)).unwrap()
}

fn requirement(name: Option<(&str, &str)>, exception: bool) -> Requirement {
    Requirement {
        license: name.map(|(n, f)| LicenseId::from_static(n, f)),
        exception,
    }
}

#[test]
fn single_identifier_resolves_to_one_record() {
    let r = resolve("MIT");
    assert_eq!(r.len(), 1);
    assert_eq!(id_of(&r[0]), ("MIT", "MIT License"));
}

#[test]
fn two_identifiers_keep_their_order() {
    let r = resolve("Apache-2.0 AND MIT");
    assert_eq!(r.len(), 2);
    assert_eq!(id_of(&r[0]), ("Apache-2.0", "Apache License 2.0"));
    assert_eq!(id_of(&r[1]), ("MIT", "MIT License"));
}

#[test]
fn or_of_two_identifiers_scenario() {
    let r = resolve("MIT OR Apache-2.0");
    assert_eq!(r.len(), 2);
    assert_eq!(id_of(&r[0]), ("MIT", "MIT License"));
    assert_eq!(id_of(&r[1]), ("Apache-2.0", "Apache License 2.0"));
    assert_eq!(
        xml_text(&r),
        "<licenses><license><id>MIT License</id></license><license><id>Apache License 2.0</id></license></licenses>"
    );
}

#[test]
fn exception_falls_back_to_expression_scenario() {
    let r = resolve("GPL-2.0-only WITH Classpath-exception-2.0");
    assert_eq!(r.len(), 1);
    assert_eq!(expression_of(&r[0]), "GPL-2.0-only WITH Classpath-exception-2.0");
    assert_eq!(
        xml_text(&r),
        "<licenses><expression>GPL-2.0-only WITH Classpath-exception-2.0</expression></licenses>"
    );
}

#[test]
fn exception_after_identifiers_discards_them() {
    let r = resolve("  MIT OR Apache-2.0 WITH LLVM-exception ");
    assert_eq!(r.len(), 1);
    assert_eq!(expression_of(&r[0]), "MIT OR Apache-2.0 WITH LLVM-exception");
}

#[test]
fn non_spdx_text_falls_back_scenario() {
    let r = resolve("Copyright (c) see LICENSE file");
    assert_eq!(r.len(), 1);
    assert_eq!(expression_of(&r[0]), "Copyright (c) see LICENSE file");
}

#[test]
fn unparsable_text_is_trimmed() {
    let r = resolve("  Copyright (c) see LICENSE file\n");
    assert_eq!(r.len(), 1);
    assert_eq!(expression_of(&r[0]), "Copyright (c) see LICENSE file");
}

#[test]
fn custom_reference_falls_back() {
    let r = resolve("MIT OR LicenseRef-Custom");
    assert_eq!(r.len(), 1);
    assert_eq!(expression_of(&r[0]), "MIT OR LicenseRef-Custom");
}

#[test]
fn missing_license_is_an_error() {
    assert!(matches!(try_parse_licenses(None), Err(LicenseError::MissingLicense)));
}

#[test]
fn resolve_requirements_structures_plain_requirements() {
    let reqs = vec![
        requirement(Some(("MIT", "MIT License")), false),
        requirement(Some(("Zlib", "zlib License")), false),
    ];
    let r = resolve_requirements("MIT OR Zlib", Some(reqs));
    assert_eq!(r.len(), 2);
    assert_eq!(id_of(&r[0]), ("MIT", "MIT License"));
    assert_eq!(id_of(&r[1]), ("Zlib", "zlib License"));
}

#[test]
fn resolve_requirements_abandons_on_exception() {
    let reqs = vec![
        requirement(Some(("MIT", "MIT License")), false),
        requirement(Some(("Apache-2.0", "Apache License 2.0")), true),
    ];
    let r = resolve_requirements(" text ", Some(reqs));
    assert_eq!(r.len(), 1);
    assert_eq!(expression_of(&r[0]), "text");
}

#[test]
fn resolve_requirements_abandons_on_reference() {
    let reqs = vec![requirement(None, false), requirement(Some(("MIT", "MIT License")), false)];
    let r = resolve_requirements("LicenseRef-A OR MIT", Some(reqs));
    assert_eq!(r.len(), 1);
    assert_eq!(expression_of(&r[0]), "LicenseRef-A OR MIT");
}

#[test]
fn resolve_requirements_without_parse_or_requirements() {
    let r = resolve_requirements("\tabc ", None);
    assert_eq!(r.len(), 1);
    assert_eq!(expression_of(&r[0]), "abc");
    let r = resolve_requirements("abc", Some(Vec::new()));
    assert_eq!(r.len(), 1);
    assert_eq!(expression_of(&r[0]), "abc");
}

#[test]
fn declared_license_is_one_trimmed_expression() {
    let l = from_declared(" MIT OR Apache-2.0 ".to_string());
    assert_eq!(expression_of(&l), "MIT OR Apache-2.0");
    let l = from_declared_checked(Some("MIT".to_string())).unwrap();
    assert_eq!(expression_of(&l), "MIT");
    assert!(matches!(from_declared_checked(None), Err(LicenseError::MissingLicense)));
}

#[test]
fn emission_is_idempotent() {
    let r = resolve("MIT OR Apache-2.0");
    let first = licenses_xml(&r);
    let second = licenses_xml(&r);
    assert!(!first.is_empty());
    assert_eq!(first, second);
}

#[test]
fn empty_license_list_writes_nothing() {
    let mut sink = XmlSink::new();
    write_licenses(&Vec::new(), &mut sink).unwrap();
    assert!(sink.into_bytes().is_empty());
}

#[test]
fn expression_is_trimmed_and_escaped_in_xml() {
    let r = vec![License::Expression("  A & <B> ".to_string())];
    assert_eq!(xml_text(&r), "<licenses><expression>A &amp; &lt;B&gt;</expression></licenses>");
}

#[test]
fn empty_license_list_gives_no_bytes() {
    assert!(licenses_xml(&Vec::new()).is_empty());
}

#[test]
fn unicode_white_space_is_trimmed() {
    let r = resolve("\u{3000}see the file\u{a0}\n");
    assert_eq!(r.len(), 1);
    assert_eq!(expression_of(&r[0]), "see the file");
}

#[test]
fn fallback_reasons() {
    assert_eq!(resolve_declaration("MIT OR Apache-2.0").1, None);
    assert_eq!(
        resolve_declaration("GPL-2.0-only WITH Classpath-exception-2.0").1,
        Some(FallbackReason::Exception)
    );
    assert_eq!(resolve_declaration("MIT OR LicenseRef-Custom").1, Some(FallbackReason::Reference));
    assert_eq!(
        resolve_declaration("Copyright (c) see LICENSE file").1,
        Some(FallbackReason::Unparsable)
    );
    assert_eq!(fallback_reason(&Some(Vec::new())), Some(FallbackReason::NoRequirements));
    let reqs = vec![requirement(None, false), requirement(Some(("MIT", "MIT License")), true)];
    assert_eq!(fallback_reason(&Some(reqs)), Some(FallbackReason::Reference));
}

#[test]
fn identifier_converts_into_license() {
    let l = License::from(LicenseId::from_static("MIT", "MIT License"));
    assert_eq!(id_of(&l), ("MIT", "MIT License"));
}

#[test]
fn license_to_xml_writes_trimmed_expression() {
    let mut sink = XmlSink::new();
    License::Expression("  Apache-2.0 \n".to_string()).to_xml(&mut sink).unwrap();
    assert_eq!(String::from_utf8(sink.into_bytes()).unwrap(), "<expression>Apache-2.0</expression>");
}

#[test]
fn blank_expression_writes_an_empty_element() {
    let r = vec![License::Expression("   ".to_string())];
    assert_eq!(xml_text(&r), "<licenses><expression></expression></licenses>");
}
