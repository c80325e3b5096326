use cyclonedx_license::tool::{write_tools, Tool};
use cyclonedx_license::xml::XmlSink;

fn tools_xml(tools: &Vec<Tool>) -> String {
    let mut sink = XmlSink::new();
    write_tools(tools, &mut sink).unwrap();
    String::from_utf8(sink.into_bytes()).unwrap()
}

#[test]
fn empty_tool_list_keeps_wrapper() {
    assert_eq!(tools_xml(&Vec::new()), "<tools></tools>");
}

#[test]
fn tool_writes_only_set_fields() {
    let full = Tool { vendor: Some("cyclonedx.org"), name: Some("cyclonedx-rust-cargo"), version: Some("1.0") };
    let partial = Tool { vendor: None, name: Some("x"), version: None };
    assert_eq!(
        tools_xml(&vec![full, partial]),
        "<tools><tool><vendor>cyclonedx.org</vendor><name>cyclonedx-rust-cargo</name><version>1.0</version></tool><tool><name>x</name></tool></tools>"
    );
}

#[test]
fn tool_without_fields_is_an_empty_element() {
    let bare = Tool { vendor: None, name: None, version: None };
    assert_eq!(tools_xml(&vec![bare]), "<tools><tool></tool></tools>");
}

#[test]
fn empty_field_text_writes_an_empty_element() {
    let t = Tool { vendor: Some(""), name: Some("x"), version: None };
    assert_eq!(tools_xml(&vec![t]), "<tools><tool><vendor></vendor><name>x</name></tool></tools>");
}
