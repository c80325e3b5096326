//! The record that names the tool which produced a document.
use vstd::prelude::*;
use crate::xml::{
    element, lemma_depth_element, lemma_depth_push, lemma_depth_text_element, open_depth, text_element,
    is_tag_name, write_text_element, written, XmlEvent, XmlSink,
};

verus! {

/// Who made a tool, its name and its version; each may be unset.
#[derive(Clone, Copy)]
pub struct Tool {
    pub vendor: Option<&'static str>,
    pub name: Option<&'static str>,
    pub version: Option<&'static str>,
}

/// The events of an optional text element: nothing where the value is unset.
pub open spec fn optional_events(name: Seq<char>, value: Option<&'static str>) -> Seq<XmlEvent> {
    match value {
        Some(t) => text_element(name, t@),
        None => Seq::empty(),
    }
}

/// The content of a `<tool>` element: the fields that are set, in order.
pub open spec fn tool_fields_events(t: Tool) -> Seq<XmlEvent> {
    optional_events("vendor"@, t.vendor) + optional_events("name"@, t.name) + optional_events(
        "version"@,
        t.version,
    )
}

/// The events of one tool.
pub open spec fn tool_events(t: Tool) -> Seq<XmlEvent> {
    element("tool"@, tool_fields_events(t))
}

/// The events of each tool in turn.
pub open spec fn tool_list_events(ts: Seq<Tool>) -> Seq<XmlEvent>
    decreases ts.len(),
{
    if ts.len() == 0 {
        Seq::empty()
    } else {
        tool_list_events(ts.drop_last()) + tool_events(ts.last())
    }
}

/// The events of a list of tools: one `<tools>` element, also when the list
/// is empty.
pub open spec fn tools_events(ts: Seq<Tool>) -> Seq<XmlEvent> {
    element("tools"@, tool_list_events(ts))
}

/// An optional text element leaves the depth as it found it.
proof fn lemma_optional_depth(events: Seq<XmlEvent>, name: Seq<char>, value: Option<&'static str>)
    ensures
        open_depth(events + optional_events(name, value)) == open_depth(events),
{
    match value {
        Some(t) => lemma_depth_text_element(events, name, t@),
        None => assert(events + optional_events(name, value) =~= events),
    }
}

/// Writes the text element `name` where `value` is set, and nothing otherwise.
fn write_optional(sink: &mut XmlSink, name: &'static str, value: Option<&'static str>) -> (r: Result<(), std::io::Error>)
    requires
        is_tag_name(name@),
    ensures
        r is Ok,
        written(*final(sink)) == written(*old(sink)) + optional_events(name@, value),
{
    let ghost w0 = written(*sink);
    match value {
        Some(t) => write_text_element(sink, name, t),
        None => {
            assert(w0 + optional_events(name@, value) =~= w0);
            Ok(())
        },
    }
}

/// One tool leaves the depth as it found it.
pub proof fn lemma_tool_depth(events: Seq<XmlEvent>, t: Tool)
    ensures
        open_depth(events + tool_events(t)) == open_depth(events),
{
    let opened = events.push(XmlEvent::Begin("tool"@));
    let a = optional_events("vendor"@, t.vendor);
    let b = optional_events("name"@, t.name);
    let c = optional_events("version"@, t.version);
    lemma_optional_depth(opened, "vendor"@, t.vendor);
    lemma_optional_depth(opened + a, "name"@, t.name);
    lemma_optional_depth(opened + a + b, "version"@, t.version);
    assert(opened + tool_fields_events(t) =~= opened + a + b + c);
    lemma_depth_element(events, "tool"@, tool_fields_events(t));
}

impl Tool {
    /// Writes this tool into `sink`: a `<tool>` element holding `<vendor>`,
    /// `<name>` and `<version>` in that order, each only where it is set. A
    /// write failure is returned at once.
    pub fn to_xml(&self, sink: &mut XmlSink) -> (r: Result<(), std::io::Error>)
        ensures
            r is Ok,
            written(*final(sink)) == written(*old(sink)) + tool_events(*self),
    {
        let ghost w0 = written(*sink);
        proof {
            reveal_strlit("tool");
            reveal_strlit("vendor");
            reveal_strlit("name");
            reveal_strlit("version");
        }
        sink.begin("tool")?;
        let ghost w1 = written(*sink);
        proof {
            lemma_depth_push(w0, XmlEvent::Begin("tool"@));
        }
        write_optional(sink, "vendor", self.vendor)?;
        let ghost w2 = written(*sink);
        write_optional(sink, "name", self.name)?;
        let ghost w3 = written(*sink);
        write_optional(sink, "version", self.version)?;
        proof {
            lemma_optional_depth(w1, "vendor"@, self.vendor);
            lemma_optional_depth(w2, "name"@, self.name);
            lemma_optional_depth(w3, "version"@, self.version);
        }
        let r = sink.end();
        assert(written(*sink) =~= w0 + tool_events(*self));
        r
    }
}

/// Writes a list of tools into `sink`: one `<tools>` element around each
/// tool in order, written also when the list is empty. A write failure is
/// returned at once.
pub fn write_tools(tools: &Vec<Tool>, sink: &mut XmlSink) -> (r: Result<(), std::io::Error>)
    ensures
        r is Ok,
        written(*final(sink)) == written(*old(sink)) + tools_events(tools@),
{
    let ghost w0 = written(*sink);
    let ghost ts = tools@;
    proof {
        reveal_strlit("tools");
    }
    sink.begin("tools")?;
    let ghost w1 = written(*sink);
    proof {
        lemma_depth_push(w0, XmlEvent::Begin("tools"@));
    }
    let mut i: usize = 0;
    while i < tools.len()
        invariant
            0 <= i <= tools.len(),
            ts == tools@,
            w1 == w0.push(XmlEvent::Begin("tools"@)),
            open_depth(written(*sink)) == open_depth(w0) + 1,
            written(*sink) == w1 + tool_list_events(ts.take(i as int)),
        decreases tools.len() - i,
    {
        let ghost before = written(*sink);
        tools[i].to_xml(sink)?;
        proof {
            assert(ts.take(i + 1).drop_last() =~= ts.take(i as int));
            assert(written(*sink) =~= w1 + tool_list_events(ts.take(i + 1)));
            lemma_tool_depth(before, ts[i as int]);
        }
        i = i + 1;
    }
    proof {
        assert(ts.take(i as int) =~= ts);
    }
    let r = sink.end();
    assert(written(*sink) =~= w0 + tools_events(ts));
    r
}

/// An empty list of tools is not suppressed: it still writes an empty
/// `<tools>` element.
pub proof fn lemma_empty_tools_kept()
    ensures
        tools_events(Seq::<Tool>::empty()) == seq![XmlEvent::Begin("tools"@), XmlEvent::End],
{
    assert(tools_events(Seq::<Tool>::empty()) =~= seq![XmlEvent::Begin("tools"@), XmlEvent::End]);
}

} // verus!
