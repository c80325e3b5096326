//! A scoped XML sink over `xml_writer`, with a model of what has been written.
use vstd::prelude::*;
use xml_writer::XmlWriter;

verus! {

/// A document sink: an `xml_writer::XmlWriter` that writes compact XML
/// (no indentation) into memory. Its model is the sequence of events whose
/// writes have succeeded on it, `written(sink)`.
#[verifier::external_body]
pub struct XmlSink {
    writer: XmlWriter<'static, Vec<u8>>,
}

#[verifier::external_type_specification]
#[verifier::external_body]
pub struct ExIoError(std::io::Error);

/// One step of a document: open an element, write text into the open
/// element, or close the innermost open element.
pub ghost enum XmlEvent {
    Begin(Seq<char>),
    Text(Seq<char>),
    End,
}

/// The events of the calls that have succeeded on a sink since it was made.
/// Each such history leaves a different writer: names are lower-case
/// letters, and a text, never empty, comes right after an opening tag and is
/// written escaped.
pub uninterp spec fn written(w: XmlSink) -> Seq<XmlEvent>;

/// Whether `name` is a tag name that this library writes: one or more
/// lower-case ASCII letters.
pub open spec fn is_tag_name(name: Seq<char>) -> bool {
    name.len() > 0 && forall|i: int| 0 <= i < name.len() ==> 'a' <= #[trigger] name[i] <= 'z'
}

/// Whether a text may be written next: the last event opened an element.
pub open spec fn text_allowed(events: Seq<XmlEvent>) -> bool {
    events.len() > 0 && events.last() is Begin
}

/// The bytes that a compact writer produces for a sequence of events.
pub uninterp spec fn rendered(events: Seq<XmlEvent>) -> Seq<u8>;

/// Number of elements left open after a sequence of events (a close with
/// nothing open is not counted).
pub open spec fn open_depth(events: Seq<XmlEvent>) -> nat
    decreases events.len(),
{
    if events.len() == 0 {
        0
    } else {
        let d = open_depth(events.drop_last());
        match events.last() {
            XmlEvent::Begin(_) => d + 1,
            XmlEvent::Text(_) => d,
            XmlEvent::End => if d > 0 {
                (d - 1) as nat
            } else {
                0
            },
        }
    }
}

/// Relies on xml_writer::XmlWriter::new over an empty `Vec<u8>`, with
/// indentation switched off: nothing has been written yet.
#[verifier::external_body]
fn new_writer() -> (r: XmlSink)
    ensures
        written(r) == Seq::<XmlEvent>::empty(),
{
    let mut writer = XmlWriter::new(Vec::new());
    writer.pretty = false;
    XmlSink { writer }
}

/// Relies on xml_writer::XmlWriter::begin_elem, which fails only where the
/// inner writer fails, and a `Vec<u8>` never does: an element named `name`
/// is open.
#[verifier::external_body]
fn writer_begin(w: &mut XmlSink, name: &'static str) -> (r: Result<(), std::io::Error>)
    requires
        is_tag_name(name@),
    ensures
        r is Ok,
        written(*final(w)) == written(*old(w)).push(XmlEvent::Begin(name@)),
{
    w.writer.begin_elem(name)
}

/// Relies on xml_writer::XmlWriter::text, which fails only where the inner
/// writer fails, and a `Vec<u8>` never does: `text` is written, escaped,
/// into the open element.
#[verifier::external_body]
fn writer_text(w: &mut XmlSink, text: &str) -> (r: Result<(), std::io::Error>)
    requires
        text@.len() > 0,
        text_allowed(written(*old(w))),
    ensures
        r is Ok,
        written(*final(w)) == written(*old(w)).push(XmlEvent::Text(text@)),
{
    w.writer.text(text)
}

/// Relies on xml_writer::XmlWriter::end_elem, which panics when no element
/// is open and fails only where the inner writer fails, and a `Vec<u8>`
/// never does: the innermost open element is closed.
#[verifier::external_body]
fn writer_end(w: &mut XmlSink) -> (r: Result<(), std::io::Error>)
    requires
        open_depth(written(*old(w))) > 0,
    ensures
        r is Ok,
        written(*final(w)) == written(*old(w)).push(XmlEvent::End),
{
    w.writer.end_elem()
}

/// Relies on xml_writer::XmlWriter::into_inner: the bytes written so far;
/// none where nothing was written.
#[verifier::external_body]
fn writer_bytes(w: XmlSink) -> (r: Vec<u8>)
    ensures
        r@ == rendered(written(w)),
        written(w).len() == 0 ==> r@.len() == 0,
{
    w.writer.into_inner()
}

} // verus!

verus! {

impl XmlSink {
    /// A sink with nothing written yet.
    pub fn new() -> (r: XmlSink)
        ensures
            written(r) == Seq::<XmlEvent>::empty(),
    {
        new_writer()
    }

    /// The compact XML written so far.
    pub fn into_bytes(self) -> (r: Vec<u8>)
        ensures
            r@ == rendered(written(self)),
            written(self).len() == 0 ==> r@.len() == 0,
    {
        writer_bytes(self)
    }

    /// Opens an element named `name`.
    pub fn begin(&mut self, name: &'static str) -> (r: Result<(), std::io::Error>)
        requires
            is_tag_name(name@),
        ensures
            r is Ok,
            written(*final(self)) == written(*old(self)).push(XmlEvent::Begin(name@)),
    {
        writer_begin(self, name)
    }

    /// Writes `text`, which is not empty, into the element just opened.
    pub fn text(&mut self, text: &str) -> (r: Result<(), std::io::Error>)
        requires
            text@.len() > 0,
            text_allowed(written(*old(self))),
        ensures
            r is Ok,
            written(*final(self)) == written(*old(self)).push(XmlEvent::Text(text@)),
    {
        writer_text(self, text)
    }

    /// Closes the innermost open element.
    pub fn end(&mut self) -> (r: Result<(), std::io::Error>)
        requires
            open_depth(written(*old(self))) > 0,
        ensures
            r is Ok,
            written(*final(self)) == written(*old(self)).push(XmlEvent::End),
    {
        writer_end(self)
    }
}

/// Opening an element adds one to the depth; text leaves it; closing one
/// takes one away.
pub proof fn lemma_depth_push(events: Seq<XmlEvent>, e: XmlEvent)
    ensures
        e is Begin ==> open_depth(events.push(e)) == open_depth(events) + 1,
        e is Text ==> open_depth(events.push(e)) == open_depth(events),
        e is End && open_depth(events) > 0 ==> open_depth(events.push(e)) == open_depth(events) - 1,
{
    assert(events.push(e).drop_last() =~= events);
}

/// The events of an element named `name` whose content is `inner`.
pub open spec fn element(name: Seq<char>, inner: Seq<XmlEvent>) -> Seq<XmlEvent> {
    seq![XmlEvent::Begin(name)] + inner + seq![XmlEvent::End]
}

/// The events of an element named `name` that holds the text `text`; an
/// empty text writes no text event, which gives the same XML.
pub open spec fn text_element(name: Seq<char>, text: Seq<char>) -> Seq<XmlEvent> {
    if text.len() == 0 {
        element(name, Seq::empty())
    } else {
        element(name, seq![XmlEvent::Text(text)])
    }
}

/// An element whose content leaves the depth as it found it leaves the
/// depth as it found it.
pub proof fn lemma_depth_element(events: Seq<XmlEvent>, name: Seq<char>, inner: Seq<XmlEvent>)
    requires
        open_depth(events.push(XmlEvent::Begin(name)) + inner) == open_depth(
            events.push(XmlEvent::Begin(name)),
        ),
    ensures
        open_depth(events + element(name, inner)) == open_depth(events),
{
    let opened = events.push(XmlEvent::Begin(name));
    lemma_depth_push(events, XmlEvent::Begin(name));
    lemma_depth_push(opened + inner, XmlEvent::End);
    assert(events + element(name, inner) =~= (opened + inner).push(XmlEvent::End));
}

/// An element holding one text leaves the depth as it found it.
pub proof fn lemma_depth_text_element(events: Seq<XmlEvent>, name: Seq<char>, text: Seq<char>)
    ensures
        open_depth(events + text_element(name, text)) == open_depth(events),
{
    let opened = events.push(XmlEvent::Begin(name));
    if text.len() == 0 {
        assert(opened + Seq::<XmlEvent>::empty() =~= opened);
        lemma_depth_element(events, name, Seq::empty());
    } else {
        lemma_depth_push(opened, XmlEvent::Text(text));
        assert(opened + seq![XmlEvent::Text(text)] =~= opened.push(XmlEvent::Text(text)));
        lemma_depth_element(events, name, seq![XmlEvent::Text(text)]);
    }
}

/// Writes an element named `name` that holds `text`: the text is left out
/// where it is empty, which gives the same XML.
pub fn write_text_element(sink: &mut XmlSink, name: &'static str, text: &str) -> (r: Result<(), std::io::Error>)
    requires
        is_tag_name(name@),
    ensures
        r is Ok,
        written(*final(sink)) == written(*old(sink)) + text_element(name@, text@),
{
    let ghost w0 = written(*sink);
    sink.begin(name)?;
    proof {
        lemma_depth_push(w0, XmlEvent::Begin(name@));
    }
    if text.unicode_len() > 0 {
        sink.text(text)?;
        proof {
            lemma_depth_push(w0.push(XmlEvent::Begin(name@)), XmlEvent::Text(text@));
        }
    }
    let r = sink.end();
    assert(written(*sink) =~= w0 + text_element(name@, text@));
    r
}

} // verus!
