//! Resolution of a free-form license declaration into SPDX identifiers, with
//! a fallback to the declaration's text.
use vstd::prelude::*;
use crate::xml::{
    element, rendered, lemma_depth_element, lemma_depth_push, lemma_depth_text_element, open_depth, text_element,
    write_text_element, written, XmlEvent, XmlSink,
};

verus! {

/// A recognized SPDX license: its short identifier and its full name.
pub struct LicenseId {
    pub name: String,
    pub full_name: String,
}

/// A resolved license: either one recognized identifier, or an opaque
/// expression kept as text.
pub enum License {
    Expression(String),
    Id(LicenseId),
}

/// The only hard error of resolution: no license was declared at all.
#[derive(Debug, Clone, Copy, PartialEq, Eq, Structural)]
pub enum LicenseError {
    MissingLicense,
}

/// One requirement of a parsed license expression: the recognized license it
/// names (`None` for a reference to a custom license text), and whether it
/// carries a `WITH` exception.
pub struct Requirement {
    pub license: Option<LicenseId>,
    pub exception: bool,
}

/// Why a declaration was kept as one expression instead of identifiers.
#[derive(Debug, Clone, Copy, PartialEq, Eq, Structural)]
pub enum FallbackReason {
    /// The grammar could not parse the declaration.
    Unparsable,
    /// The parse held no requirement.
    NoRequirements,
    /// A requirement carries a `WITH` exception.
    Exception,
    /// A requirement refers to a custom license text.
    Reference,
}

impl From<LicenseId> for License {
    fn from(id: LicenseId) -> (r: License) {
        License::Id(id)
    }
}

impl vstd::std_specs::convert::FromSpecImpl<LicenseId> for License {
    open spec fn obeys_from_spec() -> bool {
        true
    }

    open spec fn from_spec(id: LicenseId) -> License {
        License::Id(id)
    }
}

/// The model of a resolved license.
pub ghost enum LicenseView {
    Expression(Seq<char>),
    Id(Seq<char>, Seq<char>),
}

impl View for LicenseId {
    type V = (Seq<char>, Seq<char>);

    open spec fn view(&self) -> (Seq<char>, Seq<char>) {
        (self.name@, self.full_name@)
    }
}

impl View for License {
    type V = LicenseView;

    open spec fn view(&self) -> LicenseView {
        match self {
            License::Expression(t) => LicenseView::Expression(t@),
            License::Id(id) => LicenseView::Id(id.name@, id.full_name@),
        }
    }
}

impl View for Requirement {
    type V = (Option<(Seq<char>, Seq<char>)>, bool);

    open spec fn view(&self) -> (Option<(Seq<char>, Seq<char>)>, bool) {
        (
            match self.license {
                Some(id) => Some(id@),
                None => None,
            },
            self.exception,
        )
    }
}

/// The requirements that the SPDX grammar, in lax mode, finds in `text`, in
/// the order in which the expression lists them; `None` where `text` does not
/// parse.
pub uninterp spec fn lax_requirements(text: Seq<char>) -> Option<
    Seq<(Option<(Seq<char>, Seq<char>)>, bool)>,
>;

/// Whether `c` has the Unicode `White_Space` property, which is what
/// `char::is_whitespace` tests.
pub open spec fn is_white_space(c: char) -> bool {
    ('\u{9}' <= c <= '\u{d}') || c == ' ' || c == '\u{85}' || c == '\u{a0}' || c == '\u{1680}'
        || ('\u{2000}' <= c <= '\u{200a}') || c == '\u{2028}' || c == '\u{2029}' || c
        == '\u{202f}' || c == '\u{205f}' || c == '\u{3000}'
}

/// The number of white-space characters that `text` starts with.
pub open spec fn leading_white_space(text: Seq<char>) -> nat
    decreases text.len(),
{
    if text.len() > 0 && is_white_space(text[0]) {
        1 + leading_white_space(text.drop_first())
    } else {
        0
    }
}

/// The number of white-space characters that `text` ends with.
pub open spec fn trailing_white_space(text: Seq<char>) -> nat
    decreases text.len(),
{
    if text.len() > 0 && is_white_space(text.last()) {
        1 + trailing_white_space(text.drop_last())
    } else {
        0
    }
}

/// `text` without its leading and trailing white space.
pub open spec fn trimmed(text: Seq<char>) -> Seq<char> {
    let start = leading_white_space(text);
    if start >= text.len() {
        Seq::empty()
    } else {
        text.subrange(start as int, text.len() - trailing_white_space(text))
    }
}

/// Relies on spdx::Expression::parse_mode in lax mode, and on
/// Expression::requirements for the requirements in their order.
#[verifier::external_body]
fn parse_lax(text: &str) -> (r: Option<Vec<Requirement>>)
    ensures
        requirements_view(r) == lax_requirements(text@),
{
    match spdx::Expression::parse_mode(text, spdx::ParseMode::LAX) {
        Ok(e) => Some(e.requirements().map(|r| Requirement {
            license: r.req.license.id().map(|i| LicenseId::from_static(i.name, i.full_name)),
            exception: r.req.addition.is_some(),
        }).collect()),
        Err(_) => None,
    }
}

/// Relies on str::trim: the text without leading and trailing white space,
/// as `char::is_whitespace` defines it.
#[verifier::external_body]
fn trim_text(text: &str) -> (r: String)
    ensures
        r@ == trimmed(text@),
{
    text.trim().to_string()
}

/// The model of what the grammar handed back.
pub open spec fn requirements_view(reqs: Option<Vec<Requirement>>) -> Option<
    Seq<(Option<(Seq<char>, Seq<char>)>, bool)>,
> {
    match reqs {
        Some(v) => Some(v@.map_values(|r: Requirement| r@)),
        None => None,
    }
}

/// Whether a requirement names a recognized license without an exception.
pub open spec fn is_plain(req: (Option<(Seq<char>, Seq<char>)>, bool)) -> bool {
    req.0 is Some && !req.1
}

/// Whether a list of requirements can be structured as a whole: it is not
/// empty, and each of its requirements is plain.
pub open spec fn structurable(reqs: Seq<(Option<(Seq<char>, Seq<char>)>, bool)>) -> bool {
    reqs.len() > 0 && forall|i: int| 0 <= i < reqs.len() ==> is_plain(#[trigger] reqs[i])
}

/// The identifier record of a plain requirement.
pub open spec fn identifier_of(req: (Option<(Seq<char>, Seq<char>)>, bool)) -> LicenseView {
    LicenseView::Id(req.0->Some_0.0, req.0->Some_0.1)
}

/// The records that a declaration `text` resolves to, given what the
/// grammar found in it: one identifier per requirement where all of them are
/// plain, and otherwise the trimmed text as one expression.
pub open spec fn resolution(
    text: Seq<char>,
    reqs: Option<Seq<(Option<(Seq<char>, Seq<char>)>, bool)>>,
) -> Seq<LicenseView> {
    if reqs is Some && structurable(reqs->Some_0) {
        reqs->Some_0.map_values(|r: (Option<(Seq<char>, Seq<char>)>, bool)| identifier_of(r))
    } else {
        seq![LicenseView::Expression(trimmed(text))]
    }
}

/// The model of a list of resolved licenses.
pub open spec fn licenses_view(licenses: Seq<License>) -> Seq<LicenseView> {
    licenses.map_values(|l: License| l@)
}

impl LicenseId {
    /// An identifier from the registry's short and full names.
    pub fn from_static(name: &str, full_name: &str) -> (r: LicenseId)
        ensures
            r@ == (name@, full_name@),
    {
        LicenseId { name: name.to_string(), full_name: full_name.to_string() }
    }

    /// A copy of this identifier.
    pub fn duplicate(&self) -> (r: LicenseId)
        ensures
            r@ == self@,
    {
        LicenseId { name: self.name.clone(), full_name: self.full_name.clone() }
    }
}

/// Resolves the declaration `text`, given the requirements that the grammar
/// found in it (`None` where it did not parse). A single pass collects one
/// identifier per requirement, and abandons them all at the first one with
/// an exception or a reference to a custom license.
pub fn resolve_requirements(text: &str, reqs: Option<Vec<Requirement>>) -> (r: Vec<License>)
    ensures
        licenses_view(r@) == resolution(text@, requirements_view(reqs)),
{
    let mut out: Vec<License> = Vec::new();
    if let Some(rs) = reqs {
        let n = rs.len();
        let mut i: usize = 0;
        let mut abandoned = false;
        while i < n && !abandoned
            invariant
                n == rs.len(),
                0 <= i <= n,
                !abandoned ==> forall|j: int| 0 <= j < i ==> is_plain(#[trigger] rs@[j]@),
                !abandoned ==> licenses_view(out@) =~= rs@.take(i as int).map_values(
                    |r: Requirement| identifier_of(r@),
                ),
                abandoned ==> out@.len() == 0,
                abandoned ==> exists|j: int| 0 <= j < n && !is_plain(#[trigger] rs@[j]@),
            decreases n - i + (if abandoned { 0int } else { 1int }),
        {
            let req = &rs[i];
            if req.exception {
                out.clear();
                abandoned = true;
                assert(!is_plain(rs@[i as int]@));
            } else {
                match &req.license {
                    Some(id) => {
                        let ghost before = out@;
                        out.push(License::from(id.duplicate()));
                        proof {
                            assert(rs@.take(i + 1) =~= rs@.take(i as int).push(rs@[i as int]));
                            assert(licenses_view(out@) =~= licenses_view(before).push(
                                identifier_of(rs@[i as int]@),
                            ));
                        }
                        i = i + 1;
                    },
                    None => {
                        out.clear();
                        abandoned = true;
                        assert(!is_plain(rs@[i as int]@));
                    },
                }
            }
        }
        proof {
            let rv = rs@.map_values(|r: Requirement| r@);
            if abandoned {
                let j = choose|j: int| 0 <= j < n && !is_plain(#[trigger] rs@[j]@);
                assert(rv[j] == rs@[j]@);
                assert(!structurable(rv));
            } else {
                assert(rs@.take(n as int) =~= rs@);
                assert forall|j: int| 0 <= j < rv.len() implies is_plain(#[trigger] rv[j]) by {
                    assert(rv[j] == rs@[j]@);
                }
                if n > 0 {
                    assert(structurable(rv));
                    assert(licenses_view(out@) =~= rv.map_values(
                        |r: (Option<(Seq<char>, Seq<char>)>, bool)| identifier_of(r),
                    ));
                } else {
                    assert(!structurable(rv));
                }
            }
        }
    }
    if out.len() > 0 {
        out
    } else {
        let fallback = vec![License::Expression(trim_text(text))];
        assert(licenses_view(fallback@) =~= seq![LicenseView::Expression(trimmed(text@))]);
        fallback
    }
}

/// The first problem among requirements, in order: an exception, or a
/// reference to a custom license; `None` where every requirement is plain.
pub open spec fn first_problem(reqs: Seq<(Option<(Seq<char>, Seq<char>)>, bool)>) -> Option<
    FallbackReason,
>
    decreases reqs.len(),
{
    if reqs.len() == 0 {
        None
    } else if reqs[0].1 {
        Some(FallbackReason::Exception)
    } else if reqs[0].0 is None {
        Some(FallbackReason::Reference)
    } else {
        first_problem(reqs.drop_first())
    }
}

/// Why a declaration falls back to an expression, given what the grammar
/// found in it; `None` where it resolves to identifiers.
pub open spec fn reason_of(reqs: Option<Seq<(Option<(Seq<char>, Seq<char>)>, bool)>>) -> Option<
    FallbackReason,
> {
    match reqs {
        None => Some(FallbackReason::Unparsable),
        Some(rs) => if rs.len() == 0 {
            Some(FallbackReason::NoRequirements)
        } else {
            first_problem(rs)
        },
    }
}

/// Requirements have no problem exactly when all of them are plain.
proof fn lemma_first_problem_plain(reqs: Seq<(Option<(Seq<char>, Seq<char>)>, bool)>)
    ensures
        first_problem(reqs) is None <==> forall|i: int| 0 <= i < reqs.len() ==> is_plain(#[trigger] reqs[i]),
    decreases reqs.len(),
{
    if reqs.len() > 0 {
        let rest = reqs.drop_first();
        lemma_first_problem_plain(rest);
        assert forall|i: int| 0 < i < reqs.len() implies reqs[i] == rest[i - 1] by {}
        if first_problem(reqs) is None {
            assert forall|i: int| 0 <= i < reqs.len() implies is_plain(#[trigger] reqs[i]) by {
                if i > 0 {
                    assert(is_plain(rest[i - 1]));
                }
            }
        }
        if forall|i: int| 0 <= i < reqs.len() ==> is_plain(#[trigger] reqs[i]) {
            assert(is_plain(reqs[0]));
            assert forall|i: int| 0 <= i < rest.len() implies is_plain(#[trigger] rest[i]) by {
                assert(is_plain(reqs[i + 1]));
            }
        }
    }
}

/// Why the declaration that gave `reqs` falls back to an expression, or
/// `None` where it resolves to identifiers.
pub fn fallback_reason(reqs: &Option<Vec<Requirement>>) -> (r: Option<FallbackReason>)
    ensures
        r == reason_of(requirements_view(*reqs)),
        r is None <==> (requirements_view(*reqs) is Some && structurable(
            requirements_view(*reqs)->Some_0,
        )),
{
    match reqs {
        None => Some(FallbackReason::Unparsable),
        Some(rs) => {
            let ghost rv = rs@.map_values(|r: Requirement| r@);
            proof {
                lemma_first_problem_plain(rv);
                assert(requirements_view(*reqs) == Some(rv));
                assert(rv.skip(0) =~= rv);
            }
            if rs.len() == 0 {
                return Some(FallbackReason::NoRequirements);
            }
            let mut i: usize = 0;
            while i < rs.len()
                invariant
                    0 <= i <= rs.len(),
                    rv == rs@.map_values(|r: Requirement| r@),
                    rv.len() > 0,
                    requirements_view(*reqs) == Some(rv),
                    first_problem(rv) == first_problem(rv.skip(i as int)),
                decreases rs.len() - i,
            {
                let ghost tail = rv.skip(i as int);
                assert(tail.len() > 0);
                assert(tail[0] == rs@[i as int]@);
                assert(tail.drop_first() =~= rv.skip(i + 1));
                if rs[i].exception {
                    assert(first_problem(tail) == Some(FallbackReason::Exception));
                    return Some(FallbackReason::Exception);
                }
                if rs[i].license.is_none() {
                    assert(tail[0].0 is None);
                    assert(first_problem(tail) == Some(FallbackReason::Reference));
                    return Some(FallbackReason::Reference);
                }
                assert(first_problem(tail) == first_problem(tail.drop_first()));
                i = i + 1;
            }
            assert(rv.skip(i as int).len() == 0);
            None
        },
    }
}

/// Resolves the declaration `text` under the SPDX grammar in lax mode, and
/// says why it fell back to an expression where it did.
pub fn resolve_declaration(text: &str) -> (r: (Vec<License>, Option<FallbackReason>))
    ensures
        licenses_view(r.0@) == resolution(text@, lax_requirements(text@)),
        r.1 == reason_of(lax_requirements(text@)),
{
    let reqs = parse_lax(text);
    let reason = fallback_reason(&reqs);
    (resolve_requirements(text, reqs), reason)
}

/// Resolves a declared license: `MissingLicense` where none was declared,
/// and otherwise the records that the declaration resolves to under the SPDX
/// grammar in lax mode. A declaration that cannot be structured is never an
/// error: it is kept as one expression.
pub fn try_parse_licenses(raw: Option<String>) -> (r: Result<Vec<License>, LicenseError>)
    ensures
        raw is None <==> r == Err::<Vec<License>, LicenseError>(LicenseError::MissingLicense),
        raw matches Some(text) ==> r matches Ok(v) && licenses_view(v@) == resolution(
            text@,
            lax_requirements(text@),
        ),
{
    match raw {
        None => Err(LicenseError::MissingLicense),
        Some(text) => Ok(resolve_declaration(text.as_str()).0),
    }
}

/// A license declared by a metadata source without grammar support: always
/// one expression, holding the trimmed text.
pub fn from_declared(raw: String) -> (r: License)
    ensures
        r@ == LicenseView::Expression(trimmed(raw@)),
{
    License::Expression(trim_text(raw.as_str()))
}

/// As `from_declared`, where the declaration may be absent: `MissingLicense`
/// exactly when it is.
pub fn from_declared_checked(raw: Option<String>) -> (r: Result<License, LicenseError>)
    ensures
        raw is None <==> r == Err::<License, LicenseError>(LicenseError::MissingLicense),
        raw matches Some(text) ==> r matches Ok(l) && l@ == LicenseView::Expression(
            trimmed(text@),
        ),
{
    match raw {
        None => Err(LicenseError::MissingLicense),
        Some(text) => Ok(from_declared(text)),
    }
}

/// The events of one license: an `<expression>` holding the trimmed text, or
/// a `<license>` holding an `<id>` with the full name.
pub open spec fn license_events(l: LicenseView) -> Seq<XmlEvent> {
    match l {
        LicenseView::Expression(t) => text_element("expression"@, trimmed(t)),
        LicenseView::Id(_, full_name) => element("license"@, text_element("id"@, full_name)),
    }
}

/// The events of each license in turn.
pub open spec fn license_list_events(ls: Seq<LicenseView>) -> Seq<XmlEvent>
    decreases ls.len(),
{
    if ls.len() == 0 {
        Seq::empty()
    } else {
        license_list_events(ls.drop_last()) + license_events(ls.last())
    }
}

/// The events of a list of licenses: nothing for an empty list, and
/// otherwise one `<licenses>` element around the licenses in order.
pub open spec fn licenses_events(ls: Seq<LicenseView>) -> Seq<XmlEvent> {
    if ls.len() == 0 {
        Seq::empty()
    } else {
        element("licenses"@, license_list_events(ls))
    }
}

/// The events of one license leave the depth as they found it.
pub proof fn lemma_license_depth(events: Seq<XmlEvent>, l: LicenseView)
    ensures
        open_depth(events + license_events(l)) == open_depth(events),
{
    match l {
        LicenseView::Expression(t) => {
            lemma_depth_text_element(events, "expression"@, trimmed(t));
        },
        LicenseView::Id(_, full_name) => {
            lemma_depth_text_element(events.push(XmlEvent::Begin("license"@)), "id"@, full_name);
            lemma_depth_element(events, "license"@, text_element("id"@, full_name));
        },
    }
}

impl License {
    /// Writes this license into `sink`. A write failure is returned at
    /// once; on success exactly the license's events were added.
    pub fn to_xml(&self, sink: &mut XmlSink) -> (r: Result<(), std::io::Error>)
        ensures
            r is Ok,
            written(*final(sink)) == written(*old(sink)) + license_events(self@),
    {
        let ghost w0 = written(*sink);
        match self {
            License::Expression(expr) => {
                let t = trim_text(expr.as_str());
                proof {
                    reveal_strlit("expression");
                }
                write_text_element(sink, "expression", t.as_str())
            },
            License::Id(id) => {
                proof {
                    reveal_strlit("license");
                    reveal_strlit("id");
                }
                sink.begin("license")?;
                let ghost w1 = written(*sink);
                proof {
                    lemma_depth_push(w0, XmlEvent::Begin("license"@));
                }
                write_text_element(sink, "id", id.full_name.as_str())?;
                proof {
                    lemma_depth_text_element(w1, "id"@, id.full_name@);
                }
                let r = sink.end();
                assert(written(*sink) =~= w0 + license_events(self@));
                r
            },
        }
    }
}

/// Writes a list of licenses into `sink`: nothing at all for an empty list,
/// and otherwise one `<licenses>` element around each license in order. A
/// write failure is returned at once.
pub fn write_licenses(licenses: &Vec<License>, sink: &mut XmlSink) -> (r: Result<(), std::io::Error>)
    ensures
        r is Ok,
        written(*final(sink)) == written(*old(sink)) + licenses_events(
            licenses_view(licenses@),
        ),
        licenses@.len() == 0 ==> written(*final(sink)) == written(*old(sink)),
{
    let ghost w0 = written(*sink);
    let ghost ls = licenses_view(licenses@);
    if licenses.len() == 0 {
        assert(w0 + licenses_events(ls) =~= w0);
        return Ok(());
    }
    proof {
        reveal_strlit("licenses");
    }
    sink.begin("licenses")?;
    let ghost w1 = written(*sink);
    proof {
        lemma_depth_push(w0, XmlEvent::Begin("licenses"@));
    }
    let mut i: usize = 0;
    while i < licenses.len()
        invariant
            0 <= i <= licenses.len(),
            ls == licenses_view(licenses@),
            w1 == w0.push(XmlEvent::Begin("licenses"@)),
            open_depth(written(*sink)) == open_depth(w0) + 1,
            written(*sink) == w1 + license_list_events(ls.take(i as int)),
        decreases licenses.len() - i,
    {
        let ghost before = written(*sink);
        licenses[i].to_xml(sink)?;
        proof {
            assert(ls.take(i + 1).drop_last() =~= ls.take(i as int));
            assert(ls.take(i + 1).last() == licenses@[i as int]@);
            assert(written(*sink) =~= w1 + license_list_events(ls.take(i + 1)));
            lemma_license_depth(before, licenses@[i as int]@);
        }
        i = i + 1;
    }
    proof {
        assert(ls.take(i as int) =~= ls);
    }
    let r = sink.end();
    assert(written(*sink) =~= w0 + licenses_events(ls));
    r
}

/// A declaration that parses as one recognized license, with no exception,
/// resolves to exactly that identifier.
pub proof fn lemma_single_identifier(text: Seq<char>, id: (Seq<char>, Seq<char>))
    requires
        text.len() > 0,
        lax_requirements(text) == Some(seq![(Some(id), false)]),
    ensures
        resolution(text, lax_requirements(text)) == seq![LicenseView::Id(id.0, id.1)],
{
    let rs = seq![(Some(id), false)];
    assert(is_plain(rs[0]));
    assert(structurable(rs));
    assert(rs.map_values(|r: (Option<(Seq<char>, Seq<char>)>, bool)| identifier_of(r)) =~= seq![
        LicenseView::Id(id.0, id.1),
    ]);
}

/// A declaration that combines two recognized licenses, neither with an
/// exception, resolves to the two identifiers in the order written.
pub proof fn lemma_two_identifiers(
    text: Seq<char>,
    first: (Seq<char>, Seq<char>),
    second: (Seq<char>, Seq<char>),
)
    requires
        lax_requirements(text) == Some(seq![(Some(first), false), (Some(second), false)]),
    ensures
        resolution(text, lax_requirements(text)) == seq![
            LicenseView::Id(first.0, first.1),
            LicenseView::Id(second.0, second.1),
        ],
{
    let rs = seq![(Some(first), false), (Some(second), false)];
    assert(is_plain(rs[0]) && is_plain(rs[1]));
    assert(structurable(rs));
    assert(rs.map_values(|r: (Option<(Seq<char>, Seq<char>)>, bool)| identifier_of(r)) =~= seq![
        LicenseView::Id(first.0, first.1),
        LicenseView::Id(second.0, second.1),
    ]);
}

/// A declaration with a `WITH` exception anywhere among its requirements
/// resolves to one expression, its trimmed text, however many requirements
/// came before.
pub proof fn lemma_exception_falls_back(text: Seq<char>, k: int)
    requires
        lax_requirements(text) is Some,
        0 <= k < lax_requirements(text)->Some_0.len(),
        lax_requirements(text)->Some_0[k].1,
    ensures
        resolution(text, lax_requirements(text)) == seq![LicenseView::Expression(trimmed(text))],
{
    assert(!is_plain(lax_requirements(text)->Some_0[k]));
}

/// A declaration that the grammar cannot parse resolves to one expression,
/// its trimmed text.
pub proof fn lemma_unparsable_falls_back(text: Seq<char>)
    requires
        lax_requirements(text) is None,
    ensures
        resolution(text, lax_requirements(text)) == seq![LicenseView::Expression(trimmed(text))],
{
}

/// The compact XML of a list of licenses, written into a fresh sink.
pub fn licenses_xml(licenses: &Vec<License>) -> (r: Vec<u8>)
    ensures
        r@ == rendered(licenses_events(licenses_view(licenses@))),
        licenses@.len() == 0 ==> r@.len() == 0,
{
    let mut sink = XmlSink::new();
    let _ = write_licenses(licenses, &mut sink);
    assert(written(sink) =~= licenses_events(licenses_view(licenses@)));
    sink.into_bytes()
}

/// Emission is idempotent: the same licenses, written twice into fresh
/// sinks, give byte-identical output.
pub proof fn lemma_emission_idempotent(licenses: Seq<License>, first: Seq<u8>, second: Seq<u8>)
    requires
        first == rendered(licenses_events(licenses_view(licenses))),
        second == rendered(licenses_events(licenses_view(licenses))),
    ensures
        first == second,
{
}

/// An empty list of licenses is suppressed: it writes no events at all.
pub proof fn lemma_empty_licenses_suppressed()
    ensures
        licenses_events(Seq::<LicenseView>::empty()) == Seq::<XmlEvent>::empty(),
{
}

/// A text that neither starts nor ends with white space is its own trimmed
/// text: such a declaration is kept as written.
pub proof fn lemma_trimmed_keeps_bare_text(text: Seq<char>)
    requires
        text.len() > 0 ==> !is_white_space(text[0]) && !is_white_space(text.last()),
    ensures
        trimmed(text) == text,
{
    if text.len() > 0 {
        assert(text.subrange(0, text.len() as int) =~= text);
    }
}

} // verus!
