//! Reads the metadata of an ordinance document.

use vstd::prelude::*;
use vstd::string::StringExecFns;

use crate::errors::ErrorModel;
use crate::text::{same_text, trim, trimmed};
use crate::xml_events::{read_events, tokens, utf8_lossy, xml_events, Token, XmlEvent};
use crate::xml_parser::model::{
    decode_cdata, decode_name, decode_text, element_events, element_text, empty_metadata,
    is_readable, is_text_run, is_text_token, lemma_first_element, lemma_one_element, name_text,
    node_text, run_text, token_text, MetadataModel, OrdinanceMetadata, ParseError, ParseErrorModel,
    TextElement,
};

verus! {

/// The fields of [`OrdinanceMetadata`].
#[derive(Debug, Clone, Copy, PartialEq, Eq, Structural)]
pub enum MetadataField {
    OrdinanceId,
    Name,
    TypeRaw,
    Jurisdiction,
    JurisdictionCode,
    PromulgationDate,
    PromulgationNo,
    EnforcementDate,
    RevisionKind,
    Department,
}

/// The element name of the document root.
pub open spec fn is_root_tag(tag: Seq<char>) -> bool {
    tag == "LawService"@
}

/// The field that an element of this name fills.
pub open spec fn metadata_field(tag: Seq<char>) -> Option<MetadataField> {
    if tag == "자치법규ID"@ || tag == "자치법규일련번호"@ || tag == "ID"@ {
        Some(MetadataField::OrdinanceId)
    } else if tag == "자치법규명"@ {
        Some(MetadataField::Name)
    } else if tag == "자치법규종류"@ {
        Some(MetadataField::TypeRaw)
    } else if tag == "지자체기관명"@ {
        Some(MetadataField::Jurisdiction)
    } else if tag == "지자체기관코드"@ || tag == "기관코드"@ {
        Some(MetadataField::JurisdictionCode)
    } else if tag == "공포일자"@ {
        Some(MetadataField::PromulgationDate)
    } else if tag == "공포번호"@ {
        Some(MetadataField::PromulgationNo)
    } else if tag == "시행일자"@ {
        Some(MetadataField::EnforcementDate)
    } else if tag == "제개정정보"@ || tag == "제개정구분명"@ || tag == "제개정구분"@ {
        Some(MetadataField::RevisionKind)
    } else if tag == "담당부서명"@ {
        Some(MetadataField::Department)
    } else {
        None
    }
}

impl MetadataModel {
    /// The content of a field.
    pub open spec fn get(self, field: MetadataField) -> Seq<char> {
        match field {
            MetadataField::OrdinanceId => self.ordinance_id,
            MetadataField::Name => self.name,
            MetadataField::TypeRaw => self.type_raw,
            MetadataField::Jurisdiction => self.jurisdiction,
            MetadataField::JurisdictionCode => self.jurisdiction_code,
            MetadataField::PromulgationDate => self.promulgation_date,
            MetadataField::PromulgationNo => self.promulgation_no,
            MetadataField::EnforcementDate => self.enforcement_date,
            MetadataField::RevisionKind => self.revision_kind,
            MetadataField::Department => self.department,
        }
    }

    /// The metadata with one field changed.
    pub open spec fn set(self, field: MetadataField, value: Seq<char>) -> MetadataModel {
        match field {
            MetadataField::OrdinanceId => MetadataModel { ordinance_id: value, ..self },
            MetadataField::Name => MetadataModel { name: value, ..self },
            MetadataField::TypeRaw => MetadataModel { type_raw: value, ..self },
            MetadataField::Jurisdiction => MetadataModel { jurisdiction: value, ..self },
            MetadataField::JurisdictionCode => MetadataModel { jurisdiction_code: value, ..self },
            MetadataField::PromulgationDate => MetadataModel { promulgation_date: value, ..self },
            MetadataField::PromulgationNo => MetadataModel { promulgation_no: value, ..self },
            MetadataField::EnforcementDate => MetadataModel { enforcement_date: value, ..self },
            MetadataField::RevisionKind => MetadataModel { revision_kind: value, ..self },
            MetadataField::Department => MetadataModel { department: value, ..self },
        }
    }
}

impl OrdinanceMetadata {
    /// The content of a field.
    pub fn get(&self, field: MetadataField) -> (r: &String)
        ensures
            r@ == self@.get(field),
    {
        match field {
            MetadataField::OrdinanceId => &self.ordinance_id,
            MetadataField::Name => &self.name,
            MetadataField::TypeRaw => &self.type_raw,
            MetadataField::Jurisdiction => &self.jurisdiction,
            MetadataField::JurisdictionCode => &self.jurisdiction_code,
            MetadataField::PromulgationDate => &self.promulgation_date,
            MetadataField::PromulgationNo => &self.promulgation_no,
            MetadataField::EnforcementDate => &self.enforcement_date,
            MetadataField::RevisionKind => &self.revision_kind,
            MetadataField::Department => &self.department,
        }
    }

    /// Changes the content of a field.
    pub fn set(&mut self, field: MetadataField, value: String)
        ensures
            final(self)@ == old(self)@.set(field, value@),
    {
        match field {
            MetadataField::OrdinanceId => self.ordinance_id = value,
            MetadataField::Name => self.name = value,
            MetadataField::TypeRaw => self.type_raw = value,
            MetadataField::Jurisdiction => self.jurisdiction = value,
            MetadataField::JurisdictionCode => self.jurisdiction_code = value,
            MetadataField::PromulgationDate => self.promulgation_date = value,
            MetadataField::PromulgationNo => self.promulgation_no = value,
            MetadataField::EnforcementDate => self.enforcement_date = value,
            MetadataField::RevisionKind => self.revision_kind = value,
            MetadataField::Department => self.department = value,
        }
    }
}

/// The field that an element of this name fills.
pub fn field_of_tag(tag: &str) -> (r: Option<MetadataField>)
    ensures
        r == metadata_field(tag@),
{
    if same_text(tag, "자치법규ID") || same_text(tag, "자치법규일련번호") || same_text(tag, "ID") {
        Some(MetadataField::OrdinanceId)
    } else if same_text(tag, "자치법규명") {
        Some(MetadataField::Name)
    } else if same_text(tag, "자치법규종류") {
        Some(MetadataField::TypeRaw)
    } else if same_text(tag, "지자체기관명") {
        Some(MetadataField::Jurisdiction)
    } else if same_text(tag, "지자체기관코드") || same_text(tag, "기관코드") {
        Some(MetadataField::JurisdictionCode)
    } else if same_text(tag, "공포일자") {
        Some(MetadataField::PromulgationDate)
    } else if same_text(tag, "공포번호") {
        Some(MetadataField::PromulgationNo)
    } else if same_text(tag, "시행일자") {
        Some(MetadataField::EnforcementDate)
    } else if same_text(tag, "제개정정보") || same_text(tag, "제개정구분명") || same_text(
        tag,
        "제개정구분",
    ) {
        Some(MetadataField::RevisionKind)
    } else if same_text(tag, "담당부서명") {
        Some(MetadataField::Department)
    } else {
        None
    }
}

/// What a document says about its metadata: an error, that it is no ordinance, or the metadata.
pub type MetadataOutcome = Result<Option<MetadataModel>, ParseErrorModel>;

/// The state of a scan for metadata.
pub struct MetadataScanModel {
    /// The root element has been opened.
    pub root_seen: bool,
    /// The name of the element whose text is being collected.
    pub capture: Option<Seq<char>>,
    /// The text collected so far.
    pub text: Seq<char>,
    /// The fields filled so far.
    pub metadata: MetadataModel,
}

/// What one event does to a scan.
pub enum MetadataStepModel {
    /// The scan goes on.
    Continue(MetadataScanModel),
    /// The scan is over.
    Stop(MetadataOutcome),
}

/// The state before the first event.
pub open spec fn metadata_start() -> MetadataScanModel {
    MetadataScanModel {
        root_seen: false,
        capture: None,
        text: Seq::empty(),
        metadata: empty_metadata(),
    }
}

/// The outcome of a scan that has come to the end of an ordinance document: without an ordinance
/// id there is no ordinance.
pub open spec fn metadata_found(metadata: MetadataModel) -> MetadataOutcome {
    if metadata.ordinance_id.len() == 0 {
        Ok(None)
    } else {
        Ok(Some(metadata))
    }
}

impl MetadataScanModel {
    /// An opening tag: the first one must be the root; behind it, an element whose field is still
    /// empty starts a collection.
    pub open spec fn opened(self, tag: Seq<char>) -> MetadataStepModel {
        if !self.root_seen {
            if is_root_tag(tag) {
                MetadataStepModel::Continue(MetadataScanModel { root_seen: true, ..self })
            } else {
                MetadataStepModel::Stop(Ok(None))
            }
        } else {
            match metadata_field(tag) {
                Some(field) if self.metadata.get(field).len() == 0 => MetadataStepModel::Continue(
                    MetadataScanModel { capture: Some(tag), text: Seq::empty(), ..self },
                ),
                _ => MetadataStepModel::Continue(self),
            }
        }
    }

    /// An element without content: as the root it ends the document, elsewhere it says nothing.
    pub open spec fn passed(self, tag: Seq<char>) -> MetadataStepModel {
        if self.root_seen {
            MetadataStepModel::Continue(self)
        } else if is_root_tag(tag) {
            MetadataStepModel::Stop(metadata_found(self.metadata))
        } else {
            MetadataStepModel::Stop(Ok(None))
        }
    }

    /// A closing tag: the one of the element that is being collected fills its field.
    pub open spec fn closed(self, tag: Seq<char>) -> MetadataScanModel {
        if self.capture == Some(tag) {
            match metadata_field(tag) {
                Some(field) => MetadataScanModel {
                    capture: None,
                    metadata: self.metadata.set(field, trimmed(self.text)),
                    ..self
                },
                None => MetadataScanModel { capture: None, ..self },
            }
        } else {
            self
        }
    }

    /// The end of the document.
    pub open spec fn ended(self) -> MetadataOutcome {
        if self.root_seen {
            metadata_found(self.metadata)
        } else {
            Ok(None)
        }
    }

    /// What one event does.
    pub open spec fn step(self, token: Token) -> MetadataStepModel {
        match token {
            Token::Start(name) => match name_text(name) {
                Ok(tag) => self.opened(tag),
                Err(error) => MetadataStepModel::Stop(Err(error)),
            },
            Token::Empty(name) => match name_text(name) {
                Ok(tag) => self.passed(tag),
                Err(error) => MetadataStepModel::Stop(Err(error)),
            },
            Token::Text(bytes) => if self.capture is Some {
                match node_text(bytes) {
                    Ok(more) => MetadataStepModel::Continue(
                        MetadataScanModel { text: self.text + more, ..self },
                    ),
                    Err(error) => MetadataStepModel::Stop(Err(error)),
                }
            } else {
                MetadataStepModel::Continue(self)
            },
            Token::CData(bytes) => if self.capture is Some {
                MetadataStepModel::Continue(
                    MetadataScanModel { text: self.text + utf8_lossy(bytes), ..self },
                )
            } else {
                MetadataStepModel::Continue(self)
            },
            Token::End(name) => match name_text(name) {
                Ok(tag) => MetadataStepModel::Continue(self.closed(tag)),
                Err(error) => MetadataStepModel::Stop(Err(error)),
            },
            Token::Other => MetadataStepModel::Continue(self),
            Token::Eof => MetadataStepModel::Stop(self.ended()),
            Token::Fault(text) => MetadataStepModel::Stop(Err(ParseErrorModel::Xml(text))),
        }
    }
}

/// The outcome of a scan that goes through the given events. The document ends with them.
pub open spec fn metadata_outcome(state: MetadataScanModel, events: Seq<Token>) -> MetadataOutcome
    decreases events.len(),
{
    if events.len() == 0 {
        state.ended()
    } else {
        match state.step(events[0]) {
            MetadataStepModel::Continue(next) => metadata_outcome(next, events.drop_first()),
            MetadataStepModel::Stop(outcome) => outcome,
        }
    }
}

/// The view of a parsing result.
pub open spec fn metadata_result(
    r: Result<Option<OrdinanceMetadata>, ParseError>,
) -> MetadataOutcome {
    match r {
        Ok(Some(metadata)) => Ok(Some(metadata@)),
        Ok(None) => Ok(None),
        Err(error) => Err(error@),
    }
}

struct MetadataScan {
    root_seen: bool,
    capture: Option<String>,
    text: String,
    metadata: OrdinanceMetadata,
}

enum MetadataStep {
    Continue(MetadataScan),
    Stop(Result<Option<OrdinanceMetadata>, ParseError>),
}

impl View for MetadataScan {
    type V = MetadataScanModel;

    closed spec fn view(&self) -> MetadataScanModel {
        MetadataScanModel {
            root_seen: self.root_seen,
            capture: match self.capture {
                Some(tag) => Some(tag@),
                None => None,
            },
            text: self.text@,
            metadata: self.metadata@,
        }
    }
}

impl View for MetadataStep {
    type V = MetadataStepModel;

    closed spec fn view(&self) -> MetadataStepModel {
        match *self {
            MetadataStep::Continue(scan) => MetadataStepModel::Continue(scan@),
            MetadataStep::Stop(r) => MetadataStepModel::Stop(metadata_result(r)),
        }
    }
}

fn found(metadata: OrdinanceMetadata) -> (r: Result<Option<OrdinanceMetadata>, ParseError>)
    ensures
        metadata_result(r) == metadata_found(metadata@),
{
    if metadata.ordinance_id.as_str().is_empty() {
        Ok(None)
    } else {
        Ok(Some(metadata))
    }
}

impl MetadataScan {
    fn opened(self, tag: String) -> (r: MetadataStep)
        ensures
            r@ == self@.opened(tag@),
    {
        let mut scan = self;
        if !scan.root_seen {
            if same_text(tag.as_str(), "LawService") {
                scan.root_seen = true;
                MetadataStep::Continue(scan)
            } else {
                MetadataStep::Stop(Ok(None))
            }
        } else {
            match field_of_tag(tag.as_str()) {
                Some(field) => {
                    if scan.metadata.get(field).as_str().is_empty() {
                        scan.capture = Some(tag);
                        scan.text = String::new();
                    }
                },
                None => {},
            }
            MetadataStep::Continue(scan)
        }
    }

    fn passed(self, tag: String) -> (r: MetadataStep)
        ensures
            r@ == self@.passed(tag@),
    {
        if self.root_seen {
            MetadataStep::Continue(self)
        } else if same_text(tag.as_str(), "LawService") {
            MetadataStep::Stop(found(self.metadata))
        } else {
            MetadataStep::Stop(Ok(None))
        }
    }

    fn closed(self, tag: String) -> (r: MetadataScan)
        ensures
            r@ == self@.closed(tag@),
    {
        let mut scan = self;
        let captured = match &scan.capture {
            Some(current) => same_text(current.as_str(), tag.as_str()),
            None => false,
        };
        if captured {
            match field_of_tag(tag.as_str()) {
                Some(field) => {
                    let value = trim(scan.text.as_str());
                    scan.metadata.set(field, value);
                },
                None => {},
            }
            scan.capture = None;
        }
        scan
    }

    fn ended(self) -> (r: Result<Option<OrdinanceMetadata>, ParseError>)
        ensures
            metadata_result(r) == self@.ended(),
    {
        if self.root_seen {
            found(self.metadata)
        } else {
            Ok(None)
        }
    }

    fn step(self, event: &XmlEvent) -> (r: MetadataStep)
        ensures
            r@ == self@.step(event@),
    {
        let mut scan = self;
        match event {
            XmlEvent::Start(name) => match decode_name(name.as_slice()) {
                Ok(tag) => scan.opened(tag),
                Err(error) => MetadataStep::Stop(Err(error)),
            },
            XmlEvent::Empty(name) => match decode_name(name.as_slice()) {
                Ok(tag) => scan.passed(tag),
                Err(error) => MetadataStep::Stop(Err(error)),
            },
            XmlEvent::Text(bytes) => {
                if scan.capture.is_some() {
                    match decode_text(bytes.as_slice()) {
                        Ok(more) => scan.text.append(more.as_str()),
                        Err(error) => return MetadataStep::Stop(Err(error)),
                    }
                }
                MetadataStep::Continue(scan)
            },
            XmlEvent::CData(bytes) => {
                if scan.capture.is_some() {
                    let more = decode_cdata(bytes.as_slice());
                    scan.text.append(more.as_str());
                }
                MetadataStep::Continue(scan)
            },
            XmlEvent::End(name) => match decode_name(name.as_slice()) {
                Ok(tag) => MetadataStep::Continue(scan.closed(tag)),
                Err(error) => MetadataStep::Stop(Err(error)),
            },
            XmlEvent::Other => MetadataStep::Continue(scan),
            XmlEvent::Eof => MetadataStep::Stop(scan.ended()),
            XmlEvent::Fault(text) => MetadataStep::Stop(Err(ParseError::Xml(text.clone()))),
        }
    }
}

/// Reads the metadata off the events of a document.
pub fn metadata_from_events(events: &Vec<XmlEvent>) -> (r: Result<
    Option<OrdinanceMetadata>,
    ParseError,
>)
    ensures
        metadata_result(r) == metadata_outcome(metadata_start(), tokens(events@)),
{
    let mut scan = MetadataScan {
        root_seen: false,
        capture: None,
        text: String::new(),
        metadata: OrdinanceMetadata::default(),
    };
    let ghost all = tokens(events@);
    let mut i: usize = 0;
    assert(all.skip(0) =~= all);
    while i < events.len()
        invariant
            i <= events@.len(),
            all == tokens(events@),
            metadata_outcome(metadata_start(), all) == metadata_outcome(scan@, all.skip(i as int)),
        decreases events@.len() - i,
    {
        assert(all.skip(i as int)[0] == events@[i as int]@);
        assert(all.skip(i as int).drop_first() =~= all.skip(i + 1));
        match scan.step(&events[i]) {
            MetadataStep::Continue(next) => {
                scan = next;
            },
            MetadataStep::Stop(r) => {
                return r;
            },
        }
        i += 1;
    }
    scan.ended()
}

/// Parses just the metadata needed for ordering and path planning.
///
/// Returns `Ok(None)` when the root element is not `LawService` (for instance, upstream HTML
/// error pages) or when the ordinance id is missing.
pub fn parse_metadata_only(xml: &[u8]) -> (r: Result<Option<OrdinanceMetadata>, ParseError>)
    ensures
        metadata_result(r) == metadata_outcome(metadata_start(), xml_events(xml@)),
{
    let events = read_events(xml);
    metadata_from_events(&events)
}

impl MetadataScanModel {
    /// Text is collected for a field that is still empty only.
    pub open spec fn wf(self) -> bool {
        self.capture matches Some(tag) ==> metadata_field(tag) matches Some(field)
            && self.metadata.get(field).len() == 0
    }
}

/// An ordinance that was found has an id.
pub proof fn lemma_found_has_id(state: MetadataScanModel, events: Seq<Token>)
    ensures
        metadata_outcome(state, events) matches Ok(Some(metadata)) ==> metadata.ordinance_id.len()
            > 0,
    decreases events.len(),
{
    if events.len() > 0 {
        match state.step(events[0]) {
            MetadataStepModel::Continue(next) => {
                lemma_found_has_id(next, events.drop_first());
            },
            MetadataStepModel::Stop(_) => {},
        }
    }
}

/// The first text that is not empty fills a field; whatever comes later leaves it as it is.
pub proof fn lemma_first_text_stays(
    state: MetadataScanModel,
    events: Seq<Token>,
    field: MetadataField,
)
    requires
        state.wf(),
        state.metadata.get(field).len() > 0,
    ensures
        metadata_outcome(state, events) matches Ok(Some(metadata)) ==> metadata.get(field)
            == state.metadata.get(field),
    decreases events.len(),
{
    if events.len() > 0 {
        match state.step(events[0]) {
            MetadataStepModel::Continue(next) => {
                lemma_first_text_stays(next, events.drop_first(), field);
            },
            MetadataStepModel::Stop(_) => {},
        }
    }
}

/// A scan collects text for empty fields only, from its start on.
pub proof fn lemma_scan_wf(state: MetadataScanModel, token: Token)
    requires
        state.wf(),
    ensures
        metadata_start().wf(),
        state.step(token) matches MetadataStepModel::Continue(next) ==> next.wf(),
{
}

/// A document whose root element is not `LawService` is no ordinance, whatever it holds.
pub proof fn lemma_other_root(events: Seq<Token>, root: int)
    requires
        0 <= root < events.len(),
        forall|i: int|
            0 <= i < root ==> (#[trigger] events[i] is Other || events[i] is Text
                || events[i] is CData),
        ({
            let name = match events[root] {
                Token::Start(name) => name_text(name),
                Token::Empty(name) => name_text(name),
                _ => Err(ParseErrorModel::NameNotUtf8(Seq::empty())),
            };
            name matches Ok(tag) && !is_root_tag(tag)
        }),
    ensures
        metadata_outcome(metadata_start(), events) == Ok::<_, ParseErrorModel>(
            None::<MetadataModel>,
        ),
    decreases root,
{
    if root > 0 {
        let rest = events.drop_first();
        assert(events[0] is Other || events[0] is Text || events[0] is CData);
        assert forall|i: int| 0 <= i < root - 1 implies (#[trigger] rest[i] is Other
            || rest[i] is Text || rest[i] is CData) by {
            assert(rest[i] == events[i + 1]);
        }
        lemma_other_root(rest, root - 1);
    }
}

/// The metadata with what text elements say: each fills its field, if that is still empty.
pub open spec fn gathered(metadata: MetadataModel, elements: Seq<TextElement>) -> MetadataModel
    decreases elements.len(),
{
    if elements.len() == 0 {
        metadata
    } else {
        let first = elements[0];
        let value = trimmed(element_text(first));
        let next = match metadata_field(name_text(first.name)->Ok_0) {
            Some(field) => if metadata.get(field).len() == 0 {
                metadata.set(field, value)
            } else {
                metadata
            },
            None => metadata,
        };
        gathered(next, elements.drop_first())
    }
}

/// Between elements, where nothing is collected, text says nothing.
pub proof fn lemma_gap_passed(state: MetadataScanModel, gap: Seq<Token>, rest: Seq<Token>)
    requires
        state.capture is None,
        is_text_run(gap),
    ensures
        metadata_outcome(state, gap + rest) == metadata_outcome(state, rest),
    decreases gap.len(),
{
    if gap.len() == 0 {
        assert(gap + rest =~= rest);
    } else {
        let more = gap.drop_first();
        assert(is_text_token(gap[0]));
        assert forall|i: int| 0 <= i < more.len() implies is_text_token(#[trigger] more[i]) by {
            assert(more[i] == gap[i + 1]);
        }
        assert((gap + rest).drop_first() =~= more + rest);
        lemma_gap_passed(state, more, rest);
    }
}

proof fn lemma_content_collected(state: MetadataScanModel, content: Seq<Token>, rest: Seq<Token>)
    requires
        state.capture is Some,
        is_text_run(content),
        forall|i: int| 0 <= i < content.len() ==> token_text(#[trigger] content[i]) is Ok,
    ensures
        metadata_outcome(state, content + rest) == metadata_outcome(
            MetadataScanModel { text: state.text + run_text(content), ..state },
            rest,
        ),
    decreases content.len(),
{
    if content.len() == 0 {
        assert(content + rest =~= rest);
        assert(state.text + run_text(content) =~= state.text);
    } else {
        let more = content.drop_first();
        let first = content[0];
        assert(is_text_token(first) && token_text(first) is Ok);
        assert forall|i: int| 0 <= i < more.len() implies is_text_token(#[trigger] more[i])
            && token_text(more[i]) is Ok by {
            assert(more[i] == content[i + 1]);
        }
        assert((content + rest).drop_first() =~= more + rest);
        let text = token_text(first)->Ok_0;
        let next = MetadataScanModel { text: state.text + text, ..state };
        assert(state.text + Seq::<char>::empty() =~= state.text);
        assert(state.step(first) == MetadataStepModel::Continue(next));
        lemma_content_collected(next, more, rest);
        assert(next.text + run_text(more) =~= state.text + run_text(content));
    }
}

proof fn lemma_element_read(state: MetadataScanModel, element: TextElement, rest: Seq<Token>) -> (
    text: Seq<char>)
    requires
        state.root_seen,
        state.capture is None,
        is_readable(element),
    ensures
        metadata_outcome(state, element_events(seq![element]) + rest) == metadata_outcome(
            MetadataScanModel {
                text,
                metadata: gathered(state.metadata, seq![element]),
                ..state
            },
            rest,
        ),
{
    let tag = name_text(element.name)->Ok_0;
    let tail = seq![Token::End(element.name)] + rest;
    let inner = element.content + tail;
    let all = seq![Token::Start(element.name)] + inner;
    lemma_one_element(element, rest);
    lemma_gap_passed(state, element.gap, all);
    let opened = state.step(Token::Start(element.name))->Continue_0;
    assert(all.drop_first() =~= inner);
    assert(metadata_outcome(state, all) == metadata_outcome(opened, inner));
    assert(tail.drop_first() =~= rest);
    reveal_with_fuel(gathered, 2);
    assert(seq![element].drop_first() =~= Seq::<TextElement>::empty());
    if opened.capture is Some {
        let filled = MetadataScanModel { text: run_text(element.content), ..opened };
        lemma_content_collected(opened, element.content, tail);
        assert(opened.text + run_text(element.content) =~= run_text(element.content));
        assert(metadata_outcome(filled, tail) == metadata_outcome(filled.closed(tag), rest));
        filled.text
    } else {
        lemma_gap_passed(state, element.content, tail);
        assert(metadata_outcome(state, tail) == metadata_outcome(state.closed(tag), rest));
        state.text
    }
}

/// Text elements behind the root tag say, for each field, the first text for it that is not empty.
pub proof fn lemma_elements_read(
    state: MetadataScanModel,
    elements: Seq<TextElement>,
    rest: Seq<Token>,
) -> (text: Seq<char>)
    requires
        state.root_seen,
        state.capture is None,
        forall|i: int| 0 <= i < elements.len() ==> is_readable(#[trigger] elements[i]),
    ensures
        metadata_outcome(state, element_events(elements) + rest) == metadata_outcome(
            MetadataScanModel { text, metadata: gathered(state.metadata, elements), ..state },
            rest,
        ),
    decreases elements.len(),
{
    if elements.len() == 0 {
        assert(element_events(elements) + rest =~= rest);
        state.text
    } else {
        let first = elements[0];
        let more = elements.drop_first();
        assert(is_readable(first));
        assert forall|i: int| 0 <= i < more.len() implies is_readable(#[trigger] more[i]) by {
            assert(more[i] == elements[i + 1]);
        }
        lemma_first_element(elements, rest);
        let between = lemma_element_read(state, first, element_events(more) + rest);
        let next = MetadataScanModel {
            text: between,
            metadata: gathered(state.metadata, seq![first]),
            ..state
        };
        let text = lemma_elements_read(next, more, rest);
        assert(gathered(state.metadata, elements) == gathered(next.metadata, more)) by {
            reveal_with_fuel(gathered, 2);
            assert(seq![first].drop_first() =~= Seq::<TextElement>::empty());
        }
        text
    }
}

/// A document whose root holds text elements says what they say: for each field, the first text for
/// it that is not empty.
pub proof fn lemma_flat_document(
    prolog: Seq<Token>,
    root: Seq<u8>,
    elements: Seq<TextElement>,
    gap: Seq<Token>,
    epilog: Seq<Token>,
)
    requires
        is_text_run(prolog),
        name_text(root) == Ok::<_, ParseErrorModel>("LawService"@),
        forall|i: int| 0 <= i < elements.len() ==> is_readable(#[trigger] elements[i]),
        is_text_run(gap),
        is_text_run(epilog),
    ensures
        metadata_outcome(
            metadata_start(),
            prolog + seq![Token::Start(root)] + element_events(elements) + gap + seq![
                Token::End(root),
            ] + epilog + seq![Token::Eof],
        ) == metadata_found(gathered(empty_metadata(), elements)),
{
    let end = epilog + seq![Token::Eof];
    let tail = seq![Token::End(root)] + end;
    let inner = element_events(elements) + (gap + tail);
    let all = seq![Token::Start(root)] + inner;
    assert(prolog + all =~= prolog + seq![Token::Start(root)] + element_events(elements) + gap
        + seq![Token::End(root)] + epilog + seq![Token::Eof]);
    lemma_gap_passed(metadata_start(), prolog, all);
    let opened = MetadataScanModel { root_seen: true, ..metadata_start() };
    assert(all.drop_first() =~= inner);
    assert(metadata_outcome(metadata_start(), all) == metadata_outcome(opened, inner));
    let text = lemma_elements_read(opened, elements, gap + tail);
    let last = MetadataScanModel {
        text,
        metadata: gathered(empty_metadata(), elements),
        ..opened
    };
    lemma_gap_passed(last, gap, tail);
    assert(tail.drop_first() =~= end);
    assert(metadata_outcome(last, tail) == metadata_outcome(last, end));
    lemma_gap_passed(last, epilog, seq![Token::Eof]);
}

/// Which elements fill which field: each of the fifteen names that documents use, and no other.
pub proof fn lemma_field_names(tag: Seq<char>)
    ensures
        metadata_field(tag) == Some(MetadataField::OrdinanceId) <==> tag == "자치법규ID"@ || tag
            == "자치법규일련번호"@ || tag == "ID"@,
        metadata_field(tag) == Some(MetadataField::Name) <==> tag == "자치법규명"@,
        metadata_field(tag) == Some(MetadataField::TypeRaw) <==> tag == "자치법규종류"@,
        metadata_field(tag) == Some(MetadataField::Jurisdiction) <==> tag == "지자체기관명"@,
        metadata_field(tag) == Some(MetadataField::JurisdictionCode) <==> tag == "지자체기관코드"@
            || tag == "기관코드"@,
        metadata_field(tag) == Some(MetadataField::PromulgationDate) <==> tag == "공포일자"@,
        metadata_field(tag) == Some(MetadataField::PromulgationNo) <==> tag == "공포번호"@,
        metadata_field(tag) == Some(MetadataField::EnforcementDate) <==> tag == "시행일자"@,
        metadata_field(tag) == Some(MetadataField::RevisionKind) <==> tag == "제개정정보"@ || tag
            == "제개정구분명"@ || tag == "제개정구분"@,
        metadata_field(tag) == Some(MetadataField::Department) <==> tag == "담당부서명"@,
        is_root_tag(tag) <==> tag == "LawService"@,
{
    reveal_strlit("자치법규ID");
    reveal_strlit("자치법규일련번호");
    reveal_strlit("ID");
    reveal_strlit("자치법규명");
    reveal_strlit("자치법규종류");
    reveal_strlit("지자체기관명");
    reveal_strlit("지자체기관코드");
    reveal_strlit("기관코드");
    reveal_strlit("공포일자");
    reveal_strlit("공포번호");
    reveal_strlit("시행일자");
    reveal_strlit("제개정정보");
    reveal_strlit("제개정구분명");
    reveal_strlit("제개정구분");
    reveal_strlit("담당부서명");
    assert("자치법규ID"@.len() == 6 && "자치법규일련번호"@.len() == 8 && "ID"@.len() == 2);
    assert("자치법규명"@.len() == 5 && "자치법규종류"@.len() == 6 && "지자체기관명"@.len() == 6);
    assert("지자체기관코드"@.len() == 7 && "기관코드"@.len() == 4 && "공포일자"@.len() == 4);
    assert("공포번호"@.len() == 4 && "시행일자"@.len() == 4 && "제개정정보"@.len() == 5);
    assert("제개정구분명"@.len() == 6 && "제개정구분"@.len() == 5 && "담당부서명"@.len() == 5);
    assert("자치법규ID"@[4] != "자치법규종류"@[4]);
    assert("자치법규ID"@[0] != "지자체기관명"@[0]);
    assert("자치법규ID"@[0] != "제개정구분명"@[0]);
    assert("자치법규종류"@[0] != "지자체기관명"@[0]);
    assert("자치법규종류"@[0] != "제개정구분명"@[0]);
    assert("지자체기관명"@[0] != "제개정구분명"@[0]);
    assert("자치법규명"@[0] != "제개정정보"@[0]);
    assert("자치법규명"@[0] != "제개정구분"@[0]);
    assert("자치법규명"@[0] != "담당부서명"@[0]);
    assert("제개정정보"@[3] != "제개정구분"@[3]);
    assert("제개정정보"@[0] != "담당부서명"@[0]);
    assert("제개정구분"@[0] != "담당부서명"@[0]);
    assert("기관코드"@[0] != "공포일자"@[0]);
    assert("기관코드"@[0] != "공포번호"@[0]);
    assert("기관코드"@[0] != "시행일자"@[0]);
    assert("공포일자"@[2] != "공포번호"@[2]);
    assert("공포일자"@[0] != "시행일자"@[0]);
    assert("공포번호"@[0] != "시행일자"@[0]);
}

/// Each field is kept in its own place: to fill one changes that one and no other.
pub proof fn lemma_field_places(
    metadata: MetadataModel,
    field: MetadataField,
    other: MetadataField,
    value: Seq<char>,
)
    ensures
        metadata.get(MetadataField::OrdinanceId) == metadata.ordinance_id,
        metadata.get(MetadataField::Name) == metadata.name,
        metadata.get(MetadataField::TypeRaw) == metadata.type_raw,
        metadata.get(MetadataField::Jurisdiction) == metadata.jurisdiction,
        metadata.get(MetadataField::JurisdictionCode) == metadata.jurisdiction_code,
        metadata.get(MetadataField::PromulgationDate) == metadata.promulgation_date,
        metadata.get(MetadataField::PromulgationNo) == metadata.promulgation_no,
        metadata.get(MetadataField::EnforcementDate) == metadata.enforcement_date,
        metadata.get(MetadataField::RevisionKind) == metadata.revision_kind,
        metadata.get(MetadataField::Department) == metadata.department,
        metadata.set(field, value).get(field) == value,
        other != field ==> metadata.set(field, value).get(other) == metadata.get(other),
        empty_metadata().get(field).len() == 0,
{
}

/// The element fills the field, and says something.
pub open spec fn says(element: TextElement, field: MetadataField) -> bool {
    metadata_field(name_text(element.name)->Ok_0) == Some(field) && trimmed(
        element_text(element),
    ).len() > 0
}

proof fn lemma_gathered_field(
    metadata: MetadataModel,
    elements: Seq<TextElement>,
    field: MetadataField,
    first: int,
)
    requires
        0 <= first <= elements.len(),
        forall|j: int| 0 <= j < first ==> !says(#[trigger] elements[j], field),
        first < elements.len() ==> says(elements[first], field),
    ensures
        gathered(metadata, elements).get(field) == (if metadata.get(field).len() > 0 {
            metadata.get(field)
        } else if first < elements.len() {
            trimmed(element_text(elements[first]))
        } else {
            Seq::empty()
        }),
    decreases elements.len(),
{
    if elements.len() == 0 {
        assert(metadata.get(field).len() == 0 ==> metadata.get(field) =~= Seq::<char>::empty());
    } else {
        let head = elements[0];
        let rest = elements.drop_first();
        let value = trimmed(element_text(head));
        let next = gathered(metadata, seq![head]);
        assert(gathered(metadata, elements) == gathered(next, rest)) by {
            reveal_with_fuel(gathered, 2);
            assert(seq![head].drop_first() =~= Seq::<TextElement>::empty());
        }
        assert(next.get(field) == if metadata.get(field).len() == 0 && metadata_field(
            name_text(head.name)->Ok_0,
        ) == Some(field) {
            value
        } else {
            metadata.get(field)
        }) by {
            reveal_with_fuel(gathered, 2);
            assert(seq![head].drop_first() =~= Seq::<TextElement>::empty());
        }
        if first > 0 {
            assert(!says(elements[0], field));
            assert forall|j: int| 0 <= j < first - 1 implies !says(#[trigger] rest[j], field) by {
                assert(rest[j] == elements[j + 1]);
            }
            lemma_gathered_field(next, rest, field, first - 1);
        } else {
            let more = lemma_first_saying(rest, field);
            lemma_gathered_field(next, rest, field, more);
        }
    }
}

proof fn lemma_first_saying(elements: Seq<TextElement>, field: MetadataField) -> (first: int)
    ensures
        0 <= first <= elements.len(),
        forall|j: int| 0 <= j < first ==> !says(#[trigger] elements[j], field),
        first < elements.len() ==> says(elements[first], field),
    decreases elements.len(),
{
    if elements.len() == 0 || says(elements[0], field) {
        0
    } else {
        let rest = elements.drop_first();
        let first = lemma_first_saying(rest, field);
        assert forall|j: int| 0 <= j < first + 1 implies !says(#[trigger] elements[j], field) by {
            if j > 0 {
                assert(elements[j] == rest[j - 1]);
            }
        }
        first + 1
    }
}

/// Of the elements that a document has for a field, the first that says something fills it, with its
/// trimmed text. A field for which none says anything stays empty. The document is an ordinance
/// exactly where one of them says an id.
pub proof fn lemma_document_field(
    prolog: Seq<Token>,
    root: Seq<u8>,
    elements: Seq<TextElement>,
    gap: Seq<Token>,
    epilog: Seq<Token>,
    field: MetadataField,
    first: int,
)
    requires
        is_text_run(prolog),
        name_text(root) == Ok::<_, ParseErrorModel>("LawService"@),
        forall|i: int| 0 <= i < elements.len() ==> is_readable(#[trigger] elements[i]),
        is_text_run(gap),
        is_text_run(epilog),
        0 <= first <= elements.len(),
        forall|j: int| 0 <= j < first ==> !says(#[trigger] elements[j], field),
        first < elements.len() ==> says(elements[first], field),
    ensures
        ({
            let found = metadata_outcome(
                metadata_start(),
                prolog + seq![Token::Start(root)] + element_events(elements) + gap + seq![
                    Token::End(root),
                ] + epilog + seq![Token::Eof],
            );
            &&& found is Ok
            &&& field is OrdinanceId ==> (found->Ok_0 is Some <==> first < elements.len())
            &&& found matches Ok(Some(metadata)) ==> metadata.get(field) == (if first
                < elements.len() {
                trimmed(element_text(elements[first]))
            } else {
                Seq::empty()
            })
        }),
{
    lemma_flat_document(prolog, root, elements, gap, epilog);
    lemma_gathered_field(empty_metadata(), elements, field, first);
}

/// Tags that name no field, such as those of a section, change nothing outside a collection.
pub proof fn lemma_section_tags(state: MetadataScanModel, name: Seq<u8>, rest: Seq<Token>)
    requires
        state.root_seen,
        state.capture is None,
        name_text(name) is Ok,
    ensures
        metadata_field(name_text(name)->Ok_0) is None ==> metadata_outcome(
            state,
            seq![Token::Start(name)] + rest,
        ) == metadata_outcome(state, rest),
        metadata_outcome(state, seq![Token::End(name)] + rest) == metadata_outcome(state, rest),
        metadata_outcome(state, seq![Token::Empty(name)] + rest) == metadata_outcome(state, rest),
{
    assert((seq![Token::Start(name)] + rest).drop_first() =~= rest);
    assert((seq![Token::End(name)] + rest).drop_first() =~= rest);
    assert((seq![Token::Empty(name)] + rest).drop_first() =~= rest);
}

/// A fault and a name that is not text end the scan with an error that tells of them, and so does a
/// text of a field that cannot be read.
pub proof fn lemma_errors_reported(
    state: MetadataScanModel,
    fault: ErrorModel,
    name: Seq<u8>,
    text: Seq<u8>,
    rest: Seq<Token>,
)
    ensures
        metadata_outcome(state, seq![Token::Fault(fault)] + rest) == Err::<Option<MetadataModel>, _>(
            ParseErrorModel::Xml(fault),
        ),
        name_text(name) matches Err(error) ==> metadata_outcome(
            state,
            seq![Token::Start(name)] + rest,
        ) == Err::<Option<MetadataModel>, _>(error) && metadata_outcome(
            state,
            seq![Token::End(name)] + rest,
        ) == Err::<Option<MetadataModel>, _>(error),
        state.capture is Some ==> (node_text(text) matches Err(error) ==> metadata_outcome(
            state,
            seq![Token::Text(text)] + rest,
        ) == Err::<Option<MetadataModel>, _>(error)),
{
}

/// A document ends as an ordinance where an id was read, and else as none. A root without content is
/// none.
pub proof fn lemma_document_ends(state: MetadataScanModel, root: Seq<u8>, rest: Seq<Token>)
    ensures
        ({
            let found = metadata_outcome(state, seq![Token::Eof] + rest);
            &&& state.root_seen && state.metadata.ordinance_id.len() > 0 ==> found == Ok::<
                _,
                ParseErrorModel,
            >(Some(state.metadata))
            &&& !state.root_seen || state.metadata.ordinance_id.len() == 0 ==> found == Ok::<
                _,
                ParseErrorModel,
            >(None::<MetadataModel>)
        }),
        name_text(root) is Ok ==> metadata_outcome(
            metadata_start(),
            seq![Token::Empty(root)] + rest,
        ) == Ok::<_, ParseErrorModel>(None::<MetadataModel>),
{
}

/// While the text of a field is collected, tags inside it that name no field change nothing, and the
/// text around them is collected as one.
pub proof fn lemma_markup_in_field(state: MetadataScanModel, name: Seq<u8>, rest: Seq<Token>)
    requires
        state.root_seen,
        state.capture is Some,
        name_text(name) is Ok,
        metadata_field(name_text(name)->Ok_0) is None,
        state.capture != Some(name_text(name)->Ok_0),
    ensures
        metadata_outcome(state, seq![Token::Start(name)] + rest) == metadata_outcome(state, rest),
        metadata_outcome(state, seq![Token::End(name)] + rest) == metadata_outcome(state, rest),
        metadata_outcome(state, seq![Token::Empty(name)] + rest) == metadata_outcome(state, rest),
{
    assert((seq![Token::Start(name)] + rest).drop_first() =~= rest);
    assert((seq![Token::End(name)] + rest).drop_first() =~= rest);
    assert((seq![Token::Empty(name)] + rest).drop_first() =~= rest);
}

/// An element whose field is still empty starts a collection, also inside another one. Its end fills
/// the field with the trimmed text, and ends the collection. An element whose field says something
/// already starts none.
pub proof fn lemma_field_collected(
    state: MetadataScanModel,
    name: Seq<u8>,
    field: MetadataField,
    rest: Seq<Token>,
)
    requires
        state.root_seen,
        name_text(name) is Ok,
        metadata_field(name_text(name)->Ok_0) == Some(field),
    ensures
        state.metadata.get(field).len() == 0 ==> metadata_outcome(
            state,
            seq![Token::Start(name)] + rest,
        ) == metadata_outcome(
            MetadataScanModel {
                capture: Some(name_text(name)->Ok_0),
                text: Seq::empty(),
                ..state
            },
            rest,
        ),
        state.metadata.get(field).len() > 0 ==> metadata_outcome(
            state,
            seq![Token::Start(name)] + rest,
        ) == metadata_outcome(state, rest),
        state.capture == Some(name_text(name)->Ok_0) ==> metadata_outcome(
            state,
            seq![Token::End(name)] + rest,
        ) == metadata_outcome(
            MetadataScanModel {
                capture: None,
                metadata: state.metadata.set(field, trimmed(state.text)),
                ..state
            },
            rest,
        ),
        state.capture != Some(name_text(name)->Ok_0) ==> metadata_outcome(
            state,
            seq![Token::End(name)] + rest,
        ) == metadata_outcome(state, rest),
{
    assert((seq![Token::Start(name)] + rest).drop_first() =~= rest);
    assert((seq![Token::End(name)] + rest).drop_first() =~= rest);
}

/// The first tag is that of the root. Text before it says nothing.
pub proof fn lemma_root_opens(name: Seq<u8>, rest: Seq<Token>)
    requires
        name_text(name) is Ok,
    ensures
        name_text(name)->Ok_0 == "LawService"@ ==> metadata_outcome(
            metadata_start(),
            seq![Token::Start(name)] + rest,
        ) == metadata_outcome(MetadataScanModel { root_seen: true, ..metadata_start() }, rest),
        name_text(name)->Ok_0 != "LawService"@ ==> metadata_outcome(
            metadata_start(),
            seq![Token::Start(name)] + rest,
        ) == Ok::<_, ParseErrorModel>(None::<MetadataModel>),
        metadata_start().metadata == empty_metadata(),
        metadata_start().capture is None && !metadata_start().root_seen,
{
    assert((seq![Token::Start(name)] + rest).drop_first() =~= rest);
}

/// Text is read on where a field is collected, and nowhere else. Behind the root an element without
/// content passes without a trace, whatever its name, and so does what is neither text nor a tag.
pub proof fn lemma_text_read(state: MetadataScanModel, bytes: Seq<u8>, rest: Seq<Token>)
    ensures
        state.capture is None ==> metadata_outcome(state, seq![Token::Text(bytes)] + rest)
            == metadata_outcome(state, rest) && metadata_outcome(
            state,
            seq![Token::CData(bytes)] + rest,
        ) == metadata_outcome(state, rest),
        state.capture is Some ==> metadata_outcome(state, seq![Token::CData(bytes)] + rest)
            == metadata_outcome(
            MetadataScanModel { text: state.text + utf8_lossy(bytes), ..state },
            rest,
        ),
        state.capture is Some && node_text(bytes) is Ok ==> metadata_outcome(
            state,
            seq![Token::Text(bytes)] + rest,
        ) == metadata_outcome(
            MetadataScanModel { text: state.text + node_text(bytes)->Ok_0, ..state },
            rest,
        ),
        name_text(bytes) matches Err(error) ==> metadata_outcome(
            state,
            seq![Token::Empty(bytes)] + rest,
        ) == Err::<Option<MetadataModel>, _>(error),
        state.root_seen && name_text(bytes) is Ok ==> metadata_outcome(
            state,
            seq![Token::Empty(bytes)] + rest,
        ) == metadata_outcome(state, rest),
        metadata_outcome(state, seq![Token::Other] + rest) == metadata_outcome(state, rest),
        metadata_outcome(state, seq![Token::Eof] + rest) == metadata_outcome(state, Seq::empty()),
{
    assert((seq![Token::Text(bytes)] + rest).drop_first() =~= rest);
    assert((seq![Token::CData(bytes)] + rest).drop_first() =~= rest);
    assert((seq![Token::Empty(bytes)] + rest).drop_first() =~= rest);
    assert((seq![Token::Other] + rest).drop_first() =~= rest);
}

} // verus!
