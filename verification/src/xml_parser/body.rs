//! Reads the articles, the appendix and the reference lists of an ordinance document.

use vstd::prelude::*;
use vstd::string::StringExecFns;

use crate::errors::ErrorModel;
use crate::text::{same_text, texts, trim, trimmed};
use crate::xml_events::{read_events, tokens, utf8_lossy, xml_events, Token, XmlEvent};
use crate::xml_parser::model::{
    article_models, decode_cdata, decode_name, decode_text, element_events, element_text,
    empty_article, empty_body, is_readable, is_text_run, is_text_token, lemma_first_element,
    lemma_one_element, name_text, node_text, run_text, token_text, Article, ArticleModel, BodyModel,
    OrdinanceBody, ParseError, ParseErrorModel, TextElement,
};

verus! {

/// The fields of an [`Article`].
#[derive(Debug, Clone, Copy, PartialEq, Eq, Structural)]
pub enum ArticleField {
    /// 조문번호.
    Number,
    /// 조제목 / 조문제목.
    Title,
    /// 조내용 / 조문내용.
    Content,
}

/// The texts outside articles that a body collects.
#[derive(Debug, Clone, Copy, PartialEq, Eq, Structural)]
pub enum GenericCapture {
    /// 부칙내용 inside a 부칙 container.
    Buchik,
    /// An attachment filename.
    Attachment,
    /// A referenced law name.
    Related,
}

/// The article field that an element of this name fills.
pub open spec fn article_field(tag: Seq<char>) -> Option<ArticleField> {
    if tag == "조문번호"@ {
        Some(ArticleField::Number)
    } else if tag == "조제목"@ || tag == "조문제목"@ {
        Some(ArticleField::Title)
    } else if tag == "조내용"@ || tag == "조문내용"@ {
        Some(ArticleField::Content)
    } else {
        None
    }
}

/// The collected text that an element of this name holds.
pub open spec fn generic_capture(tag: Seq<char>) -> Option<GenericCapture> {
    if tag == "부칙내용"@ {
        Some(GenericCapture::Buchik)
    } else if tag == "첨부파일명"@ || tag == "별표서식파일명"@ || tag == "별표파일명"@ || tag
        == "파일명"@ {
        Some(GenericCapture::Attachment)
    } else if tag == "관련법령명"@ || tag == "관련법령"@ || tag == "상위법령명"@ {
        Some(GenericCapture::Related)
    } else {
        None
    }
}

/// An element of this name closes an article.
pub open spec fn is_article_tag(tag: Seq<char>) -> bool {
    tag == "조"@ || tag == "조문단위"@
}

impl ArticleModel {
    /// The content of a field.
    pub open spec fn get(self, field: ArticleField) -> Seq<char> {
        match field {
            ArticleField::Number => self.number_raw,
            ArticleField::Title => self.title,
            ArticleField::Content => self.content,
        }
    }

    /// The article with a field filled, unless the field already holds something.
    pub open spec fn filled(self, field: ArticleField, value: Seq<char>) -> ArticleModel {
        if self.get(field).len() > 0 {
            self
        } else {
            match field {
                ArticleField::Number => ArticleModel { number_raw: value, ..self },
                ArticleField::Title => ArticleModel { title: value, ..self },
                ArticleField::Content => ArticleModel { content: value, ..self },
            }
        }
    }

    /// Some field holds something.
    pub open spec fn has_data(self) -> bool {
        self.number_raw.len() > 0 || self.title.len() > 0 || self.content.len() > 0
    }
}

/// The list with one more text, unless the text is empty or already in the list.
pub open spec fn listed_once(list: Seq<Seq<char>>, value: Seq<char>) -> Seq<Seq<char>> {
    if value.len() == 0 || list.contains(value) {
        list
    } else {
        list.push(value)
    }
}

/// What a document says about its body: an error, or the body.
pub type BodyOutcome = Result<BodyModel, ParseErrorModel>;

/// The state of a scan for the body.
pub struct BodyScanModel {
    /// The names of the open elements, outermost first.
    pub path: Seq<Seq<char>>,
    /// The open article.
    pub article: Option<ArticleModel>,
    /// A 조 inside a 조문 has been opened.
    pub jo_seen: bool,
    /// The article field whose text is being collected.
    pub field: Option<ArticleField>,
    /// The other text that is being collected.
    pub generic: Option<GenericCapture>,
    /// The text of the open 부칙.
    pub buchik: Option<Seq<char>>,
    /// The text collected so far.
    pub text: Seq<char>,
    /// The body so far.
    pub body: BodyModel,
}

/// What one event does to a scan.
pub enum BodyStepModel {
    /// The scan goes on.
    Continue(BodyScanModel),
    /// The scan is over.
    Stop(BodyOutcome),
}

/// The state before the first event.
pub open spec fn body_start() -> BodyScanModel {
    BodyScanModel {
        path: Seq::empty(),
        article: None,
        jo_seen: false,
        field: None,
        generic: None,
        buchik: None,
        text: Seq::empty(),
        body: empty_body(),
    }
}

impl BodyScanModel {
    /// Text is being collected.
    pub open spec fn collecting(self) -> bool {
        self.field is Some || self.generic is Some
    }

    /// The element opens a 조 inside a 조문.
    pub open spec fn opens_jo(self, tag: Seq<char>) -> bool {
        tag == "조"@ && self.path.contains("조문"@)
    }

    /// The article that is open behind the opening tag.
    pub open spec fn article_behind(self, tag: Seq<char>) -> Option<ArticleModel> {
        if self.opens_jo(tag) || (tag == "조문단위"@ && !self.jo_seen) {
            Some(empty_article())
        } else {
            self.article
        }
    }

    /// The article field that is collected behind the opening tag.
    pub open spec fn field_behind(self, tag: Seq<char>) -> Option<ArticleField> {
        if self.article_behind(tag) is Some && article_field(tag) is Some {
            article_field(tag)
        } else {
            self.field
        }
    }

    /// The other text that is collected behind the opening tag. A 부칙내용 counts inside a 부칙
    /// only.
    pub open spec fn generic_behind(self, tag: Seq<char>) -> Option<GenericCapture> {
        match generic_capture(tag) {
            Some(GenericCapture::Buchik) => if (self.path.contains("부칙"@)) {
                Some(GenericCapture::Buchik)
            } else {
                self.generic
            },
            Some(capture) => Some(capture),
            None => self.generic,
        }
    }

    /// An opening tag.
    pub open spec fn opened(self, tag: Seq<char>) -> BodyScanModel {
        let inner = BodyScanModel { path: self.path.push(tag), ..self };
        let next = BodyScanModel {
            article: inner.article_behind(tag),
            jo_seen: self.jo_seen || inner.opens_jo(tag),
            field: inner.field_behind(tag),
            generic: inner.generic_behind(tag),
            buchik: if tag == "부칙"@ {
                Some(Seq::empty())
            } else {
                self.buchik
            },
            ..inner
        };
        BodyScanModel {
            text: if next.collecting() {
                Seq::empty()
            } else {
                self.text
            },
            ..next
        }
    }

    /// A closing tag, as far as it ends the collection of an article field.
    pub open spec fn field_closed(self, tag: Seq<char>) -> BodyScanModel {
        match (self.field, self.article) {
            (Some(field), Some(article)) => if article_field(tag) == Some(field) {
                BodyScanModel {
                    article: Some(article.filled(field, trimmed(self.text))),
                    field: None,
                    text: Seq::empty(),
                    ..self
                }
            } else {
                self
            },
            _ => self,
        }
    }

    /// A closing tag, as far as it ends the collection of another text.
    pub open spec fn generic_closed(self, tag: Seq<char>) -> BodyScanModel {
        if self.generic is Some && generic_capture(tag) == self.generic {
            let captured = trimmed(self.text);
            let done = BodyScanModel { generic: None, text: Seq::empty(), ..self };
            match self.generic->0 {
                GenericCapture::Buchik => BodyScanModel {
                    buchik: if self.buchik == Some(Seq::<char>::empty()) {
                        Some(captured)
                    } else {
                        self.buchik
                    },
                    ..done
                },
                GenericCapture::Attachment => BodyScanModel {
                    body: BodyModel {
                        attachments: listed_once(self.body.attachments, captured),
                        ..self.body
                    },
                    ..done
                },
                GenericCapture::Related => BodyScanModel {
                    body: BodyModel {
                        related_laws: listed_once(self.body.related_laws, captured),
                        ..self.body
                    },
                    ..done
                },
            }
        } else {
            self
        }
    }

    /// A closing tag, as far as it ends an article.
    pub open spec fn article_closed(self, tag: Seq<char>) -> BodyScanModel {
        if is_article_tag(tag) {
            match self.article {
                Some(article) => BodyScanModel {
                    article: None,
                    body: if article.has_data() {
                        BodyModel { articles: self.body.articles.push(article), ..self.body }
                    } else {
                        self.body
                    },
                    ..self
                },
                None => self,
            }
        } else {
            self
        }
    }

    /// A closing tag, as far as it ends a 부칙.
    pub open spec fn buchik_closed(self, tag: Seq<char>) -> BodyScanModel {
        if tag == "부칙"@ {
            match self.buchik {
                Some(inner) => BodyScanModel {
                    buchik: None,
                    body: if inner.len() > 0 {
                        BodyModel { appendix: self.body.appendix.push(inner), ..self.body }
                    } else {
                        self.body
                    },
                    ..self
                },
                None => self,
            }
        } else {
            self
        }
    }

    /// A closing tag.
    pub open spec fn closed(self, tag: Seq<char>) -> BodyScanModel {
        let done = self.field_closed(tag).generic_closed(tag).article_closed(tag).buchik_closed(
            tag,
        );
        BodyScanModel {
            path: if self.path.len() > 0 {
                self.path.drop_last()
            } else {
                self.path
            },
            ..done
        }
    }

    /// What one event does.
    pub open spec fn step(self, token: Token) -> BodyStepModel {
        match token {
            Token::Start(name) => match name_text(name) {
                Ok(tag) => BodyStepModel::Continue(self.opened(tag)),
                Err(error) => BodyStepModel::Stop(Err(error)),
            },
            Token::Text(bytes) => if self.collecting() {
                match node_text(bytes) {
                    Ok(more) => BodyStepModel::Continue(
                        BodyScanModel { text: self.text + more, ..self },
                    ),
                    Err(error) => BodyStepModel::Stop(Err(error)),
                }
            } else {
                BodyStepModel::Continue(self)
            },
            Token::CData(bytes) => if self.collecting() {
                BodyStepModel::Continue(
                    BodyScanModel { text: self.text + utf8_lossy(bytes), ..self },
                )
            } else {
                BodyStepModel::Continue(self)
            },
            Token::End(name) => match name_text(name) {
                Ok(tag) => BodyStepModel::Continue(self.closed(tag)),
                Err(error) => BodyStepModel::Stop(Err(error)),
            },
            Token::Empty(_) => BodyStepModel::Continue(self),
            Token::Other => BodyStepModel::Continue(self),
            Token::Eof => BodyStepModel::Stop(Ok(self.body)),
            Token::Fault(text) => BodyStepModel::Stop(Err(ParseErrorModel::Xml(text))),
        }
    }
}

/// The outcome of a scan that goes through the given events. The document ends with them.
pub open spec fn body_outcome(state: BodyScanModel, events: Seq<Token>) -> BodyOutcome
    decreases events.len(),
{
    if events.len() == 0 {
        Ok(state.body)
    } else {
        match state.step(events[0]) {
            BodyStepModel::Continue(next) => body_outcome(next, events.drop_first()),
            BodyStepModel::Stop(outcome) => outcome,
        }
    }
}

/// The view of a parsing result.
pub open spec fn body_result(r: Result<OrdinanceBody, ParseError>) -> BodyOutcome {
    match r {
        Ok(body) => Ok(body@),
        Err(error) => Err(error@),
    }
}

struct BodyScan {
    path: Vec<String>,
    article: Option<Article>,
    jo_seen: bool,
    field: Option<ArticleField>,
    generic: Option<GenericCapture>,
    buchik: Option<String>,
    text: String,
    body: OrdinanceBody,
}

enum BodyStep {
    Continue(BodyScan),
    Stop(Result<OrdinanceBody, ParseError>),
}

impl View for BodyScan {
    type V = BodyScanModel;

    closed spec fn view(&self) -> BodyScanModel {
        BodyScanModel {
            path: texts(self.path@),
            article: match self.article {
                Some(article) => Some(article@),
                None => None,
            },
            jo_seen: self.jo_seen,
            field: self.field,
            generic: self.generic,
            buchik: match self.buchik {
                Some(inner) => Some(inner@),
                None => None,
            },
            text: self.text@,
            body: self.body@,
        }
    }
}

impl View for BodyStep {
    type V = BodyStepModel;

    closed spec fn view(&self) -> BodyStepModel {
        match *self {
            BodyStep::Continue(scan) => BodyStepModel::Continue(scan@),
            BodyStep::Stop(r) => BodyStepModel::Stop(body_result(r)),
        }
    }
}

/// The article field that an element of this name fills.
pub fn field_of_tag(tag: &str) -> (r: Option<ArticleField>)
    ensures
        r == article_field(tag@),
{
    if same_text(tag, "조문번호") {
        Some(ArticleField::Number)
    } else if same_text(tag, "조제목") || same_text(tag, "조문제목") {
        Some(ArticleField::Title)
    } else if same_text(tag, "조내용") || same_text(tag, "조문내용") {
        Some(ArticleField::Content)
    } else {
        None
    }
}

/// The collected text that an element of this name holds.
pub fn capture_of_tag(tag: &str) -> (r: Option<GenericCapture>)
    ensures
        r == generic_capture(tag@),
{
    if same_text(tag, "부칙내용") {
        Some(GenericCapture::Buchik)
    } else if same_text(tag, "첨부파일명") || same_text(tag, "별표서식파일명") || same_text(
        tag,
        "별표파일명",
    ) || same_text(tag, "파일명") {
        Some(GenericCapture::Attachment)
    } else if same_text(tag, "관련법령명") || same_text(tag, "관련법령") || same_text(tag, "상위법령명") {
        Some(GenericCapture::Related)
    } else {
        None
    }
}

/// Tests whether `ancestor` appears anywhere in `path`.
pub fn path_contains(path: &Vec<String>, ancestor: &str) -> (r: bool)
    ensures
        r == texts(path@).contains(ancestor@),
{
    let mut i: usize = 0;
    while i < path.len()
        invariant
            i <= path@.len(),
            forall|j: int| 0 <= j < i ==> texts(path@)[j] != ancestor@,
        decreases path@.len() - i,
    {
        if same_text(path[i].as_str(), ancestor) {
            assert(texts(path@)[i as int] == ancestor@);
            return true;
        }
        i += 1;
    }
    false
}

/// Appends a text to a list, unless the text is empty or already in the list.
fn list_once(list: &mut Vec<String>, value: String)
    ensures
        texts(final(list)@) == listed_once(texts(old(list)@), value@),
{
    if !value.as_str().is_empty() && !path_contains(list, value.as_str()) {
        list.push(value);
        assert(texts(list@) =~= texts(old(list)@).push(value@));
    }
}

impl BodyScan {
    fn collecting(&self) -> (r: bool)
        ensures
            r == self@.collecting(),
    {
        self.field.is_some() || self.generic.is_some()
    }

    fn opened(self, tag: String) -> (r: BodyScan)
        ensures
            r@ == self@.opened(tag@),
    {
        let mut scan = self;
        let name = tag.clone();
        scan.path.push(tag);
        assert(texts(scan.path@) =~= texts(self.path@).push(name@));
        let tag = name.as_str();

        if same_text(tag, "조") && path_contains(&scan.path, "조문") {
            scan.article = Some(Article::default());
            scan.jo_seen = true;
        } else if same_text(tag, "조문단위") && !scan.jo_seen {
            scan.article = Some(Article::default());
        }
        if same_text(tag, "부칙") {
            scan.buchik = Some(String::new());
        }
        if scan.article.is_some() {
            match field_of_tag(tag) {
                Some(field) => {
                    scan.field = Some(field);
                },
                None => {},
            }
        }
        match capture_of_tag(tag) {
            Some(GenericCapture::Buchik) => {
                if path_contains(&scan.path, "부칙") {
                    scan.generic = Some(GenericCapture::Buchik);
                }
            },
            Some(capture) => {
                scan.generic = Some(capture);
            },
            None => {},
        }
        if scan.collecting() {
            scan.text = String::new();
        }
        scan
    }

    fn field_closed(self, tag: &str) -> (r: BodyScan)
        ensures
            r@ == self@.field_closed(tag@),
    {
        let mut scan = self;
        let matched = field_of_tag(tag);
        if scan.field.is_some() && matched == scan.field {
            if let Some(open) = scan.article {
                let mut article = open;
                let captured = trim(scan.text.as_str());
                match matched {
                    Some(ArticleField::Number) => {
                        if article.number_raw.as_str().is_empty() {
                            article.number_raw = captured;
                        }
                    },
                    Some(ArticleField::Title) => {
                        if article.title.as_str().is_empty() {
                            article.title = captured;
                        }
                    },
                    Some(ArticleField::Content) => {
                        if article.content.as_str().is_empty() {
                            article.content = captured;
                        }
                    },
                    None => {},
                }
                scan.article = Some(article);
                scan.field = None;
                scan.text = String::new();
            }
        }
        scan
    }

    fn generic_closed(self, tag: &str) -> (r: BodyScan)
        ensures
            r@ == self@.generic_closed(tag@),
    {
        let mut scan = self;
        let matched = capture_of_tag(tag);
        if scan.generic.is_some() && matched == scan.generic {
            let captured = trim(scan.text.as_str());
            match matched {
                Some(GenericCapture::Buchik) => {
                    let fresh = match &scan.buchik {
                        Some(inner) => inner.as_str().is_empty(),
                        None => false,
                    };
                    if fresh {
                        assert(self.buchik->0@ =~= Seq::<char>::empty());
                        scan.buchik = Some(captured);
                    }
                },
                Some(GenericCapture::Attachment) => list_once(&mut scan.body.attachments, captured),
                Some(GenericCapture::Related) => list_once(&mut scan.body.related_laws, captured),
                None => {},
            }
            scan.generic = None;
            scan.text = String::new();
        }
        scan
    }

    fn article_closed(self, tag: &str) -> (r: BodyScan)
        ensures
            r@ == self@.article_closed(tag@),
    {
        let mut scan = self;
        if same_text(tag, "조") || same_text(tag, "조문단위") {
            if let Some(article) = scan.article {
                let has_data = !article.number_raw.as_str().is_empty()
                    || !article.title.as_str().is_empty() || !article.content.as_str().is_empty();
                if has_data {
                    scan.body.articles.push(article);
                    assert(article_models(scan.body.articles@) =~= article_models(
                        self.body.articles@,
                    ).push(article@));
                }
            }
            scan.article = None;
        }
        scan
    }

    fn buchik_closed(self, tag: &str) -> (r: BodyScan)
        ensures
            r@ == self@.buchik_closed(tag@),
    {
        let mut scan = self;
        if same_text(tag, "부칙") {
            if let Some(inner) = scan.buchik {
                if !inner.as_str().is_empty() {
                    scan.body.appendix.push(inner);
                    assert(texts(scan.body.appendix@) =~= texts(self.body.appendix@).push(inner@));
                }
            }
            scan.buchik = None;
        }
        scan
    }

    fn closed(self, tag: String) -> (r: BodyScan)
        ensures
            r@ == self@.closed(tag@),
    {
        let name = tag.as_str();
        let mut scan = self.field_closed(name).generic_closed(name).article_closed(
            name,
        ).buchik_closed(name);
        let ghost path = scan.path@;
        let _ = scan.path.pop();
        assert(path.len() > 0 ==> texts(scan.path@) =~= texts(path).drop_last());
        assert(path.len() == 0 ==> texts(scan.path@) =~= texts(path));
        scan
    }

    fn step(self, event: &XmlEvent) -> (r: BodyStep)
        ensures
            r@ == self@.step(event@),
    {
        let mut scan = self;
        match event {
            XmlEvent::Start(name) => match decode_name(name.as_slice()) {
                Ok(tag) => BodyStep::Continue(scan.opened(tag)),
                Err(error) => BodyStep::Stop(Err(error)),
            },
            XmlEvent::Text(bytes) => {
                if scan.collecting() {
                    match decode_text(bytes.as_slice()) {
                        Ok(more) => scan.text.append(more.as_str()),
                        Err(error) => return BodyStep::Stop(Err(error)),
                    }
                }
                BodyStep::Continue(scan)
            },
            XmlEvent::CData(bytes) => {
                if scan.collecting() {
                    let more = decode_cdata(bytes.as_slice());
                    scan.text.append(more.as_str());
                }
                BodyStep::Continue(scan)
            },
            XmlEvent::End(name) => match decode_name(name.as_slice()) {
                Ok(tag) => BodyStep::Continue(scan.closed(tag)),
                Err(error) => BodyStep::Stop(Err(error)),
            },
            XmlEvent::Empty(_) => BodyStep::Continue(scan),
            XmlEvent::Other => BodyStep::Continue(scan),
            XmlEvent::Eof => BodyStep::Stop(Ok(scan.body)),
            XmlEvent::Fault(text) => BodyStep::Stop(Err(ParseError::Xml(text.clone()))),
        }
    }
}

/// Reads the body off the events of a document.
pub fn body_from_events(events: &Vec<XmlEvent>) -> (r: Result<OrdinanceBody, ParseError>)
    ensures
        body_result(r) == body_outcome(body_start(), tokens(events@)),
{
    let mut scan = BodyScan {
        path: Vec::new(),
        article: None,
        jo_seen: false,
        field: None,
        generic: None,
        buchik: None,
        text: String::new(),
        body: OrdinanceBody::default(),
    };
    let ghost all = tokens(events@);
    let mut i: usize = 0;
    assert(all.skip(0) =~= all);
    assert(scan@.path =~= body_start().path);
    assert(scan@ == body_start());
    while i < events.len()
        invariant
            i <= events@.len(),
            all == tokens(events@),
            body_outcome(body_start(), all) == body_outcome(scan@, all.skip(i as int)),
        decreases events@.len() - i,
    {
        assert(all.skip(i as int)[0] == events@[i as int]@);
        assert(all.skip(i as int).drop_first() =~= all.skip(i + 1));
        match scan.step(&events[i]) {
            BodyStep::Continue(next) => {
                scan = next;
            },
            BodyStep::Stop(r) => {
                return r;
            },
        }
        i += 1;
    }
    Ok(scan.body)
}

/// Parses the full body needed for Markdown rendering.
pub fn parse_ordinance_body(xml: &[u8]) -> (r: Result<OrdinanceBody, ParseError>)
    ensures
        body_result(r) == body_outcome(body_start(), xml_events(xml@)),
{
    let events = read_events(xml);
    body_from_events(&events)
}

/// The list holds no empty text, and none twice.
pub open spec fn is_listing(list: Seq<Seq<char>>) -> bool {
    list.no_duplicates() && forall|i: int| 0 <= i < list.len() ==> (#[trigger] list[i]).len() > 0
}

/// A body as documents give it: every article says something, no appendix text is empty, and no
/// attachment and no related law is empty or there twice.
pub open spec fn is_tidy(body: BodyModel) -> bool {
    &&& forall|i: int| 0 <= i < body.articles.len() ==> (#[trigger] body.articles[i]).has_data()
    &&& forall|i: int| 0 <= i < body.appendix.len() ==> (#[trigger] body.appendix[i]).len() > 0
    &&& is_listing(body.attachments)
    &&& is_listing(body.related_laws)
}

proof fn lemma_tidy_from(state: BodyScanModel, events: Seq<Token>)
    requires
        is_tidy(state.body),
    ensures
        body_outcome(state, events) matches Ok(body) ==> is_tidy(body),
    decreases events.len(),
{
    if events.len() > 0 {
        match state.step(events[0]) {
            BodyStepModel::Continue(next) => {
                lemma_tidy_from(next, events.drop_first());
            },
            BodyStepModel::Stop(_) => {},
        }
    }
}

/// The body that is read from a document is tidy.
pub proof fn lemma_body_tidy(events: Seq<Token>)
    ensures
        body_outcome(body_start(), events) matches Ok(body) ==> is_tidy(body),
{
    lemma_tidy_from(body_start(), events);
}

proof fn lemma_tags(tag: Seq<char>)
    ensures
        article_field(tag) is Some ==> tag != "조"@ && tag != "조문단위"@ && tag != "부칙"@
            && generic_capture(tag) is None,
        generic_capture(tag) is Some ==> tag != "조"@ && tag != "조문단위"@ && tag != "부칙"@
            && article_field(tag) is None,
        generic_capture("부칙내용"@) == Some(GenericCapture::Buchik),
        generic_capture("부칙"@) is None,
        generic_capture("조"@) is None,
        article_field("부칙"@) is None,
        article_field("조"@) is None,
        "조"@ != "부칙"@,
        "조문단위"@ != "부칙"@,
        "조"@ != "조문"@,
{
    reveal_strlit("조");
    reveal_strlit("조문");
    reveal_strlit("조문단위");
    reveal_strlit("부칙");
    reveal_strlit("부칙내용");
    reveal_strlit("조문번호");
    reveal_strlit("조제목");
    reveal_strlit("조문제목");
    reveal_strlit("조내용");
    reveal_strlit("조문내용");
    reveal_strlit("첨부파일명");
    reveal_strlit("별표서식파일명");
    reveal_strlit("별표파일명");
    reveal_strlit("파일명");
    reveal_strlit("관련법령명");
    reveal_strlit("관련법령");
    reveal_strlit("상위법령명");
    assert("조"@.len() == 1);
    assert("조문"@.len() == 2);
    assert("조문단위"@.len() == 4);
    assert("부칙"@.len() == 2);
    assert("부칙내용"@.len() == 4);
    assert("조문번호"@.len() == 4);
    assert("조제목"@.len() == 3);
    assert("조문제목"@.len() == 4);
    assert("조내용"@.len() == 3);
    assert("조문내용"@.len() == 4);
    assert("첨부파일명"@.len() == 5);
    assert("별표서식파일명"@.len() == 7);
    assert("별표파일명"@.len() == 5);
    assert("파일명"@.len() == 3);
    assert("관련법령명"@.len() == 5);
    assert("관련법령"@.len() == 4);
    assert("상위법령명"@.len() == 5);
    assert("조문단위"@[2] != "조문번호"@[2]);
    assert("조문단위"@[2] != "조문제목"@[2]);
    assert("조문단위"@[2] != "조문내용"@[2]);
    assert("조문단위"@[0] != "관련법령"@[0]);
    assert("조문단위"@[0] != "부칙내용"@[0]);
    assert("부칙내용"@[0] != "조문번호"@[0]);
    assert("부칙내용"@[0] != "조문제목"@[0]);
    assert("부칙내용"@[0] != "조문내용"@[0]);
    assert("관련법령"@[0] != "조문번호"@[0]);
    assert("관련법령"@[0] != "조문제목"@[0]);
    assert("관련법령"@[0] != "조문내용"@[0]);
    assert("파일명"@[0] != "조제목"@[0]);
    assert("파일명"@[0] != "조내용"@[0]);
}

/// The article with what text elements say: each fills its field, if that is still empty.
pub open spec fn article_of(article: ArticleModel, elements: Seq<TextElement>) -> ArticleModel
    decreases elements.len(),
{
    if elements.len() == 0 {
        article
    } else {
        let first = elements[0];
        let next = match article_field(name_text(first.name)->Ok_0) {
            Some(field) => article.filled(field, trimmed(element_text(first))),
            None => article,
        };
        article_of(next, elements.drop_first())
    }
}

/// Between elements, where nothing is collected, text says nothing.
pub proof fn lemma_gap_passed(state: BodyScanModel, gap: Seq<Token>, rest: Seq<Token>)
    requires
        !state.collecting(),
        is_text_run(gap),
    ensures
        body_outcome(state, gap + rest) == body_outcome(state, rest),
    decreases gap.len(),
{
    if gap.len() == 0 {
        assert(gap + rest =~= rest);
    } else {
        let more = gap.drop_first();
        assert(is_text_token(gap[0]));
        assert forall|i: int| 0 <= i < more.len() implies is_text_token(#[trigger] more[i]) by {
            assert(more[i] == gap[i + 1]);
        }
        assert((gap + rest).drop_first() =~= more + rest);
        lemma_gap_passed(state, more, rest);
    }
}

proof fn lemma_content_collected(state: BodyScanModel, content: Seq<Token>, rest: Seq<Token>)
    requires
        state.collecting(),
        is_text_run(content),
        forall|i: int| 0 <= i < content.len() ==> token_text(#[trigger] content[i]) is Ok,
    ensures
        body_outcome(state, content + rest) == body_outcome(
            BodyScanModel { text: state.text + run_text(content), ..state },
            rest,
        ),
    decreases content.len(),
{
    if content.len() == 0 {
        assert(content + rest =~= rest);
        assert(state.text + run_text(content) =~= state.text);
    } else {
        let more = content.drop_first();
        let first = content[0];
        assert(is_text_token(first) && token_text(first) is Ok);
        assert forall|i: int| 0 <= i < more.len() implies is_text_token(#[trigger] more[i])
            && token_text(more[i]) is Ok by {
            assert(more[i] == content[i + 1]);
        }
        assert((content + rest).drop_first() =~= more + rest);
        let text = token_text(first)->Ok_0;
        let next = BodyScanModel { text: state.text + text, ..state };
        assert(state.text + Seq::<char>::empty() =~= state.text);
        assert(state.step(first) == BodyStepModel::Continue(next));
        lemma_content_collected(next, more, rest);
        assert(next.text + run_text(more) =~= state.text + run_text(content));
    }
}

proof fn lemma_element_read(
    state: BodyScanModel,
    element: TextElement,
    rest: Seq<Token>,
    after: BodyScanModel,
)
    requires
        is_readable(element),
        !state.collecting(),
        ({
            let tag = name_text(element.name)->Ok_0;
            let opened = state.opened(tag);
            &&& opened.collecting()
            &&& after == (BodyScanModel { text: element_text(element), ..opened }).closed(tag)
        }),
    ensures
        body_outcome(state, element_events(seq![element]) + rest) == body_outcome(after, rest),
{
    let tag = name_text(element.name)->Ok_0;
    let opened = state.opened(tag);
    let tail = seq![Token::End(element.name)] + rest;
    let inner = element.content + tail;
    let all = seq![Token::Start(element.name)] + inner;
    lemma_one_element(element, rest);
    lemma_gap_passed(state, element.gap, all);
    assert(all.drop_first() =~= inner);
    assert(body_outcome(state, all) == body_outcome(opened, inner));
    lemma_content_collected(opened, element.content, tail);
    assert(opened.text + run_text(element.content) =~= run_text(element.content));
    assert(tail.drop_first() =~= rest);
}

proof fn lemma_fields_read(
    state: BodyScanModel,
    article: ArticleModel,
    elements: Seq<TextElement>,
    rest: Seq<Token>,
) -> (text: Seq<char>)
    requires
        state.article == Some(article),
        state.field is None,
        state.generic is None,
        forall|i: int|
            0 <= i < elements.len() ==> is_readable(#[trigger] elements[i]) && article_field(
                name_text(elements[i].name)->Ok_0,
            ) is Some,
    ensures
        body_outcome(state, element_events(elements) + rest) == body_outcome(
            BodyScanModel { article: Some(article_of(article, elements)), text, ..state },
            rest,
        ),
    decreases elements.len(),
{
    if elements.len() == 0 {
        assert(element_events(elements) + rest =~= rest);
        state.text
    } else {
        let first = elements[0];
        let more = elements.drop_first();
        assert(is_readable(first));
        let tag = name_text(first.name)->Ok_0;
        lemma_tags(tag);
        let value = element_text(first);
        let field = article_field(tag)->0;
        let after = BodyScanModel {
            article: Some(article.filled(field, trimmed(value))),
            text: Seq::empty(),
            ..state
        };
        assert(state.opened(tag).path.drop_last() =~= state.path);
        lemma_element_read(state, first, element_events(more) + rest, after);
        lemma_first_element(elements, rest);
        assert forall|i: int| 0 <= i < more.len() implies is_readable(#[trigger] more[i])
            && article_field(name_text(more[i].name)->Ok_0) is Some by {
            assert(more[i] == elements[i + 1]);
        }
        lemma_fields_read(after, article.filled(field, trimmed(value)), more, rest)
    }
}

/// A 조 inside a 조문 gives one article, with what its elements say, or none where they say nothing.
pub proof fn lemma_article_read(
    state: BodyScanModel,
    name: Seq<u8>,
    elements: Seq<TextElement>,
    gap: Seq<Token>,
    rest: Seq<Token>,
) -> (text: Seq<char>)
    requires
        name_text(name) == Ok::<_, ParseErrorModel>("조"@),
        state.path.contains("조문"@),
        state.field is None,
        state.generic is None,
        forall|i: int|
            0 <= i < elements.len() ==> is_readable(#[trigger] elements[i]) && article_field(
                name_text(elements[i].name)->Ok_0,
            ) is Some,
        is_text_run(gap),
    ensures
        ({
            let article = article_of(empty_article(), elements);
            body_outcome(
                state,
                seq![Token::Start(name)] + element_events(elements) + gap + seq![Token::End(name)]
                    + rest,
            ) == body_outcome(
                BodyScanModel {
                    article: None,
                    jo_seen: true,
                    text,
                    body: if article.has_data() {
                        BodyModel { articles: state.body.articles.push(article), ..state.body }
                    } else {
                        state.body
                    },
                    ..state
                },
                rest,
            )
        }),
{
    lemma_tags("조"@);
    let tail = seq![Token::End(name)] + rest;
    let events = seq![Token::Start(name)] + element_events(elements) + gap + seq![Token::End(name)]
        + rest;
    let k = choose|k: int| 0 <= k < state.path.len() && state.path[k] == "조문"@;
    let opened = state.opened("조"@);
    assert(opened.path[k] == "조문"@);
    assert(opened.path.contains("조문"@));
    assert(opened.article == Some(empty_article()));
    assert(events.drop_first() =~= element_events(elements) + (gap + tail));
    assert(body_outcome(state, events) == body_outcome(
        opened,
        element_events(elements) + (gap + tail),
    ));
    let text = lemma_fields_read(opened, empty_article(), elements, gap + tail);
    let filled = BodyScanModel {
        article: Some(article_of(empty_article(), elements)),
        text,
        ..opened
    };
    lemma_gap_passed(filled, gap, tail);
    assert(tail.drop_first() =~= rest);
    assert(opened.path.drop_last() =~= state.path);
    text
}

/// A 부칙 with one 부칙내용 gives one appendix text, unless that is empty.
pub proof fn lemma_appendix_read(
    state: BodyScanModel,
    name: Seq<u8>,
    content: TextElement,
    gap: Seq<Token>,
    rest: Seq<Token>,
)
    requires
        name_text(name) == Ok::<_, ParseErrorModel>("부칙"@),
        name_text(content.name) == Ok::<_, ParseErrorModel>("부칙내용"@),
        is_readable(content),
        state.field is None,
        state.generic is None,
        is_text_run(gap),
    ensures
        ({
            let value = trimmed(element_text(content));
            body_outcome(
                state,
                seq![Token::Start(name)] + element_events(seq![content]) + gap + seq![
                    Token::End(name),
                ] + rest,
            ) == body_outcome(
                BodyScanModel {
                    buchik: None,
                    text: Seq::empty(),
                    body: if value.len() > 0 {
                        BodyModel { appendix: state.body.appendix.push(value), ..state.body }
                    } else {
                        state.body
                    },
                    ..state
                },
                rest,
            )
        }),
{
    lemma_tags("부칙"@);
    lemma_tags("부칙내용"@);
    let tail = seq![Token::End(name)] + rest;
    let events = seq![Token::Start(name)] + element_events(seq![content]) + gap + seq![
        Token::End(name),
    ] + rest;
    let value = element_text(content);
    let opened = state.opened("부칙"@);
    assert(events.drop_first() =~= element_events(seq![content]) + (gap + tail));
    assert(body_outcome(state, events) == body_outcome(
        opened,
        element_events(seq![content]) + (gap + tail),
    ));
    let inner = opened.opened("부칙내용"@);
    assert(opened.path.push("부칙내용"@)[opened.path.len() - 1] == "부칙"@);
    assert(opened.path.push("부칙내용"@).contains("부칙"@));
    assert(inner.path.drop_last() =~= opened.path);
    let after = BodyScanModel { buchik: Some(trimmed(value)), text: Seq::empty(), ..opened };
    lemma_element_read(opened, content, gap + tail, after);
    lemma_gap_passed(after, gap, tail);
    assert(tail.drop_first() =~= rest);
    assert(opened.path.drop_last() =~= state.path);
}

/// An element with the name of an attachment or of a related law puts it at the end of its list,
/// unless it is empty or already there.
pub proof fn lemma_list_element_read(
    state: BodyScanModel,
    element: TextElement,
    rest: Seq<Token>,
)
    requires
        is_readable(element),
        generic_capture(name_text(element.name)->Ok_0) matches Some(capture)
            && !(capture is Buchik),
        state.field is None,
        state.generic is None,
    ensures
        ({
            let value = trimmed(element_text(element));
            let body = state.body;
            body_outcome(state, element_events(seq![element]) + rest) == body_outcome(
                BodyScanModel {
                    text: Seq::empty(),
                    body: if generic_capture(name_text(element.name)->Ok_0)->0 is Attachment {
                        BodyModel { attachments: listed_once(body.attachments, value), ..body }
                    } else {
                        BodyModel { related_laws: listed_once(body.related_laws, value), ..body }
                    },
                    ..state
                },
                rest,
            )
        }),
{
    let tag = name_text(element.name)->Ok_0;
    lemma_tags(tag);
    let value = element_text(element);
    assert(state.opened(tag).path.drop_last() =~= state.path);
    let body = state.body;
    let after = BodyScanModel {
        text: Seq::empty(),
        body: if generic_capture(tag)->0 is Attachment {
            BodyModel { attachments: listed_once(body.attachments, trimmed(value)), ..body }
        } else {
            BodyModel { related_laws: listed_once(body.related_laws, trimmed(value)), ..body }
        },
        ..state
    };
    lemma_element_read(state, element, rest, after);
}

/// Which elements fill which field of an article, hold which other text, and close an article: each
/// of the names that documents use, and no other.
pub proof fn lemma_element_names(tag: Seq<char>)
    ensures
        article_field(tag) == Some(ArticleField::Number) <==> tag == "조문번호"@,
        article_field(tag) == Some(ArticleField::Title) <==> tag == "조제목"@ || tag == "조문제목"@,
        article_field(tag) == Some(ArticleField::Content) <==> tag == "조내용"@ || tag
            == "조문내용"@,
        generic_capture(tag) == Some(GenericCapture::Buchik) <==> tag == "부칙내용"@,
        generic_capture(tag) == Some(GenericCapture::Attachment) <==> tag == "첨부파일명"@ || tag
            == "별표서식파일명"@ || tag == "별표파일명"@ || tag == "파일명"@,
        generic_capture(tag) == Some(GenericCapture::Related) <==> tag == "관련법령명"@ || tag
            == "관련법령"@ || tag == "상위법령명"@,
        is_article_tag(tag) <==> tag == "조"@ || tag == "조문단위"@,
{
    lemma_tags(tag);
    reveal_strlit("조문번호");
    reveal_strlit("조제목");
    reveal_strlit("조문제목");
    reveal_strlit("조내용");
    reveal_strlit("조문내용");
    reveal_strlit("부칙내용");
    reveal_strlit("첨부파일명");
    reveal_strlit("별표서식파일명");
    reveal_strlit("별표파일명");
    reveal_strlit("파일명");
    reveal_strlit("관련법령명");
    reveal_strlit("관련법령");
    reveal_strlit("상위법령명");
    assert("조문번호"@.len() == 4 && "조제목"@.len() == 3 && "조문제목"@.len() == 4);
    assert("조내용"@.len() == 3 && "조문내용"@.len() == 4 && "부칙내용"@.len() == 4);
    assert("첨부파일명"@.len() == 5 && "별표서식파일명"@.len() == 7 && "별표파일명"@.len() == 5);
    assert("파일명"@.len() == 3 && "관련법령명"@.len() == 5 && "관련법령"@.len() == 4);
    assert("상위법령명"@.len() == 5);
    assert("조문번호"@[2] != "조문제목"@[2] && "조문번호"@[2] != "조문내용"@[2]);
    assert("조문제목"@[2] != "조문내용"@[2] && "조제목"@[1] != "조내용"@[1]);
    assert("부칙내용"@[0] != "관련법령"@[0]);
    assert("첨부파일명"@[0] != "관련법령명"@[0] && "첨부파일명"@[0] != "상위법령명"@[0]);
    assert("별표파일명"@[0] != "관련법령명"@[0] && "별표파일명"@[0] != "상위법령명"@[0]);
}

/// To fill a field of an article changes nothing else, and nothing where the field says something
/// already. An article has data exactly where its number, its title or its content says something.
pub proof fn lemma_article_fields(
    article: ArticleModel,
    field: ArticleField,
    other: ArticleField,
    value: Seq<char>,
)
    ensures
        article.get(ArticleField::Number) == article.number_raw,
        article.get(ArticleField::Title) == article.title,
        article.get(ArticleField::Content) == article.content,
        article.get(field).len() == 0 ==> article.filled(field, value).get(field) == value,
        article.get(field).len() > 0 ==> article.filled(field, value) == article,
        other != field ==> article.filled(field, value).get(other) == article.get(other),
        article.has_data() <==> exists|f: ArticleField| (#[trigger] article.get(f)).len() > 0,
{
    if article.has_data() {
        assert(article.get(ArticleField::Number).len() > 0 || article.get(ArticleField::Title).len()
            > 0 || article.get(ArticleField::Content).len() > 0);
    }
}

/// A text that is not empty is in a list once it was taken in. What was there before is there still,
/// in its place, and the list is longer by one exactly where the text was not there. An empty text
/// is not taken in.
pub proof fn lemma_listed_once(list: Seq<Seq<char>>, value: Seq<char>)
    ensures
        value.len() > 0 ==> listed_once(list, value).contains(value),
        list.is_prefix_of(listed_once(list, value)),
        listed_once(list, value).len() == list.len() + if value.len() > 0 && !list.contains(value) {
            1int
        } else {
            0
        },
        value.len() > 0 && !list.contains(value) ==> listed_once(list, value).last() == value,
{
    if value.len() > 0 && !list.contains(value) {
        let now = listed_once(list, value);
        assert(now[list.len() as int] == value);
    }
}

/// What has been read of a body stays: its articles, appendix texts, attachments and related laws
/// are the first ones of the finished body.
pub proof fn lemma_body_grows(state: BodyScanModel, events: Seq<Token>)
    ensures
        body_outcome(state, events) matches Ok(body) ==> {
            &&& state.body.articles.is_prefix_of(body.articles)
            &&& state.body.appendix.is_prefix_of(body.appendix)
            &&& state.body.attachments.is_prefix_of(body.attachments)
            &&& state.body.related_laws.is_prefix_of(body.related_laws)
        },
    decreases events.len(),
{
    if events.len() > 0 {
        match state.step(events[0]) {
            BodyStepModel::Continue(next) => {
                lemma_body_grows(next, events.drop_first());
            },
            BodyStepModel::Stop(_) => {},
        }
    }
}

proof fn lemma_prefix_contains(a: Seq<Seq<char>>, b: Seq<Seq<char>>, x: Seq<char>)
    requires
        a.is_prefix_of(b),
        a.contains(x),
    ensures
        b.contains(x),
{
    let k = choose|k: int| 0 <= k < a.len() && a[k] == x;
    assert(b[k] == x);
}

/// Every attachment and every related law that a document names is in the list of the body, with
/// its trimmed text, directly behind those that were named before unless it was named before.
pub proof fn lemma_named_is_listed(state: BodyScanModel, element: TextElement, rest: Seq<Token>)
    requires
        is_readable(element),
        trimmed(element_text(element)).len() > 0,
        state.field is None,
        state.generic is None,
    ensures
        ({
            let tag = name_text(element.name)->Ok_0;
            let value = trimmed(element_text(element));
            body_outcome(state, element_events(seq![element]) + rest) matches Ok(body) ==> {
                &&& tag == "첨부파일명"@ || tag == "별표서식파일명"@ || tag == "별표파일명"@ || tag
                    == "파일명"@ ==> body.attachments.contains(value) && (
                state.body.attachments.contains(value) || state.body.attachments.push(
                    value,
                ).is_prefix_of(body.attachments))
                &&& tag == "관련법령명"@ || tag == "관련법령"@ || tag == "상위법령명"@
                    ==> body.related_laws.contains(value) && (state.body.related_laws.contains(
                    value,
                ) || state.body.related_laws.push(value).is_prefix_of(body.related_laws))
            }
        }),
{
    let tag = name_text(element.name)->Ok_0;
    let value = trimmed(element_text(element));
    lemma_element_names(tag);
    if let Some(capture) = generic_capture(tag) {
        if !(capture is Buchik) {
            lemma_list_element_read(state, element, rest);
            let body = state.body;
            let after = BodyScanModel {
                text: Seq::empty(),
                body: if capture is Attachment {
                    BodyModel { attachments: listed_once(body.attachments, value), ..body }
                } else {
                    BodyModel { related_laws: listed_once(body.related_laws, value), ..body }
                },
                ..state
            };
            lemma_body_grows(after, rest);
            if let Ok(done) = body_outcome(after, rest) {
                if capture is Attachment {
                    lemma_listed_once(body.attachments, value);
                    lemma_prefix_contains(after.body.attachments, done.attachments, value);
                } else {
                    lemma_listed_once(body.related_laws, value);
                    lemma_prefix_contains(after.body.related_laws, done.related_laws, value);
                }
            }
        }
    }
}

/// The element fills the field of an article, and says something.
pub open spec fn tells(element: TextElement, field: ArticleField) -> bool {
    article_field(name_text(element.name)->Ok_0) == Some(field) && trimmed(
        element_text(element),
    ).len() > 0
}

proof fn lemma_first_telling(elements: Seq<TextElement>, field: ArticleField) -> (first: int)
    ensures
        0 <= first <= elements.len(),
        forall|j: int| 0 <= j < first ==> !tells(#[trigger] elements[j], field),
        first < elements.len() ==> tells(elements[first], field),
    decreases elements.len(),
{
    if elements.len() == 0 || tells(elements[0], field) {
        0
    } else {
        let rest = elements.drop_first();
        let first = lemma_first_telling(rest, field);
        assert forall|j: int| 0 <= j < first + 1 implies !tells(#[trigger] elements[j], field) by {
            if j > 0 {
                assert(elements[j] == rest[j - 1]);
            }
        }
        first + 1
    }
}

/// Of the elements of an article for one field, the first that says something fills it, with its
/// trimmed text. A field for which none says anything stays empty.
pub proof fn lemma_article_field(
    article: ArticleModel,
    elements: Seq<TextElement>,
    field: ArticleField,
    first: int,
)
    requires
        0 <= first <= elements.len(),
        forall|j: int| 0 <= j < first ==> !tells(#[trigger] elements[j], field),
        first < elements.len() ==> tells(elements[first], field),
    ensures
        article_of(article, elements).get(field) == (if article.get(field).len() > 0 {
            article.get(field)
        } else if first < elements.len() {
            trimmed(element_text(elements[first]))
        } else {
            Seq::empty()
        }),
    decreases elements.len(),
{
    if elements.len() == 0 {
        assert(article.get(field).len() == 0 ==> article.get(field) =~= Seq::<char>::empty());
    } else {
        let head = elements[0];
        let rest = elements.drop_first();
        let value = trimmed(element_text(head));
        let next = article_of(article, seq![head]);
        assert(article_of(article, elements) == article_of(next, rest)) by {
            reveal_with_fuel(article_of, 2);
            assert(seq![head].drop_first() =~= Seq::<TextElement>::empty());
        }
        assert(next.get(field) == if article.get(field).len() == 0 && article_field(
            name_text(head.name)->Ok_0,
        ) == Some(field) {
            value
        } else {
            article.get(field)
        }) by {
            reveal_with_fuel(article_of, 2);
            assert(seq![head].drop_first() =~= Seq::<TextElement>::empty());
        }
        if first > 0 {
            assert(!tells(elements[0], field));
            assert forall|j: int| 0 <= j < first - 1 implies !tells(#[trigger] rest[j], field) by {
                assert(rest[j] == elements[j + 1]);
            }
            lemma_article_field(next, rest, field, first - 1);
        } else {
            let more = lemma_first_telling(rest, field);
            lemma_article_field(next, rest, field, more);
        }
    }
}

/// A 조 inside a 조문 whose elements say a number, a title and a content is an article of the body,
/// with these three, behind the articles before it.
pub proof fn lemma_article_is_kept(
    state: BodyScanModel,
    name: Seq<u8>,
    number: TextElement,
    title: TextElement,
    content: TextElement,
    gap: Seq<Token>,
    rest: Seq<Token>,
)
    requires
        name_text(name) == Ok::<_, ParseErrorModel>("조"@),
        state.path.contains("조문"@),
        state.field is None,
        state.generic is None,
        is_readable(number),
        is_readable(title),
        is_readable(content),
        name_text(number.name) == Ok::<_, ParseErrorModel>("조문번호"@),
        name_text(title.name) == Ok::<_, ParseErrorModel>("조제목"@) || name_text(title.name)
            == Ok::<_, ParseErrorModel>("조문제목"@),
        name_text(content.name) == Ok::<_, ParseErrorModel>("조내용"@) || name_text(content.name)
            == Ok::<_, ParseErrorModel>("조문내용"@),
        is_text_run(gap),
    ensures
        ({
            let article = ArticleModel {
                number_raw: trimmed(element_text(number)),
                title: trimmed(element_text(title)),
                content: trimmed(element_text(content)),
            };
            let says_something = article.number_raw.len() > 0 || article.title.len() > 0
                || article.content.len() > 0;
            body_outcome(
                state,
                seq![Token::Start(name)] + element_events(seq![number, title, content]) + gap
                    + seq![Token::End(name)] + rest,
            ) matches Ok(body) ==> (if says_something {
                state.body.articles.push(article).is_prefix_of(body.articles)
            } else {
                state.body.articles.is_prefix_of(body.articles)
            })
        }),
{
    lemma_element_names("조문번호"@);
    lemma_element_names(name_text(title.name)->Ok_0);
    lemma_element_names(name_text(content.name)->Ok_0);
    let elements = seq![number, title, content];
    let text = lemma_article_read(state, name, elements, gap, rest);
    let article = ArticleModel {
        number_raw: trimmed(element_text(number)),
        title: trimmed(element_text(title)),
        content: trimmed(element_text(content)),
    };
    let read = article_of(empty_article(), elements);
    let n = lemma_first_telling(elements, ArticleField::Number);
    lemma_article_field(empty_article(), elements, ArticleField::Number, n);
    let t = lemma_first_telling(elements, ArticleField::Title);
    lemma_article_field(empty_article(), elements, ArticleField::Title, t);
    let c = lemma_first_telling(elements, ArticleField::Content);
    lemma_article_field(empty_article(), elements, ArticleField::Content, c);
    assert(!tells(elements[1], ArticleField::Number) && !tells(elements[2], ArticleField::Number));
    assert(!tells(elements[0], ArticleField::Title) && !tells(elements[2], ArticleField::Title));
    assert(!tells(elements[0], ArticleField::Content) && !tells(elements[1], ArticleField::Content));
    assert(n == 0 || n == 3) by {
        if n == 3 {
            assert(!tells(elements[0], ArticleField::Number));
        }
    }
    assert(read.number_raw =~= article.number_raw) by {
        if n == 3 {
            assert(!tells(elements[0], ArticleField::Number));
        }
    }
    assert(read.title =~= article.title) by {
        if t == 3 {
            assert(!tells(elements[1], ArticleField::Title));
        }
    }
    assert(read.content =~= article.content) by {
        if c == 3 {
            assert(!tells(elements[2], ArticleField::Content));
        }
    }
    assert(read == article);
    let after = BodyScanModel {
        article: None,
        jo_seen: true,
        text,
        body: if article.has_data() {
            BodyModel { articles: state.body.articles.push(article), ..state.body }
        } else {
            state.body
        },
        ..state
    };
    lemma_body_grows(after, rest);
}

/// A 부칙내용 inside a 부칙 is an appendix text of the body, behind those before it, unless it is
/// empty.
pub proof fn lemma_appendix_is_kept(
    state: BodyScanModel,
    name: Seq<u8>,
    content: TextElement,
    gap: Seq<Token>,
    rest: Seq<Token>,
)
    requires
        name_text(name) == Ok::<_, ParseErrorModel>("부칙"@),
        name_text(content.name) == Ok::<_, ParseErrorModel>("부칙내용"@),
        is_readable(content),
        state.field is None,
        state.generic is None,
        is_text_run(gap),
    ensures
        ({
            let value = trimmed(element_text(content));
            body_outcome(
                state,
                seq![Token::Start(name)] + element_events(seq![content]) + gap + seq![
                    Token::End(name),
                ] + rest,
            ) matches Ok(body) ==> (if value.len() > 0 {
                state.body.appendix.push(value).is_prefix_of(body.appendix)
            } else {
                state.body.appendix.is_prefix_of(body.appendix)
            })
        }),
{
    lemma_appendix_read(state, name, content, gap, rest);
    let value = trimmed(element_text(content));
    let after = BodyScanModel {
        buchik: None,
        text: Seq::empty(),
        body: if value.len() > 0 {
            BodyModel { appendix: state.body.appendix.push(value), ..state.body }
        } else {
            state.body
        },
        ..state
    };
    lemma_body_grows(after, rest);
}

/// An element that opens nothing and whose text is not collected says nothing: one whose name means
/// nothing, a field of an article outside of any, a 부칙내용 outside of any 부칙.
pub proof fn lemma_element_passed(state: BodyScanModel, element: TextElement, rest: Seq<Token>)
    requires
        is_readable(element),
        state.field is None,
        state.generic is None,
        ({
            let tag = name_text(element.name)->Ok_0;
            &&& tag != "조"@ && tag != "조문단위"@ && tag != "부칙"@
            &&& tag == "조문번호"@ || tag == "조제목"@ || tag == "조문제목"@ || tag == "조내용"@
                || tag == "조문내용"@ ==> state.article is None
            &&& tag == "부칙내용"@ ==> !state.path.contains("부칙"@)
            &&& tag != "첨부파일명"@ && tag != "별표서식파일명"@ && tag != "별표파일명"@ && tag
                != "파일명"@ && tag != "관련법령명"@ && tag != "관련법령"@ && tag != "상위법령명"@
        }),
    ensures
        body_outcome(state, element_events(seq![element]) + rest) == body_outcome(state, rest),
{
    let tag = name_text(element.name)->Ok_0;
    lemma_element_names(tag);
    lemma_tags(tag);
    let opened = state.opened(tag);
    let tail = seq![Token::End(element.name)] + rest;
    let inner = element.content + tail;
    let all = seq![Token::Start(element.name)] + inner;
    if state.path.push(tag).contains("부칙"@) {
        let k = choose|k: int|
            0 <= k < state.path.push(tag).len() && state.path.push(tag)[k] == "부칙"@;
        assert(state.path[k] == "부칙"@);
    }
    assert(!opened.collecting());
    lemma_one_element(element, rest);
    lemma_gap_passed(state, element.gap, all);
    assert(all.drop_first() =~= inner);
    assert(body_outcome(state, all) == body_outcome(opened, inner));
    lemma_gap_passed(opened, element.content, tail);
    assert(tail.drop_first() =~= rest);
    assert(opened.path.drop_last() =~= state.path);
    assert(opened.closed(tag) == state);
}

proof fn lemma_elements_passed(state: BodyScanModel, elements: Seq<TextElement>, rest: Seq<Token>)
    requires
        state.article is None,
        state.field is None,
        state.generic is None,
        forall|i: int|
            0 <= i < elements.len() ==> is_readable(#[trigger] elements[i]) && article_field(
                name_text(elements[i].name)->Ok_0,
            ) is Some,
    ensures
        body_outcome(state, element_events(elements) + rest) == body_outcome(state, rest),
    decreases elements.len(),
{
    if elements.len() == 0 {
        assert(element_events(elements) + rest =~= rest);
    } else {
        let more = elements.drop_first();
        let tag = name_text(elements[0].name)->Ok_0;
        assert(is_readable(elements[0]));
        lemma_element_names(tag);
        lemma_tags(tag);
        lemma_first_element(elements, rest);
        lemma_element_passed(state, elements[0], element_events(more) + rest);
        assert forall|i: int| 0 <= i < more.len() implies is_readable(#[trigger] more[i])
            && article_field(name_text(more[i].name)->Ok_0) is Some by {
            assert(more[i] == elements[i + 1]);
        }
        lemma_elements_passed(state, more, rest);
    }
}

/// A 조 outside of any 조문 is no article, and a 조문단위 is none once a 조 inside a 조문 was seen:
/// what they hold is passed over.
pub proof fn lemma_no_article(
    state: BodyScanModel,
    name: Seq<u8>,
    elements: Seq<TextElement>,
    gap: Seq<Token>,
    rest: Seq<Token>,
)
    requires
        (name_text(name) == Ok::<_, ParseErrorModel>("조"@) && !state.path.contains("조문"@)) || (
        name_text(name) == Ok::<_, ParseErrorModel>("조문단위"@) && state.jo_seen),
        state.article is None,
        state.field is None,
        state.generic is None,
        forall|i: int|
            0 <= i < elements.len() ==> is_readable(#[trigger] elements[i]) && article_field(
                name_text(elements[i].name)->Ok_0,
            ) is Some,
        is_text_run(gap),
    ensures
        body_outcome(
            state,
            seq![Token::Start(name)] + element_events(elements) + gap + seq![Token::End(name)]
                + rest,
        ) == body_outcome(state, rest),
{
    let tag = name_text(name)->Ok_0;
    lemma_tags("조"@);
    lemma_tags("조문단위"@);
    lemma_element_names(tag);
    reveal_strlit("조");
    reveal_strlit("조문단위");
    reveal_strlit("조문");
    assert("조"@.len() == 1 && "조문단위"@.len() == 4 && "조문"@.len() == 2);
    let opened = state.opened(tag);
    if state.path.push(tag).contains("조문"@) {
        let k = choose|k: int|
            0 <= k < state.path.push(tag).len() && state.path.push(tag)[k] == "조문"@;
        assert(state.path[k] == "조문"@);
    }
    let tail = seq![Token::End(name)] + rest;
    let events = seq![Token::Start(name)] + element_events(elements) + gap + seq![Token::End(name)]
        + rest;
    assert(events.drop_first() =~= element_events(elements) + (gap + tail));
    assert(opened.article is None && opened.jo_seen == state.jo_seen);
    assert(!opened.collecting());
    assert(body_outcome(state, events) == body_outcome(
        opened,
        element_events(elements) + (gap + tail),
    ));
    lemma_elements_passed(opened, elements, gap + tail);
    lemma_gap_passed(opened, gap, tail);
    assert(tail.drop_first() =~= rest);
    assert(opened.path.drop_last() =~= state.path);
    assert(opened.closed(tag) == state);
}

/// Where no 조 inside a 조문 was seen, a 조문단위 gives one article, with what its elements say, or
/// none where they say nothing.
pub proof fn lemma_unit_read(
    state: BodyScanModel,
    name: Seq<u8>,
    elements: Seq<TextElement>,
    gap: Seq<Token>,
    rest: Seq<Token>,
) -> (text: Seq<char>)
    requires
        name_text(name) == Ok::<_, ParseErrorModel>("조문단위"@),
        !state.jo_seen,
        state.field is None,
        state.generic is None,
        forall|i: int|
            0 <= i < elements.len() ==> is_readable(#[trigger] elements[i]) && article_field(
                name_text(elements[i].name)->Ok_0,
            ) is Some,
        is_text_run(gap),
    ensures
        ({
            let article = article_of(empty_article(), elements);
            body_outcome(
                state,
                seq![Token::Start(name)] + element_events(elements) + gap + seq![Token::End(name)]
                    + rest,
            ) == body_outcome(
                BodyScanModel {
                    article: None,
                    text,
                    body: if article.has_data() {
                        BodyModel { articles: state.body.articles.push(article), ..state.body }
                    } else {
                        state.body
                    },
                    ..state
                },
                rest,
            )
        }),
{
    lemma_tags("조문단위"@);
    lemma_element_names("조문단위"@);
    reveal_strlit("조");
    reveal_strlit("조문단위");
    assert("조"@.len() == 1 && "조문단위"@.len() == 4);
    let tail = seq![Token::End(name)] + rest;
    let events = seq![Token::Start(name)] + element_events(elements) + gap + seq![Token::End(name)]
        + rest;
    let opened = state.opened("조문단위"@);
    assert(opened.article == Some(empty_article()));
    assert(events.drop_first() =~= element_events(elements) + (gap + tail));
    assert(body_outcome(state, events) == body_outcome(
        opened,
        element_events(elements) + (gap + tail),
    ));
    let text = lemma_fields_read(opened, empty_article(), elements, gap + tail);
    let filled = BodyScanModel {
        article: Some(article_of(empty_article(), elements)),
        text,
        ..opened
    };
    lemma_gap_passed(filled, gap, tail);
    assert(tail.drop_first() =~= rest);
    assert(opened.path.drop_last() =~= state.path);
    text
}

/// A tag of a section, such as the root or a 조문, changes nothing but the path, and its end takes
/// it from the path again.
pub proof fn lemma_section_tags(state: BodyScanModel, name: Seq<u8>, rest: Seq<Token>)
    requires
        name_text(name) is Ok,
        state.field is None,
        state.generic is None,
        ({
            let tag = name_text(name)->Ok_0;
            &&& !is_article_tag(tag) && tag != "부칙"@
            &&& article_field(tag) is None && generic_capture(tag) is None
        }),
    ensures
        body_outcome(state, seq![Token::Start(name)] + rest) == body_outcome(
            BodyScanModel { path: state.path.push(name_text(name)->Ok_0), ..state },
            rest,
        ),
        state.path.len() > 0 ==> body_outcome(state, seq![Token::End(name)] + rest) == body_outcome(
            BodyScanModel { path: state.path.drop_last(), ..state },
            rest,
        ),
        body_outcome(state, seq![Token::Empty(name)] + rest) == body_outcome(state, rest),
        body_outcome(state, seq![Token::Eof] + rest) == Ok::<_, ParseErrorModel>(state.body),
{
    assert((seq![Token::Start(name)] + rest).drop_first() =~= rest);
    assert((seq![Token::End(name)] + rest).drop_first() =~= rest);
    assert((seq![Token::Empty(name)] + rest).drop_first() =~= rest);
}

/// A fault and a name that is not text end the scan with an error that tells of them, and so does a
/// text that is collected and cannot be read.
pub proof fn lemma_errors_reported(
    state: BodyScanModel,
    fault: ErrorModel,
    name: Seq<u8>,
    text: Seq<u8>,
    rest: Seq<Token>,
)
    ensures
        body_outcome(state, seq![Token::Fault(fault)] + rest) == Err::<BodyModel, _>(
            ParseErrorModel::Xml(fault),
        ),
        name_text(name) matches Err(error) ==> body_outcome(
            state,
            seq![Token::Start(name)] + rest,
        ) == Err::<BodyModel, _>(error) && body_outcome(state, seq![Token::End(name)] + rest) == Err::<
            BodyModel,
            _,
        >(error),
        state.collecting() ==> (node_text(text) matches Err(error) ==> body_outcome(
            state,
            seq![Token::Text(text)] + rest,
        ) == Err::<BodyModel, _>(error)),
        body_start().body == empty_body(),
        body_start().path.len() == 0,
        !body_start().collecting() && !body_start().jo_seen && body_start().article is None,
{
}

/// While text is collected, an opening tag inside it discards what was collected so far. The end of
/// an element that is not the collected one changes nothing but the path.
pub proof fn lemma_markup_in_text(state: BodyScanModel, name: Seq<u8>, rest: Seq<Token>)
    requires
        state.collecting(),
        name_text(name) is Ok,
        ({
            let tag = name_text(name)->Ok_0;
            &&& !is_article_tag(tag) && tag != "부칙"@
            &&& article_field(tag) is None && generic_capture(tag) is None
        }),
    ensures
        body_outcome(state, seq![Token::Start(name)] + rest) == body_outcome(
            BodyScanModel {
                path: state.path.push(name_text(name)->Ok_0),
                text: Seq::empty(),
                ..state
            },
            rest,
        ),
        state.path.len() > 0 ==> body_outcome(state, seq![Token::End(name)] + rest) == body_outcome(
            BodyScanModel { path: state.path.drop_last(), ..state },
            rest,
        ),
{
    assert((seq![Token::Start(name)] + rest).drop_first() =~= rest);
    assert((seq![Token::End(name)] + rest).drop_first() =~= rest);
}

/// Of the 부칙내용 in one 부칙 the first that says something is the text of the 부칙.
pub proof fn lemma_first_appendix_text(
    state: BodyScanModel,
    inner: Seq<char>,
    content: TextElement,
    rest: Seq<Token>,
)
    requires
        name_text(content.name) == Ok::<_, ParseErrorModel>("부칙내용"@),
        is_readable(content),
        state.path.contains("부칙"@),
        state.buchik == Some(inner),
        state.field is None,
        state.generic is None,
    ensures
        body_outcome(state, element_events(seq![content]) + rest) == body_outcome(
            BodyScanModel {
                buchik: Some(
                    if inner.len() > 0 {
                        inner
                    } else {
                        trimmed(element_text(content))
                    },
                ),
                text: Seq::empty(),
                ..state
            },
            rest,
        ),
{
    lemma_tags("부칙내용"@);
    lemma_element_names("부칙내용"@);
    let value = element_text(content);
    let k = choose|k: int| 0 <= k < state.path.len() && state.path[k] == "부칙"@;
    let opened = state.opened("부칙내용"@);
    assert(state.path.push("부칙내용"@)[k] == "부칙"@);
    assert(state.path.push("부칙내용"@).contains("부칙"@));
    assert(opened.path.drop_last() =~= state.path);
    assert(inner.len() == 0 ==> inner =~= Seq::<char>::empty());
    let after = BodyScanModel {
        buchik: Some(
            if inner.len() > 0 {
                inner
            } else {
                trimmed(value)
            },
        ),
        text: Seq::empty(),
        ..state
    };
    lemma_element_read(state, content, rest, after);
}

/// The end of a 부칙 puts its text behind the appendix texts before it, unless it is empty.
pub proof fn lemma_appendix_closed(
    state: BodyScanModel,
    name: Seq<u8>,
    inner: Seq<char>,
    rest: Seq<Token>,
)
    requires
        name_text(name) == Ok::<_, ParseErrorModel>("부칙"@),
        state.buchik == Some(inner),
        state.field is None,
        state.generic is None,
        state.path.len() > 0,
    ensures
        body_outcome(state, seq![Token::End(name)] + rest) == body_outcome(
            BodyScanModel {
                path: state.path.drop_last(),
                buchik: None,
                body: if inner.len() > 0 {
                    BodyModel { appendix: state.body.appendix.push(inner), ..state.body }
                } else {
                    state.body
                },
                ..state
            },
            rest,
        ),
        body_outcome(state, seq![Token::Start(name)] + rest) == body_outcome(
            BodyScanModel {
                path: state.path.push("부칙"@),
                buchik: Some(Seq::empty()),
                ..state
            },
            rest,
        ),
{
    lemma_tags("부칙"@);
    lemma_element_names("부칙"@);
    assert((seq![Token::End(name)] + rest).drop_first() =~= rest);
    assert((seq![Token::Start(name)] + rest).drop_first() =~= rest);
}

/// What an opening tag does, whatever the state: it goes onto the path, a 조 inside a 조문 and a
/// 조문단위 before any such 조 open an article, a 부칙 opens one, and the elements of fields, of
/// attachments, of related laws and, inside a 부칙, of its text start a collection. As long as one
/// goes on, the text starts anew with each opening tag.
pub proof fn lemma_opened(state: BodyScanModel, tag: Seq<char>)
    ensures
        ({
            let next = state.opened(tag);
            let opens = (tag == "조"@ && state.path.contains("조문"@)) || (tag == "조문단위"@
                && !state.jo_seen);
            &&& next.path == state.path.push(tag)
            &&& next.body == state.body
            &&& opens ==> next.article is Some && next.article->0.number_raw.len() == 0
                && next.article->0.title.len() == 0 && next.article->0.content.len() == 0
            &&& !opens ==> next.article == state.article
            &&& next.jo_seen <==> state.jo_seen || (tag == "조"@ && state.path.contains("조문"@))
            &&& tag == "부칙"@ ==> next.buchik == Some(Seq::<char>::empty())
            &&& tag != "부칙"@ ==> next.buchik == state.buchik
            &&& state.article is Some && tag == "조문번호"@ ==> next.field == Some(
                ArticleField::Number,
            )
            &&& state.article is Some && (tag == "조제목"@ || tag == "조문제목"@) ==> next.field
                == Some(ArticleField::Title)
            &&& state.article is Some && (tag == "조내용"@ || tag == "조문내용"@) ==> next.field
                == Some(ArticleField::Content)
            &&& state.article is None || (tag != "조문번호"@ && tag != "조제목"@ && tag
                != "조문제목"@ && tag != "조내용"@ && tag != "조문내용"@) ==> next.field
                == state.field
            &&& tag == "첨부파일명"@ || tag == "별표서식파일명"@ || tag == "별표파일명"@ || tag
                == "파일명"@ ==> next.generic == Some(GenericCapture::Attachment)
            &&& tag == "관련법령명"@ || tag == "관련법령"@ || tag == "상위법령명"@ ==> next.generic
                == Some(GenericCapture::Related)
            &&& tag == "부칙내용"@ ==> next.generic == if state.path.contains("부칙"@) {
                Some(GenericCapture::Buchik)
            } else {
                state.generic
            }
            &&& tag != "첨부파일명"@ && tag != "별표서식파일명"@ && tag != "별표파일명"@ && tag
                != "파일명"@ && tag != "관련법령명"@ && tag != "관련법령"@ && tag != "상위법령명"@
                && tag != "부칙내용"@ ==> next.generic == state.generic
            &&& next.field is Some || next.generic is Some ==> next.text.len() == 0
            &&& next.field is None && next.generic is None ==> next.text == state.text
        }),
{
    lemma_element_names(tag);
    lemma_tags(tag);
    lemma_tags("조"@);
    lemma_tags("조문단위"@);
    reveal_strlit("조");
    reveal_strlit("조문");
    reveal_strlit("조문단위");
    reveal_strlit("부칙");
    reveal_strlit("부칙내용");
    assert("조"@.len() == 1 && "조문"@.len() == 2 && "조문단위"@.len() == 4);
    assert("부칙"@.len() == 2 && "부칙내용"@.len() == 4);
    lemma_pushed_contains(state.path, tag, "조문"@);
    lemma_pushed_contains(state.path, tag, "부칙"@);
}

proof fn lemma_pushed_contains(path: Seq<Seq<char>>, tag: Seq<char>, other: Seq<char>)
    ensures
        path.push(tag).contains(other) <==> path.contains(other) || tag == other,
{
    let all = path.push(tag);
    if path.contains(other) {
        let k = choose|k: int| 0 <= k < path.len() && path[k] == other;
        assert(all[k] == other);
    }
    if tag == other {
        assert(all[path.len() as int] == other);
    }
    if all.contains(other) {
        let k = choose|k: int| 0 <= k < all.len() && all[k] == other;
        if k < path.len() {
            assert(path[k] == other);
        }
    }
}

/// What the end of a field of the open article does: the field takes the trimmed text, unless it says
/// something already, and the collection ends. Any other end leaves it going.
pub proof fn lemma_field_ends(
    state: BodyScanModel,
    tag: Seq<char>,
    field: ArticleField,
    article: ArticleModel,
)
    requires
        state.field == Some(field),
        state.article == Some(article),
    ensures
        ({
            let next = state.closed(tag);
            let value = trimmed(state.text);
            let ends = (field is Number && tag == "조문번호"@) || (field is Title && (tag == "조제목"@
                || tag == "조문제목"@)) || (field is Content && (tag == "조내용"@ || tag
                == "조문내용"@));
            &&& ends ==> next.field is None && next.text.len() == 0 && next.article == Some(
                ArticleModel {
                    number_raw: if field is Number && article.number_raw.len() == 0 {
                        value
                    } else {
                        article.number_raw
                    },
                    title: if field is Title && article.title.len() == 0 {
                        value
                    } else {
                        article.title
                    },
                    content: if field is Content && article.content.len() == 0 {
                        value
                    } else {
                        article.content
                    },
                },
            )
            &&& ends ==> next.body == state.body && next.buchik == state.buchik
            &&& ends ==> next.generic == state.generic
            &&& !ends ==> next.field == state.field
        }),
{
    lemma_element_names(tag);
    lemma_tags(tag);
}

/// What the end of an article does: the article goes behind those before it where it says something,
/// and no article is open any more.
pub proof fn lemma_article_ends(state: BodyScanModel, tag: Seq<char>, article: ArticleModel)
    requires
        tag == "조"@ || tag == "조문단위"@,
        state.article == Some(article),
    ensures
        ({
            let next = state.closed(tag);
            let says_something = article.number_raw.len() > 0 || article.title.len() > 0
                || article.content.len() > 0;
            &&& next.article is None
            &&& next.body.articles == if says_something {
                state.body.articles.push(article)
            } else {
                state.body.articles
            }
            &&& next.body.appendix == state.body.appendix
            &&& next.body.attachments == state.body.attachments
            &&& next.body.related_laws == state.body.related_laws
            &&& next.field == state.field && next.generic == state.generic
        }),
{
    lemma_element_names(tag);
    lemma_tags("조"@);
    lemma_tags("조문단위"@);
    lemma_tags(tag);
}

/// What the end of another collected text does, whatever the state: the name of an attachment and
/// that of a related law are listed where they say something new, the text of a 부칙 is its first that
/// says something, and the collection ends. Any other end leaves it going.
pub proof fn lemma_capture_ends(state: BodyScanModel, tag: Seq<char>, capture: GenericCapture)
    requires
        state.generic == Some(capture),
    ensures
        ({
            let next = state.closed(tag);
            let value = trimmed(state.text);
            let ends = (capture is Attachment && (tag == "첨부파일명"@ || tag == "별표서식파일명"@
                || tag == "별표파일명"@ || tag == "파일명"@)) || (capture is Related && (tag
                == "관련법령명"@ || tag == "관련법령"@ || tag == "상위법령명"@)) || (capture is Buchik
                && tag == "부칙내용"@);
            let old = if capture is Attachment {
                state.body.attachments
            } else {
                state.body.related_laws
            };
            let names = if value.len() == 0 || old.contains(value) {
                old
            } else {
                old + seq![value]
            };
            &&& ends ==> next.generic is None && next.text.len() == 0
            &&& ends ==> next.article == state.article && next.field == state.field
            &&& ends ==> next.body.articles == state.body.articles && next.body.appendix
                == state.body.appendix
            &&& ends && capture is Attachment ==> next.body.attachments == names
                && next.body.related_laws == state.body.related_laws && next.buchik
                == state.buchik
            &&& ends && capture is Related ==> next.body.related_laws == names
                && next.body.attachments == state.body.attachments && next.buchik
                == state.buchik
            &&& ends && capture is Buchik ==> next.body.related_laws == state.body.related_laws
                && next.body.attachments == state.body.attachments
            &&& ends && capture is Buchik && state.buchik is Some ==> next.buchik == Some(
                if state.buchik->0.len() == 0 {
                    value
                } else {
                    state.buchik->0
                },
            )
            &&& ends && capture is Buchik && state.buchik is None ==> next.buchik is None
            &&& !ends ==> next.generic == state.generic
        }),
{
    lemma_element_names(tag);
    lemma_tags(tag);
    lemma_element_names("조"@);
    lemma_element_names("조문단위"@);
    lemma_tags("조"@);
    lemma_tags("조문단위"@);
    if state.buchik is Some && state.buchik->0.len() == 0 {
        assert(state.buchik->0 =~= Seq::<char>::empty());
    }
    let value = trimmed(state.text);
    assert(state.body.attachments.push(value) =~= state.body.attachments + seq![value]);
    assert(state.body.related_laws.push(value) =~= state.body.related_laws + seq![value]);
}

/// Every end takes the innermost element off the path. That of a 부칙 puts its text behind those before
/// it where it says something, and no 부칙 is open any more.
pub proof fn lemma_appendix_ends(state: BodyScanModel, tag: Seq<char>)
    ensures
        state.path.len() > 0 ==> state.closed(tag).path == state.path.drop_last(),
        state.path.len() == 0 ==> state.closed(tag).path.len() == 0,
        tag == "부칙"@ ==> ({
            let next = state.closed(tag);
            &&& next.buchik is None
            &&& next.article == state.article && next.field == state.field && next.generic
                == state.generic && next.text == state.text
            &&& next.body.articles == state.body.articles
            &&& next.body.attachments == state.body.attachments
            &&& next.body.related_laws == state.body.related_laws
            &&& next.body.appendix == if state.buchik is Some && state.buchik->0.len() > 0 {
                state.body.appendix + seq![state.buchik->0]
            } else {
                state.body.appendix
            }
        }),
        tag != "부칙"@ ==> state.closed(tag).body.appendix == state.body.appendix,
        tag != "조"@ && tag != "조문단위"@ ==> state.closed(tag).body.articles
            == state.body.articles,
{
    lemma_element_names(tag);
    lemma_tags(tag);
    if state.buchik is Some {
        assert(state.body.appendix.push(state.buchik->0) =~= state.body.appendix
            + seq![state.buchik->0]);
    }
}

/// Text is read on where some text is collected, and nowhere else. What is not text, not a tag with
/// content and not the end passes without a trace.
pub proof fn lemma_text_read(state: BodyScanModel, bytes: Seq<u8>, rest: Seq<Token>)
    ensures
        state.field is None && state.generic is None ==> body_outcome(
            state,
            seq![Token::Text(bytes)] + rest,
        ) == body_outcome(state, rest) && body_outcome(state, seq![Token::CData(bytes)] + rest)
            == body_outcome(state, rest),
        state.field is Some || state.generic is Some ==> body_outcome(
            state,
            seq![Token::CData(bytes)] + rest,
        ) == body_outcome(BodyScanModel { text: state.text + utf8_lossy(bytes), ..state }, rest),
        (state.field is Some || state.generic is Some) && node_text(bytes) is Ok ==> body_outcome(
            state,
            seq![Token::Text(bytes)] + rest,
        ) == body_outcome(
            BodyScanModel { text: state.text + node_text(bytes)->Ok_0, ..state },
            rest,
        ),
        body_outcome(state, seq![Token::Empty(bytes)] + rest) == body_outcome(state, rest),
        body_outcome(state, seq![Token::Other] + rest) == body_outcome(state, rest),
        body_outcome(state, seq![Token::Eof] + rest) == Ok::<_, ParseErrorModel>(state.body),
        body_start().body == empty_body(),
        body_start().path.len() == 0 && body_start().article is None && !body_start().jo_seen
            && body_start().field is None && body_start().generic is None
            && body_start().buchik is None,
{
    assert((seq![Token::Text(bytes)] + rest).drop_first() =~= rest);
    assert((seq![Token::CData(bytes)] + rest).drop_first() =~= rest);
    assert((seq![Token::Empty(bytes)] + rest).drop_first() =~= rest);
    assert((seq![Token::Other] + rest).drop_first() =~= rest);
}

} // verus!
