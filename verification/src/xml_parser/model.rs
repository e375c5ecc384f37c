//! The data of one ordinance document.

use vstd::prelude::*;
use vstd::string::StringExecFns;

use crate::errors::{text_result, ErrorModel, ErrorText};
use crate::text::{copy_texts, texts};
use crate::xml_events::{
    lossy_text, unescape, utf8_fault, utf8_lossy, utf8_text, xml_unescaped, Token,
};

use vstd::utf8::{
    decode_utf8, encode_utf8, encode_utf8_decode_utf8, encode_utf8_valid_utf8, valid_utf8,
};

verus! {

/// Ordinance metadata extracted from a cached `LawService` document.
#[derive(Debug)]
pub struct OrdinanceMetadata {
    /// 자치법규ID (also used as the cache filename stem).
    pub ordinance_id: String,
    /// 자치법규명.
    pub name: String,
    /// Raw 자치법규종류 (either a `C000N` code or a label).
    pub type_raw: String,
    /// 지자체기관명 as it stands in the document.
    pub jurisdiction: String,
    /// 지자체기관코드.
    pub jurisdiction_code: String,
    /// 공포일자 in `YYYYMMDD` form.
    pub promulgation_date: String,
    /// 공포번호.
    pub promulgation_no: String,
    /// 시행일자 in `YYYYMMDD` form.
    pub enforcement_date: String,
    /// 제개정정보 / 제개정구분(명).
    pub revision_kind: String,
    /// 담당부서명.
    pub department: String,
}

/// What an [`OrdinanceMetadata`] stands for.
pub struct MetadataModel {
    pub ordinance_id: Seq<char>,
    pub name: Seq<char>,
    pub type_raw: Seq<char>,
    pub jurisdiction: Seq<char>,
    pub jurisdiction_code: Seq<char>,
    pub promulgation_date: Seq<char>,
    pub promulgation_no: Seq<char>,
    pub enforcement_date: Seq<char>,
    pub revision_kind: Seq<char>,
    pub department: Seq<char>,
}

impl View for OrdinanceMetadata {
    type V = MetadataModel;

    open spec fn view(&self) -> MetadataModel {
        MetadataModel {
            ordinance_id: self.ordinance_id@,
            name: self.name@,
            type_raw: self.type_raw@,
            jurisdiction: self.jurisdiction@,
            jurisdiction_code: self.jurisdiction_code@,
            promulgation_date: self.promulgation_date@,
            promulgation_no: self.promulgation_no@,
            enforcement_date: self.enforcement_date@,
            revision_kind: self.revision_kind@,
            department: self.department@,
        }
    }
}

/// Metadata with every field empty.
pub open spec fn empty_metadata() -> MetadataModel {
    MetadataModel {
        ordinance_id: Seq::empty(),
        name: Seq::empty(),
        type_raw: Seq::empty(),
        jurisdiction: Seq::empty(),
        jurisdiction_code: Seq::empty(),
        promulgation_date: Seq::empty(),
        promulgation_no: Seq::empty(),
        enforcement_date: Seq::empty(),
        revision_kind: Seq::empty(),
        department: Seq::empty(),
    }
}

impl Default for OrdinanceMetadata {
    fn default() -> (r: Self)
        ensures
            r@ == empty_metadata(),
    {
        OrdinanceMetadata {
            ordinance_id: String::new(),
            name: String::new(),
            type_raw: String::new(),
            jurisdiction: String::new(),
            jurisdiction_code: String::new(),
            promulgation_date: String::new(),
            promulgation_no: String::new(),
            enforcement_date: String::new(),
            revision_kind: String::new(),
            department: String::new(),
        }
    }
}

impl Clone for OrdinanceMetadata {
    fn clone(&self) -> (r: Self)
        ensures
            r@ == self@,
    {
        OrdinanceMetadata {
            ordinance_id: self.ordinance_id.clone(),
            name: self.name.clone(),
            type_raw: self.type_raw.clone(),
            jurisdiction: self.jurisdiction.clone(),
            jurisdiction_code: self.jurisdiction_code.clone(),
            promulgation_date: self.promulgation_date.clone(),
            promulgation_no: self.promulgation_no.clone(),
            enforcement_date: self.enforcement_date.clone(),
            revision_kind: self.revision_kind.clone(),
            department: self.department.clone(),
        }
    }
}

/// One 조 inside the ordinance body.
#[derive(Debug)]
pub struct Article {
    /// Raw 조문번호 (e.g. `"000100"`, `"000102"`).
    pub number_raw: String,
    /// 조제목 / 조문제목 inner text.
    pub title: String,
    /// 조내용 / 조문내용 inner text (HTML-bearing).
    pub content: String,
}

/// What an [`Article`] stands for.
pub struct ArticleModel {
    pub number_raw: Seq<char>,
    pub title: Seq<char>,
    pub content: Seq<char>,
}

impl View for Article {
    type V = ArticleModel;

    open spec fn view(&self) -> ArticleModel {
        ArticleModel {
            number_raw: self.number_raw@,
            title: self.title@,
            content: self.content@,
        }
    }
}

/// An article with every field empty.
pub open spec fn empty_article() -> ArticleModel {
    ArticleModel { number_raw: Seq::empty(), title: Seq::empty(), content: Seq::empty() }
}

impl Default for Article {
    fn default() -> (r: Self)
        ensures
            r@ == empty_article(),
    {
        Article { number_raw: String::new(), title: String::new(), content: String::new() }
    }
}

impl Clone for Article {
    fn clone(&self) -> (r: Self)
        ensures
            r@ == self@,
    {
        Article {
            number_raw: self.number_raw.clone(),
            title: self.title.clone(),
            content: self.content.clone(),
        }
    }
}

/// Fully parsed body including articles and appendix text, ready to render.
#[derive(Debug)]
pub struct OrdinanceBody {
    /// Parsed articles (조).
    pub articles: Vec<Article>,
    /// 부칙 appendix blocks (raw `부칙내용`).
    pub appendix: Vec<String>,
    /// Attachment filenames collected in insertion order.
    pub attachments: Vec<String>,
    /// Referenced law names from 관련법령.
    pub related_laws: Vec<String>,
}

/// What an [`OrdinanceBody`] stands for.
pub struct BodyModel {
    pub articles: Seq<ArticleModel>,
    pub appendix: Seq<Seq<char>>,
    pub attachments: Seq<Seq<char>>,
    pub related_laws: Seq<Seq<char>>,
}

/// The views of a sequence of articles.
pub open spec fn article_models(articles: Seq<Article>) -> Seq<ArticleModel> {
    articles.map_values(|a: Article| a@)
}

impl View for OrdinanceBody {
    type V = BodyModel;

    open spec fn view(&self) -> BodyModel {
        BodyModel {
            articles: article_models(self.articles@),
            appendix: texts(self.appendix@),
            attachments: texts(self.attachments@),
            related_laws: texts(self.related_laws@),
        }
    }
}

/// A body without articles, appendix, attachments and related laws.
pub open spec fn empty_body() -> BodyModel {
    BodyModel {
        articles: Seq::empty(),
        appendix: Seq::empty(),
        attachments: Seq::empty(),
        related_laws: Seq::empty(),
    }
}

impl Default for OrdinanceBody {
    fn default() -> (r: Self)
        ensures
            r@ == empty_body(),
    {
        let r = OrdinanceBody {
            articles: Vec::new(),
            appendix: Vec::new(),
            attachments: Vec::new(),
            related_laws: Vec::new(),
        };
        assert(r@.articles =~= empty_body().articles);
        assert(r@.appendix =~= empty_body().appendix);
        r
    }
}

impl Clone for OrdinanceBody {
    fn clone(&self) -> (r: Self)
        ensures
            r@ == self@,
    {
        let mut articles: Vec<Article> = Vec::new();
        let mut i: usize = 0;
        while i < self.articles.len()
            invariant
                i <= self.articles@.len(),
                articles@.len() == i,
                forall|j: int| 0 <= j < i ==> (#[trigger] articles@[j])@ == self.articles@[j]@,
            decreases self.articles@.len() - i,
        {
            articles.push(self.articles[i].clone());
            i += 1;
        }
        assert(article_models(articles@) =~= article_models(self.articles@));
        OrdinanceBody {
            articles,
            appendix: copy_texts(&self.appendix),
            attachments: copy_texts(&self.attachments),
            related_laws: copy_texts(&self.related_laws),
        }
    }
}

/// Fully parsed ordinance document bundle.
#[derive(Debug)]
pub struct OrdinanceDetail {
    /// Top-level metadata used for path planning and frontmatter.
    pub metadata: OrdinanceMetadata,
    /// Body sections and appendix blocks.
    pub body: OrdinanceBody,
}

/// What an [`OrdinanceDetail`] stands for.
pub struct DetailModel {
    pub metadata: MetadataModel,
    pub body: BodyModel,
}

impl View for OrdinanceDetail {
    type V = DetailModel;

    open spec fn view(&self) -> DetailModel {
        DetailModel { metadata: self.metadata@, body: self.body@ }
    }
}

impl Default for OrdinanceDetail {
    fn default() -> (r: Self)
        ensures
            r@ == (DetailModel { metadata: empty_metadata(), body: empty_body() }),
    {
        OrdinanceDetail {
            metadata: OrdinanceMetadata::default(),
            body: OrdinanceBody::default(),
        }
    }
}

impl Clone for OrdinanceDetail {
    fn clone(&self) -> (r: Self)
        ensures
            r@ == self@,
    {
        OrdinanceDetail { metadata: self.metadata.clone(), body: self.body.clone() }
    }
}

/// Why a document could not be read.
#[derive(Debug)]
pub enum ParseError {
    /// The document is not well-formed XML, with what the reader says.
    Xml(ErrorText),
    /// An element name is not valid UTF-8, with the text of the cause.
    NameNotUtf8(String),
    /// A text node is not valid UTF-8, with the text of the cause.
    TextNotUtf8(String),
    /// A text node holds a reference that cannot be resolved, with what is said of it.
    Escape(ErrorText),
}

/// What a [`ParseError`] stands for.
pub enum ParseErrorModel {
    Xml(ErrorModel),
    NameNotUtf8(Seq<char>),
    TextNotUtf8(Seq<char>),
    Escape(ErrorModel),
}

impl View for ParseError {
    type V = ParseErrorModel;

    open spec fn view(&self) -> ParseErrorModel {
        match *self {
            ParseError::Xml(text) => ParseErrorModel::Xml(text@),
            ParseError::NameNotUtf8(cause) => ParseErrorModel::NameNotUtf8(cause@),
            ParseError::TextNotUtf8(cause) => ParseErrorModel::TextNotUtf8(cause@),
            ParseError::Escape(text) => ParseErrorModel::Escape(text@),
        }
    }
}

/// The message of a [`ParseError`], without its causes.
pub open spec fn parse_error_text(error: ParseErrorModel) -> Seq<char> {
    match error {
        ParseErrorModel::Xml(text) => text.message,
        ParseErrorModel::NameNotUtf8(_) => "element name is not valid UTF-8"@,
        ParseErrorModel::TextNotUtf8(_) => "text node is not valid UTF-8"@,
        ParseErrorModel::Escape(text) => text.message,
    }
}

/// The message of a [`ParseError`], with its causes behind it.
pub open spec fn parse_error_chain(error: ParseErrorModel) -> Seq<char> {
    match error {
        ParseErrorModel::Xml(text) => text.chain,
        ParseErrorModel::NameNotUtf8(cause) => "element name is not valid UTF-8: "@ + cause,
        ParseErrorModel::TextNotUtf8(cause) => "text node is not valid UTF-8: "@ + cause,
        ParseErrorModel::Escape(text) => text.chain,
    }
}

impl ParseError {
    /// The message of this error, without its causes.
    pub fn to_string(&self) -> (r: String)
        ensures
            r@ == parse_error_text(self@),
    {
        match self {
            ParseError::Xml(text) => text.message.clone(),
            ParseError::NameNotUtf8(_) => "element name is not valid UTF-8".to_owned(),
            ParseError::TextNotUtf8(_) => "text node is not valid UTF-8".to_owned(),
            ParseError::Escape(text) => text.message.clone(),
        }
    }

    /// The message of this error, with its causes behind it.
    pub fn to_chain(&self) -> (r: String)
        ensures
            r@ == parse_error_chain(self@),
    {
        match self {
            ParseError::Xml(text) => text.chain.clone(),
            ParseError::NameNotUtf8(cause) => {
                let mut out = "element name is not valid UTF-8: ".to_owned();
                out.append(cause.as_str());
                out
            },
            ParseError::TextNotUtf8(cause) => {
                let mut out = "text node is not valid UTF-8: ".to_owned();
                out.append(cause.as_str());
                out
            },
            ParseError::Escape(text) => text.chain.clone(),
        }
    }
}

/// The text of an element name.
pub open spec fn name_text(name: Seq<u8>) -> Result<Seq<char>, ParseErrorModel> {
    if valid_utf8(name) {
        Ok(decode_utf8(name))
    } else {
        Err(ParseErrorModel::NameNotUtf8(utf8_fault(name)))
    }
}

/// The text of a text node, given what became of its references.
pub open spec fn resolved(plain: Result<Seq<char>, ErrorModel>) -> Result<
    Seq<char>,
    ParseErrorModel,
> {
    match plain {
        Ok(text) => Ok(text),
        Err(error) => Err(ParseErrorModel::Escape(error)),
    }
}

/// The text of a text node, with its references resolved.
pub open spec fn node_text(bytes: Seq<u8>) -> Result<Seq<char>, ParseErrorModel> {
    if valid_utf8(bytes) {
        resolved(xml_unescaped(decode_utf8(bytes)))
    } else {
        Err(ParseErrorModel::TextNotUtf8(utf8_fault(bytes)))
    }
}

/// The view of a text or of the error that stands in its place.
pub open spec fn text_outcome(r: Result<String, ParseError>) -> Result<
    Seq<char>,
    ParseErrorModel,
> {
    match r {
        Ok(text) => Ok(text@),
        Err(error) => Err(error@),
    }
}

/// Decodes one XML element name from UTF-8 bytes.
pub fn decode_name(name: &[u8]) -> (r: Result<String, ParseError>)
    ensures
        text_outcome(r) == name_text(name@),
{
    match utf8_text(name) {
        Ok(text) => Ok(text),
        Err(cause) => Err(ParseError::NameNotUtf8(cause)),
    }
}

/// Turns what became of the references of a text node into the node's text.
pub fn resolve_text(plain: Result<String, ErrorText>) -> (r: Result<String, ParseError>)
    ensures
        text_outcome(r) == resolved(text_result(plain)),
{
    match plain {
        Ok(text) => Ok(text),
        Err(error) => Err(ParseError::Escape(error)),
    }
}

/// Decodes and unescapes one XML text node.
pub fn decode_text(bytes: &[u8]) -> (r: Result<String, ParseError>)
    ensures
        text_outcome(r) == node_text(bytes@),
        valid_utf8(bytes@) && !decode_utf8(bytes@).contains('&') ==> (r matches Ok(text) && text@
            == decode_utf8(bytes@)),
{
    match utf8_text(bytes) {
        Ok(text) => resolve_text(unescape(text.as_str())),
        Err(cause) => Err(ParseError::TextNotUtf8(cause)),
    }
}

/// The text of a CDATA section.
pub fn decode_cdata(bytes: &[u8]) -> (r: String)
    ensures
        r@ == utf8_lossy(bytes@),
        valid_utf8(bytes@) ==> r@ == decode_utf8(bytes@),
{
    lossy_text(bytes)
}

/// What stands in an element besides other elements: text, CDATA sections, and what says nothing,
/// such as comments.
pub open spec fn is_text_token(token: Token) -> bool {
    token is Text || token is CData || token is Other
}

/// There are no elements among the events.
pub open spec fn is_text_run(events: Seq<Token>) -> bool {
    forall|i: int| 0 <= i < events.len() ==> is_text_token(#[trigger] events[i])
}

/// What a text node or a CDATA section says.
pub open spec fn token_text(token: Token) -> Result<Seq<char>, ParseErrorModel> {
    match token {
        Token::Text(bytes) => node_text(bytes),
        Token::CData(bytes) => Ok(utf8_lossy(bytes)),
        _ => Ok(Seq::empty()),
    }
}

/// What text nodes and CDATA sections say, one behind the other.
pub open spec fn run_text(events: Seq<Token>) -> Seq<char>
    decreases events.len(),
{
    if events.len() == 0 {
        Seq::empty()
    } else {
        token_text(events[0])->Ok_0 + run_text(events.drop_first())
    }
}

/// An element that holds no other elements, with what stands between the tag before it and itself.
pub struct TextElement {
    pub gap: Seq<Token>,
    pub name: Seq<u8>,
    pub content: Seq<Token>,
}

/// The events of text elements, one after the other.
pub open spec fn element_events(elements: Seq<TextElement>) -> Seq<Token>
    decreases elements.len(),
{
    if elements.len() == 0 {
        Seq::empty()
    } else {
        let first = elements[0];
        first.gap + seq![Token::Start(first.name)] + first.content + seq![Token::End(first.name)]
            + element_events(elements.drop_first())
    }
}

/// The name of the element and its text can be read.
pub open spec fn is_readable(element: TextElement) -> bool {
    &&& is_text_run(element.gap)
    &&& name_text(element.name) is Ok
    &&& is_text_run(element.content)
    &&& forall|i: int|
        0 <= i < element.content.len() ==> token_text(#[trigger] element.content[i]) is Ok
}

/// What an element says.
pub open spec fn element_text(element: TextElement) -> Seq<char> {
    run_text(element.content)
}

/// The events of elements begin with those of the first one.
pub proof fn lemma_first_element(elements: Seq<TextElement>, rest: Seq<Token>)
    requires
        elements.len() > 0,
    ensures
        element_events(elements) + rest == element_events(seq![elements[0]]) + (element_events(
            elements.drop_first(),
        ) + rest),
{
    reveal_with_fuel(element_events, 2);
    assert(seq![elements[0]].drop_first() =~= Seq::<TextElement>::empty());
    assert(element_events(elements) + rest =~= element_events(seq![elements[0]]) + (element_events(
        elements.drop_first(),
    ) + rest));
}

/// The events of one element.
pub proof fn lemma_one_element(element: TextElement, rest: Seq<Token>)
    ensures
        element_events(seq![element]) + rest == element.gap + (seq![Token::Start(element.name)] + (
        element.content + (seq![Token::End(element.name)] + rest))),
{
    reveal_with_fuel(element_events, 2);
    assert(seq![element].drop_first() =~= Seq::<TextElement>::empty());
    assert(element_events(seq![element]) + rest =~= element.gap + (seq![Token::Start(element.name)]
        + (element.content + (seq![Token::End(element.name)] + rest))));
}

/// A name is the text that its bytes encode.
pub proof fn lemma_name_of_text(text: Seq<char>)
    ensures
        name_text(encode_utf8(text)) == Ok::<_, ParseErrorModel>(text),
{
    encode_utf8_decode_utf8(text);
    encode_utf8_valid_utf8(text);
}

/// Pieces of text say what each of them says, one behind the other: a text node its text with the
/// references resolved, a CDATA section its text as it stands, anything else nothing.
pub proof fn lemma_pieces_of_text(a: Seq<Token>, b: Seq<Token>, bytes: Seq<u8>)
    ensures
        run_text(a + b) == run_text(a) + run_text(b),
        run_text(seq![Token::CData(bytes)]) == utf8_lossy(bytes),
        valid_utf8(bytes) ==> (xml_unescaped(decode_utf8(bytes)) matches Ok(text) ==> run_text(
            seq![Token::Text(bytes)],
        ) == text),
        run_text(seq![Token::Other]) == Seq::<char>::empty(),
    decreases a.len(),
{
    reveal_with_fuel(run_text, 2);
    assert(seq![Token::CData(bytes)].drop_first() =~= Seq::<Token>::empty());
    assert(seq![Token::Text(bytes)].drop_first() =~= Seq::<Token>::empty());
    assert(seq![Token::Other].drop_first() =~= Seq::<Token>::empty());
    assert(run_text(seq![Token::CData(bytes)]) =~= utf8_lossy(bytes));
    assert(run_text(seq![Token::Text(bytes)]) =~= node_text(bytes)->Ok_0);
    assert(run_text(seq![Token::Other]) =~= Seq::<char>::empty());
    if a.len() == 0 {
        assert(a + b =~= b);
        assert(run_text(a) + run_text(b) =~= run_text(b));
    } else {
        lemma_pieces_of_text(a.drop_first(), b, bytes);
        assert((a + b).drop_first() =~= a.drop_first() + b);
        assert(token_text(a[0])->Ok_0 + (run_text(a.drop_first()) + run_text(b)) =~= run_text(a)
            + run_text(b));
    }
}

/// What each error says, alone and with its cause.
pub proof fn lemma_parse_error_texts(error: ParseErrorModel)
    ensures
        error matches ParseErrorModel::Xml(text) ==> parse_error_text(error) == text.message
            && parse_error_chain(error) == text.chain,
        error matches ParseErrorModel::Escape(text) ==> parse_error_text(error) == text.message
            && parse_error_chain(error) == text.chain,
        error matches ParseErrorModel::NameNotUtf8(cause) ==> parse_error_text(error)
            == "element name is not valid UTF-8"@ && parse_error_chain(error) == parse_error_text(
            error,
        ) + ": "@ + cause,
        error matches ParseErrorModel::TextNotUtf8(cause) ==> parse_error_text(error)
            == "text node is not valid UTF-8"@ && parse_error_chain(error) == parse_error_text(
            error,
        ) + ": "@ + cause,
{
    reveal_strlit(": ");
    reveal_strlit("element name is not valid UTF-8");
    reveal_strlit("element name is not valid UTF-8: ");
    reveal_strlit("text node is not valid UTF-8");
    reveal_strlit("text node is not valid UTF-8: ");
    assert("element name is not valid UTF-8"@ + ": "@ =~= "element name is not valid UTF-8: "@);
    assert("text node is not valid UTF-8"@ + ": "@ =~= "text node is not valid UTF-8: "@);
}

/// What becomes of a name and of a text node that cannot be read: the error says which of the two it
/// was, and keeps what was said of the cause.
pub proof fn lemma_unreadable(bytes: Seq<u8>)
    ensures
        !valid_utf8(bytes) ==> name_text(bytes) == Err::<Seq<char>, _>(
            ParseErrorModel::NameNotUtf8(utf8_fault(bytes)),
        ) && node_text(bytes) == Err::<Seq<char>, _>(
            ParseErrorModel::TextNotUtf8(utf8_fault(bytes)),
        ),
        valid_utf8(bytes) ==> name_text(bytes) == Ok::<_, ParseErrorModel>(decode_utf8(bytes)),
        valid_utf8(bytes) ==> (xml_unescaped(decode_utf8(bytes)) matches Err(error) ==> node_text(
            bytes,
        ) == Err::<Seq<char>, _>(ParseErrorModel::Escape(error))),
{
}

} // verus!
