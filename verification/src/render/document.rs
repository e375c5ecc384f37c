//! The repository document of an ordinance.

use vstd::prelude::*;
use vstd::string::StringExecFns;
use vstd::utf8::{decode_utf8, encode_utf8, encode_utf8_decode_utf8};

use crate::bytes::push_bytes;
use crate::errors::{ErrorModel, ErrorText};
use crate::jurisdictions::{classify_type, ordinance_type};
use crate::render::fields::{display_date, format_date};
use crate::render::frontmatter::{
    distinct_keys, field_views, write_yaml, yaml_text, Field, FieldModel, FieldValue,
};
use crate::render::markdown::{body_text, render_body};
use crate::text::{
    begins_with, contains_text, copy_texts, ends_with, from_range, join, joined,
    lemma_joined_shows, lemma_text_found, lemma_text_stands, matches_at, texts, to_chars,
};
use crate::xml_parser::model::{DetailModel, OrdinanceDetail};

verus! {

/// The lower case form of an ASCII letter; any other character itself.
pub open spec fn ascii_lower(c: char) -> char {
    if 'A' <= c <= 'Z' {
        (c as u32 + 32) as char
    } else {
        c
    }
}

/// A file name with an HWP or HWPX extension, in upper or lower case.
pub open spec fn is_hwp_name(name: Seq<char>) -> bool {
    let lower = name.map_values(|c: char| ascii_lower(c));
    ends_with(lower, ".hwp"@) || ends_with(lower, ".hwpx"@)
}

/// One of the file names has an HWP or HWPX extension.
pub open spec fn has_hwp(names: Seq<Seq<char>>) -> bool {
    exists|i: int| 0 <= i < names.len() && is_hwp_name(#[trigger] names[i])
}

fn lower_case(c: char) -> (r: char)
    ensures
        r == ascii_lower(c),
{
    if 'A' <= c && c <= 'Z' {
        (c as u8 + 32) as char
    } else {
        c
    }
}

fn hwp_name(name: &str) -> (r: bool)
    ensures
        r == is_hwp_name(name@),
{
    let chars = to_chars(name);
    let mut lower: Vec<char> = Vec::new();
    let mut i: usize = 0;
    while i < chars.len()
        invariant
            i <= chars@.len(),
            lower@ == chars@.take(i as int).map_values(|c: char| ascii_lower(c)),
        decreases chars@.len() - i,
    {
        lower.push(lower_case(chars[i]));
        assert(lower@ =~= chars@.take(i + 1).map_values(|c: char| ascii_lower(c)));
        i += 1;
    }
    assert(chars@.take(i as int) =~= chars@);
    let hwp = to_chars(".hwp");
    let hwpx = to_chars(".hwpx");
    (lower.len() >= hwp.len() && matches_at(&lower, &hwp, lower.len() - hwp.len())) || (lower.len()
        >= hwpx.len() && matches_at(&lower, &hwpx, lower.len() - hwpx.len()))
}

fn any_hwp(names: &Vec<String>) -> (r: bool)
    ensures
        r == has_hwp(texts(names@)),
{
    let mut i: usize = 0;
    while i < names.len()
        invariant
            i <= names@.len(),
            forall|j: int| 0 <= j < i ==> !is_hwp_name(#[trigger] texts(names@)[j]),
        decreases names@.len() - i,
    {
        assert(texts(names@)[i as int] == names@[i as int]@);
        if hwp_name(names[i].as_str()) {
            return true;
        }
        i += 1;
    }
    false
}

/// How much of the body stands in the document itself.
pub open spec fn body_format(has_articles: bool, has_hwp: bool) -> Seq<char> {
    if has_articles && has_hwp {
        "mixed"@
    } else if has_articles {
        "text"@
    } else {
        "hwp_only"@
    }
}

/// Where the body comes from.
pub open spec fn body_source(has_articles: bool) -> Seq<char> {
    if has_articles {
        "api-text"@
    } else {
        "parsing-failed"@
    }
}

/// The fields of the frontmatter, in their order.
pub open spec fn frontmatter_fields(detail: DetailModel) -> Seq<(Seq<char>, FieldModel)> {
    let metadata = detail.metadata;
    let has_articles = detail.body.articles.len() > 0;
    let has_hwp = has_hwp(detail.body.attachments);
    seq![
        ("jurisdiction"@, FieldModel::Text(metadata.jurisdiction)),
        ("jurisdiction_code"@, FieldModel::Text(metadata.jurisdiction_code)),
        ("ordinance_type"@, FieldModel::Text(ordinance_type(metadata.type_raw))),
        ("자치법규ID"@, FieldModel::Text(metadata.ordinance_id)),
        ("자치법규명"@, FieldModel::Text(metadata.name)),
        ("공포일자"@, FieldModel::Text(display_date(metadata.promulgation_date))),
        ("공포번호"@, FieldModel::Text(metadata.promulgation_no)),
        ("시행일자"@, FieldModel::Text(display_date(metadata.enforcement_date))),
        ("제개정구분"@, FieldModel::Text(metadata.revision_kind)),
        ("담당부서명"@, FieldModel::Text(metadata.department)),
        ("related_laws"@, FieldModel::List(detail.body.related_laws)),
        ("attachments"@, FieldModel::List(detail.body.attachments)),
        ("attachments_hwp"@, FieldModel::Flag(has_hwp)),
        ("body_format"@, FieldModel::Text(body_format(has_articles, has_hwp))),
        ("body_source"@, FieldModel::Text(body_source(has_articles))),
        ("hwp_sha256"@, FieldModel::Text(Seq::empty())),
    ]
}

/// No two fields of the frontmatter have the same key.
pub proof fn lemma_frontmatter_keys(detail: DetailModel)
    ensures
        distinct_keys(frontmatter_fields(detail)),
{
    reveal_strlit("jurisdiction");
    reveal_strlit("jurisdiction_code");
    reveal_strlit("ordinance_type");
    reveal_strlit("자치법규ID");
    reveal_strlit("자치법규명");
    reveal_strlit("공포일자");
    reveal_strlit("공포번호");
    reveal_strlit("시행일자");
    reveal_strlit("제개정구분");
    reveal_strlit("담당부서명");
    reveal_strlit("related_laws");
    reveal_strlit("attachments");
    reveal_strlit("attachments_hwp");
    reveal_strlit("body_format");
    reveal_strlit("body_source");
    reveal_strlit("hwp_sha256");
    let fields = frontmatter_fields(detail);
    assert forall|i: int, j: int| 0 <= i < j < fields.len() implies (#[trigger] fields[i]).0 != (
    #[trigger] fields[j]).0 by {
        let a = fields[i].0;
        let b = fields[j].0;
        if a.len() == b.len() {
            assert(a[0] != b[0] || a[2] != b[2] || a[5] != b[5]);
        }
    }
}

fn text_field(key: &'static str, text: &str) -> (r: Field)
    ensures
        r.key@ == key@,
        r.value@ == FieldModel::Text(text@),
{
    Field { key, value: FieldValue::Text(text.to_owned()) }
}

/// Collects the fields of the frontmatter.
pub fn collect_fields(detail: &OrdinanceDetail) -> (r: Vec<Field>)
    ensures
        field_views(r@) == frontmatter_fields(detail@),
{
    let metadata = &detail.metadata;
    let has_articles = detail.body.articles.len() > 0;
    let hwp = any_hwp(&detail.body.attachments);
    let format = if has_articles && hwp {
        "mixed"
    } else if has_articles {
        "text"
    } else {
        "hwp_only"
    };
    let source = if has_articles {
        "api-text"
    } else {
        "parsing-failed"
    };
    let promulgated = format_date(metadata.promulgation_date.as_str());
    let enforced = format_date(metadata.enforcement_date.as_str());
    let related_laws = FieldValue::List(copy_texts(&detail.body.related_laws));
    let attachments = FieldValue::List(copy_texts(&detail.body.attachments));
    let mut fields: Vec<Field> = Vec::new();
    fields.push(text_field("jurisdiction", metadata.jurisdiction.as_str()));
    fields.push(text_field("jurisdiction_code", metadata.jurisdiction_code.as_str()));
    fields.push(text_field("ordinance_type", classify_type(metadata.type_raw.as_str())));
    fields.push(text_field("자치법규ID", metadata.ordinance_id.as_str()));
    fields.push(text_field("자치법규명", metadata.name.as_str()));
    fields.push(text_field("공포일자", promulgated.as_str()));
    fields.push(text_field("공포번호", metadata.promulgation_no.as_str()));
    fields.push(text_field("시행일자", enforced.as_str()));
    fields.push(text_field("제개정구분", metadata.revision_kind.as_str()));
    fields.push(text_field("담당부서명", metadata.department.as_str()));
    fields.push(Field { key: "related_laws", value: related_laws });
    fields.push(Field { key: "attachments", value: attachments });
    fields.push(Field { key: "attachments_hwp", value: FieldValue::Flag(hwp) });
    fields.push(text_field("body_format", format));
    fields.push(text_field("body_source", source));
    fields.push(text_field("hwp_sha256", ""));
    proof {
        reveal_strlit("");
        assert(""@ =~= Seq::<char>::empty());
        assert(field_views(fields@) =~= frontmatter_fields(detail@));
    }
    fields
}

/// The text that stands below the frontmatter: the rendered body, or a note where there is none.
pub open spec fn document_text(detail: DetailModel) -> Seq<char> {
    let body = body_text(detail.body);
    let attachments = detail.body.attachments;
    if detail.body.articles.len() > 0 || body.len() > 0 {
        body
    } else if has_hwp(attachments) {
        "> 본문은 첨부파일(HWP)로 제공됩니다. 첨부파일 목록: "@ + joined(attachments, ", "@)
    } else {
        "> 본문이 제공되지 않습니다."@
    }
}

fn render_text(detail: &OrdinanceDetail) -> (r: String)
    ensures
        r@ == document_text(detail@),
{
    let body = render_body(&detail.body);
    if detail.body.articles.len() > 0 || to_chars(body.as_str()).len() > 0 {
        body
    } else if any_hwp(&detail.body.attachments) {
        let mut note = "> 본문은 첨부파일(HWP)로 제공됩니다. 첨부파일 목록: ".to_owned();
        note.append(join(&detail.body.attachments, ", ").as_str());
        note
    } else {
        "> 본문이 제공되지 않습니다.".to_owned()
    }
}

/// The whole document: the YAML between two rules, an empty line, the text, and a newline.
pub open spec fn framed(yaml: Seq<char>, text: Seq<char>) -> Seq<char> {
    let inner = if begins_with(yaml, "---\n"@) {
        yaml.skip(4)
    } else {
        yaml
    };
    "---\n"@ + inner + "---\n\n"@ + text + "\n"@
}

/// Puts the document together from its YAML and its text.
pub fn frame_document(yaml: &str, text: &str) -> (r: String)
    ensures
        r@ == framed(yaml@, text@),
{
    let rule = to_chars("---\n");
    let chars = to_chars(yaml);
    let mut out = "---\n".to_owned();
    proof {
        reveal_strlit("---\n");
    }
    if matches_at(&chars, &rule, 0) {
        let inner = from_range(&chars, 4, chars.len());
        assert(inner@ =~= yaml@.skip(4));
        out.append(inner.as_str());
    } else {
        out.append(yaml);
    }
    out.append("---\n\n");
    out.append(text);
    out.append("\n");
    out
}

/// Why a document could not be rendered.
#[derive(Debug)]
pub enum RenderError {
    /// The frontmatter cannot be written as YAML, with what is said of it.
    Yaml(ErrorText),
}

/// What a [`RenderError`] stands for.
pub enum RenderErrorModel {
    Yaml(ErrorModel),
}

impl View for RenderError {
    type V = RenderErrorModel;

    open spec fn view(&self) -> RenderErrorModel {
        match *self {
            RenderError::Yaml(text) => RenderErrorModel::Yaml(text@),
        }
    }
}

/// The message of a [`RenderError`], without its causes.
pub open spec fn render_error_text(error: RenderErrorModel) -> Seq<char> {
    match error {
        RenderErrorModel::Yaml(text) => text.message,
    }
}

/// The message of a [`RenderError`], with its causes behind it.
pub open spec fn render_error_chain(error: RenderErrorModel) -> Seq<char> {
    match error {
        RenderErrorModel::Yaml(text) => text.chain,
    }
}

impl RenderError {
    /// The message of this error, without its causes.
    pub fn to_string(&self) -> (r: String)
        ensures
            r@ == render_error_text(self@),
    {
        match self {
            RenderError::Yaml(text) => text.message.clone(),
        }
    }

    /// The message of this error, with its causes behind it.
    pub fn to_chain(&self) -> (r: String)
        ensures
            r@ == render_error_chain(self@),
    {
        match self {
            RenderError::Yaml(text) => text.chain.clone(),
        }
    }
}

/// The bytes of the document of an ordinance, or why its frontmatter cannot be written.
pub open spec fn document_bytes(detail: DetailModel) -> Result<Seq<u8>, RenderErrorModel> {
    match yaml_text(frontmatter_fields(detail)) {
        Ok(yaml) => Ok(encode_utf8(framed(yaml, document_text(detail)))),
        Err(error) => Err(RenderErrorModel::Yaml(error)),
    }
}

/// The view of a rendering result.
pub open spec fn document_result(r: Result<Vec<u8>, RenderError>) -> Result<
    Seq<u8>,
    RenderErrorModel,
> {
    match r {
        Ok(markdown) => Ok(markdown@),
        Err(error) => Err(error@),
    }
}

/// Renders one parsed ordinance document into the repository Markdown format.
pub fn ordinance_to_markdown(detail: &OrdinanceDetail) -> (r: Result<Vec<u8>, RenderError>)
    ensures
        document_result(r) == document_bytes(detail@),
{
    proof {
        lemma_frontmatter_keys(detail@);
    }
    match write_yaml(collect_fields(detail)) {
        Ok(yaml) => {
            let text = frame_document(yaml.as_str(), render_text(detail).as_str());
            let mut bytes: Vec<u8> = Vec::new();
            push_bytes(&mut bytes, text.as_str().as_bytes());
            assert(bytes@ =~= encode_utf8(text@));
            Ok(bytes)
        },
        Err(text) => Err(RenderError::Yaml(text)),
    }
}

/// A file name is one of HWP where it ends with a dot, the letters `hwp` in upper or lower case, and
/// an `x` or none.
pub proof fn lemma_hwp_names(name: Seq<char>)
    ensures
        is_hwp_name(name) <==> ({
            let n = name.len();
            ||| n >= 4 && name[n - 4] == '.' && (name[n - 3] == 'h' || name[n - 3] == 'H') && (
            name[n - 2] == 'w' || name[n - 2] == 'W') && (name[n - 1] == 'p' || name[n - 1] == 'P')
            ||| n >= 5 && name[n - 5] == '.' && (name[n - 4] == 'h' || name[n - 4] == 'H') && (
            name[n - 3] == 'w' || name[n - 3] == 'W') && (name[n - 2] == 'p' || name[n - 2] == 'P')
                && (name[n - 1] == 'x' || name[n - 1] == 'X')
        }),
{
    reveal_strlit(".hwp");
    reveal_strlit(".hwpx");
    let n = name.len() as int;
    let lower = name.map_values(|c: char| ascii_lower(c));
    if n >= 4 {
        let tail = lower.subrange(n - 4, n);
        assert(tail[0] == ascii_lower(name[n - 4]) && tail[1] == ascii_lower(name[n - 3]));
        assert(tail[2] == ascii_lower(name[n - 2]) && tail[3] == ascii_lower(name[n - 1]));
        if name[n - 4] == '.' && (name[n - 3] == 'h' || name[n - 3] == 'H') && (name[n - 2] == 'w'
            || name[n - 2] == 'W') && (name[n - 1] == 'p' || name[n - 1] == 'P') {
            assert(tail =~= ".hwp"@);
        }
    }
    if n >= 5 {
        let tail = lower.subrange(n - 5, n);
        assert(tail[0] == ascii_lower(name[n - 5]) && tail[1] == ascii_lower(name[n - 4]));
        assert(tail[2] == ascii_lower(name[n - 3]) && tail[3] == ascii_lower(name[n - 2]));
        assert(tail[4] == ascii_lower(name[n - 1]));
        if name[n - 5] == '.' && (name[n - 4] == 'h' || name[n - 4] == 'H') && (name[n - 3] == 'w'
            || name[n - 3] == 'W') && (name[n - 2] == 'p' || name[n - 2] == 'P') && (name[n - 1]
            == 'x' || name[n - 1] == 'X') {
            assert(tail =~= ".hwpx"@);
        }
    }
}

/// One file of HWP among others is enough, wherever it stands.
pub proof fn lemma_one_hwp_is_enough(a: Seq<Seq<char>>, name: Seq<char>, b: Seq<Seq<char>>)
    ensures
        has_hwp(a + seq![name] + b) <==> has_hwp(a) || is_hwp_name(name) || has_hwp(b),
        !has_hwp(Seq::empty()),
{
    let all = a + seq![name] + b;
    if has_hwp(a) {
        let k = choose|k: int| 0 <= k < a.len() && is_hwp_name(#[trigger] a[k]);
        assert(all[k] == a[k]);
    }
    if has_hwp(b) {
        let k = choose|k: int| 0 <= k < b.len() && is_hwp_name(#[trigger] b[k]);
        assert(all[a.len() + 1 + k] == b[k]);
    }
    if is_hwp_name(name) {
        assert(all[a.len() as int] == name);
    }
    if has_hwp(all) {
        let k = choose|k: int| 0 <= k < all.len() && is_hwp_name(#[trigger] all[k]);
        if k < a.len() {
            assert(a[k] == all[k]);
        } else if k > a.len() {
            assert(b[k - a.len() - 1] == all[k]);
        }
    }
}

/// What the frontmatter says under each key.
pub open spec fn field_under(fields: Seq<(Seq<char>, FieldModel)>, key: Seq<char>) -> Option<
    FieldModel,
>
    decreases fields.len(),
{
    if fields.len() == 0 {
        None
    } else if fields[0].0 == key {
        Some(fields[0].1)
    } else {
        field_under(fields.drop_first(), key)
    }
}

proof fn lemma_field_under(fields: Seq<(Seq<char>, FieldModel)>, i: int)
    requires
        distinct_keys(fields),
        0 <= i < fields.len(),
    ensures
        field_under(fields, fields[i].0) == Some(fields[i].1),
    decreases fields.len(),
{
    if i > 0 {
        let rest = fields.drop_first();
        assert(fields[0].0 != fields[i].0);
        assert forall|j: int, k: int| 0 <= j < k < rest.len() implies (#[trigger] rest[j]).0 != (
        #[trigger] rest[k]).0 by {
            assert(rest[j] == fields[j + 1] && rest[k] == fields[k + 1]);
        }
        lemma_field_under(rest, i - 1);
    }
}

/// The frontmatter has sixteen fields, in this order: what the document says of itself, its lists,
/// and how its body comes.
pub proof fn lemma_frontmatter_order(detail: DetailModel)
    ensures
        ({
            let fields = frontmatter_fields(detail);
            &&& fields.len() == 16
            &&& fields[0].0 == "jurisdiction"@ && fields[1].0 == "jurisdiction_code"@
            &&& fields[2].0 == "ordinance_type"@ && fields[3].0 == "자치법규ID"@
            &&& fields[4].0 == "자치법규명"@ && fields[5].0 == "공포일자"@
            &&& fields[6].0 == "공포번호"@ && fields[7].0 == "시행일자"@
            &&& fields[8].0 == "제개정구분"@ && fields[9].0 == "담당부서명"@
            &&& fields[10].0 == "related_laws"@ && fields[11].0 == "attachments"@
            &&& fields[12].0 == "attachments_hwp"@ && fields[13].0 == "body_format"@
            &&& fields[14].0 == "body_source"@ && fields[15].0 == "hwp_sha256"@
        }),
{
}

/// Each field of the frontmatter says what the document says: texts and lists as they are, the type
/// in its normalized form, and dates in their display form.
pub proof fn lemma_frontmatter_says(detail: DetailModel)
    ensures
        ({
            let fields = frontmatter_fields(detail);
            let metadata = detail.metadata;
            &&& field_under(fields, "jurisdiction"@) == Some(FieldModel::Text(metadata.jurisdiction))
            &&& field_under(fields, "jurisdiction_code"@) == Some(
                FieldModel::Text(metadata.jurisdiction_code),
            )
            &&& field_under(fields, "ordinance_type"@) == Some(
                FieldModel::Text(ordinance_type(metadata.type_raw)),
            )
            &&& field_under(fields, "자치법규ID"@) == Some(FieldModel::Text(metadata.ordinance_id))
            &&& field_under(fields, "자치법규명"@) == Some(FieldModel::Text(metadata.name))
            &&& field_under(fields, "공포일자"@) == Some(
                FieldModel::Text(display_date(metadata.promulgation_date)),
            )
            &&& field_under(fields, "공포번호"@) == Some(FieldModel::Text(metadata.promulgation_no))
            &&& field_under(fields, "시행일자"@) == Some(
                FieldModel::Text(display_date(metadata.enforcement_date)),
            )
            &&& field_under(fields, "제개정구분"@) == Some(FieldModel::Text(metadata.revision_kind))
            &&& field_under(fields, "담당부서명"@) == Some(FieldModel::Text(metadata.department))
            &&& field_under(fields, "related_laws"@) == Some(
                FieldModel::List(detail.body.related_laws),
            )
            &&& field_under(fields, "attachments"@) == Some(
                FieldModel::List(detail.body.attachments),
            )
            &&& field_under(fields, "attachments_hwp"@) == Some(
                FieldModel::Flag(has_hwp(detail.body.attachments)),
            )
            &&& field_under(fields, "hwp_sha256"@) == Some(FieldModel::Text(Seq::empty()))
        }),
{
    let fields = frontmatter_fields(detail);
    lemma_frontmatter_keys(detail);
    lemma_frontmatter_order(detail);
    lemma_field_under(fields, 0);
    lemma_field_under(fields, 1);
    lemma_field_under(fields, 2);
    lemma_field_under(fields, 3);
    lemma_field_under(fields, 4);
    lemma_field_under(fields, 5);
    lemma_field_under(fields, 6);
    lemma_field_under(fields, 7);
    lemma_field_under(fields, 8);
    lemma_field_under(fields, 9);
    lemma_field_under(fields, 10);
    lemma_field_under(fields, 11);
    lemma_field_under(fields, 12);
    lemma_field_under(fields, 15);
}

/// The format in the frontmatter says what the document holds: `text` for articles alone, `mixed`
/// for articles beside a file of HWP, and `hwp_only` where there are no articles. The source is
/// `api-text` exactly where there are articles, which is where the format is `text` or `mixed`.
pub proof fn lemma_format_says_what_is_there(detail: DetailModel)
    ensures
        ({
            let fields = frontmatter_fields(detail);
            let articles = detail.body.articles;
            let hwp = exists|i: int|
                0 <= i < detail.body.attachments.len() && is_hwp_name(
                    #[trigger] detail.body.attachments[i],
                );
            let format = field_under(fields, "body_format"@);
            let source = field_under(fields, "body_source"@);
            &&& format == Some(FieldModel::Text("text"@)) <==> articles.len() > 0 && !hwp
            &&& format == Some(FieldModel::Text("mixed"@)) <==> articles.len() > 0 && hwp
            &&& format == Some(FieldModel::Text("hwp_only"@)) <==> articles.len() == 0
            &&& source == Some(FieldModel::Text("api-text"@)) <==> articles.len() > 0
            &&& source == Some(FieldModel::Text("parsing-failed"@)) <==> articles.len() == 0
            &&& source == Some(FieldModel::Text("api-text"@)) <==> format == Some(
                FieldModel::Text("text"@),
            ) || format == Some(FieldModel::Text("mixed"@))
        }),
{
    reveal_strlit("text");
    reveal_strlit("mixed");
    reveal_strlit("hwp_only");
    reveal_strlit("api-text");
    reveal_strlit("parsing-failed");
    assert("text"@.len() == 4 && "mixed"@.len() == 5 && "hwp_only"@.len() == 8);
    assert("api-text"@.len() == 8 && "parsing-failed"@.len() == 14);
    let fields = frontmatter_fields(detail);
    lemma_frontmatter_keys(detail);
    lemma_field_under(fields, 13);
    lemma_field_under(fields, 14);
    assert(has_hwp(detail.body.attachments) == exists|i: int|
        0 <= i < detail.body.attachments.len() && is_hwp_name(
            #[trigger] detail.body.attachments[i],
        ));
}

/// A document with articles shows its body. One without, whose body says nothing, names all its
/// attachments where one of them is of HWP, and else says that there is no body.
pub proof fn lemma_document_text_says(detail: DetailModel)
    ensures
        ({
            let text = document_text(detail);
            let attachments = detail.body.attachments;
            let silent = detail.body.articles.len() == 0 && body_text(detail.body).len() == 0;
            &&& !silent ==> text == body_text(detail.body)
            &&& silent && !has_hwp(attachments) ==> text == "> 본문이 제공되지 않습니다."@
            &&& silent && has_hwp(attachments) ==> begins_with(
                text,
                "> 본문은 첨부파일(HWP)로 제공됩니다. 첨부파일 목록: "@,
            ) && text.skip(
                "> 본문은 첨부파일(HWP)로 제공됩니다. 첨부파일 목록: "@.len() as int,
            ) == joined(attachments, ", "@) && forall|i: int|
                0 <= i < attachments.len() ==> contains_text(text, #[trigger] attachments[i])
        }),
{
    let attachments = detail.body.attachments;
    let note = "> 본문은 첨부파일(HWP)로 제공됩니다. 첨부파일 목록: "@;
    let list = joined(attachments, ", "@);
    lemma_text_found(Seq::empty(), note, list);
    assert((note + list).skip(note.len() as int) =~= list);
    assert forall|i: int| 0 <= i < attachments.len() implies contains_text(
        note + list,
        #[trigger] attachments[i],
    ) by {
        lemma_joined_shows(attachments, ", "@, i);
        lemma_text_stands(list, attachments[i]);
        let (a, b) = choose|a: Seq<char>, b: Seq<char>| list == #[trigger] (a + attachments[i] + b);
        assert(note + list =~= (note + a) + attachments[i] + b);
        lemma_text_found(note + a, attachments[i], b);
    }
}

/// A document is a rule, its YAML, a rule, an empty line, its text and a newline. A rule that the
/// YAML itself begins with is not doubled.
pub proof fn lemma_framed(yaml: Seq<char>, text: Seq<char>)
    ensures
        framed("---\n"@ + yaml, text) == "---\n"@ + yaml + "---\n"@ + "\n"@ + text + "\n"@,
        !begins_with(yaml, "---\n"@) ==> framed(yaml, text) == framed("---\n"@ + yaml, text),
{
    reveal_strlit("---\n");
    reveal_strlit("\n");
    reveal_strlit("---\n\n");
    let ruled = "---\n"@ + yaml;
    lemma_text_found(Seq::empty(), "---\n"@, yaml);
    assert(ruled.skip(4) =~= yaml);
    assert("---\n"@ + "\n"@ =~= "---\n\n"@);
    assert("---\n"@ + yaml + "---\n\n"@ + text + "\n"@ =~= "---\n"@ + yaml + "---\n"@ + "\n"@ + text
        + "\n"@);
}

/// The bytes of a document encode the frame of its YAML and its text. It cannot be rendered exactly
/// where its frontmatter cannot be written, and the error says why.
pub proof fn lemma_document_bytes(detail: DetailModel)
    ensures
        match yaml_text(frontmatter_fields(detail)) {
            Ok(yaml) => document_bytes(detail) matches Ok(bytes) && decode_utf8(bytes) == framed(
                yaml,
                document_text(detail),
            ),
            Err(error) => document_bytes(detail) matches Err(found) && render_error_text(found)
                == error.message && render_error_chain(found) == error.chain,
        },
{
    if let Ok(yaml) = yaml_text(frontmatter_fields(detail)) {
        encode_utf8_decode_utf8(framed(yaml, document_text(detail)));
    }
}

} // verus!
