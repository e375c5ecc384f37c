use ordinance_compiler::errors::ErrorText;
use ordinance_compiler::xml_parser::body::parse_ordinance_body;
use ordinance_compiler::xml_parser::metadata::parse_metadata_only;
use ordinance_compiler::xml_parser::model::{
    decode_cdata, decode_name, decode_text, resolve_text, ParseError,
};

const SAMPLE_XML: &str = r#"<?xml version="1.0" encoding="UTF-8"?>
<LawService>
  <자치법규기본정보>
    <자치법규ID>2000111</자치법규ID>
    <공포일자>20210930</공포일자>
    <공포번호>8127</공포번호>
    <자치법규명><![CDATA[서울특별시 간행물에 의한 광고계약 및 해지 등에 관한 조례]]></자치법규명>
    <시행일자>20220113</시행일자>
    <자치법규종류>C0001</자치법규종류>
    <지자체기관명>서울특별시</지자체기관명>
    <담당부서명>홍보담당관</담당부서명>
    <제개정정보>타법개정</제개정정보>
  </자치법규기본정보>
  <조문>
    <조 조문번호='000100'>
      <조문번호>000100</조문번호>
      <조제목><![CDATA[목적]]></조제목>
      <조내용><![CDATA[제1조(목적) 이 조례는 목적을 규정한다.]]></조내용>
    </조>
  </조문>
  <부칙>
    <부칙내용><![CDATA[이 조례는 공포한 날부터 시행한다.]]></부칙내용>
  </부칙>
</LawService>"#;

#[test]
fn parses_metadata_for_law_service_xml() {
    let metadata = parse_metadata_only(SAMPLE_XML.as_bytes()).unwrap().unwrap();
    assert_eq!(metadata.ordinance_id, "2000111");
    assert_eq!(
        metadata.name,
        "서울특별시 간행물에 의한 광고계약 및 해지 등에 관한 조례"
    );
    assert_eq!(metadata.type_raw, "C0001");
    assert_eq!(metadata.jurisdiction, "서울특별시");
    assert_eq!(metadata.promulgation_date, "20210930");
    assert_eq!(metadata.promulgation_no, "8127");
    assert_eq!(metadata.enforcement_date, "20220113");
    assert_eq!(metadata.revision_kind, "타법개정");
    assert_eq!(metadata.department, "홍보담당관");
}

#[test]
fn returns_none_for_non_law_service_root() {
    let xml = r#"<?xml version="1.0" encoding="UTF-8"?><Other/>"#;
    assert!(parse_metadata_only(xml.as_bytes()).unwrap().is_none());
}

#[test]
fn parses_body_articles_and_appendix() {
    let body = parse_ordinance_body(SAMPLE_XML.as_bytes()).unwrap();
    assert_eq!(body.articles.len(), 1);
    assert_eq!(body.articles[0].number_raw, "000100");
    assert_eq!(body.articles[0].title, "목적");
    assert!(body.articles[0].content.contains("제1조"));
    assert_eq!(body.appendix.len(), 1);
    assert!(body.appendix[0].contains("공포한 날"));
}

#[test]
fn the_first_text_fills_a_field() {
    let xml = "<LawService><ID> </ID><자치법규일련번호>12</자치법규일련번호><자치법규ID>34</자치법규ID>\
               <기관코드>6</기관코드><지자체기관코드>7</지자체기관코드><제개정구분/>\
               <제개정구분명>&amp;일부&lt;</제개정구분명></LawService>";
    let metadata = parse_metadata_only(xml.as_bytes()).unwrap().unwrap();
    assert_eq!(metadata.ordinance_id, "12");
    assert_eq!(metadata.jurisdiction_code, "6");
    assert_eq!(metadata.revision_kind, "&일부<");
    assert_eq!(metadata.name, "");
}

#[test]
fn text_comes_in_pieces() {
    let xml = "<!-- c --><LawService> x <ID>\n 1<![CDATA[2]]><!-- c -->3 </ID><![CDATA[y]]>\
               <자치법규명><![CDATA[가]]>나<![CDATA[ 다 ]]></자치법규명>\
               <조문> x <조> y <조제목>라<![CDATA[마]]></조제목><!-- c --><조내용>\
               <![CDATA[<b>]]>바&lt;</조내용> z </조></조문>\
               <부칙> x <부칙내용>사<!-- c --><![CDATA[아]]></부칙내용> y </부칙>\
               <파일명> <![CDATA[자.hwp]]> </파일명></LawService> ";
    let metadata = parse_metadata_only(xml.as_bytes()).unwrap().unwrap();
    assert_eq!(metadata.ordinance_id, "123");
    assert_eq!(metadata.name, "가나 다");
    let body = parse_ordinance_body(xml.as_bytes()).unwrap();
    assert_eq!(body.articles.len(), 1);
    assert_eq!(body.articles[0].title, "라마");
    assert_eq!(body.articles[0].content, "<b>바<");
    assert_eq!(body.appendix, ["사아"]);
    assert_eq!(body.attachments, ["자.hwp"]);
}

#[test]
fn nothing_is_found_without_an_id() {
    let xml = "<LawService><자치법규명>이름</자치법규명></LawService>";
    assert!(parse_metadata_only(xml.as_bytes()).unwrap().is_none());
    assert!(parse_metadata_only(b"<LawService/>").unwrap().is_none());
    assert!(parse_metadata_only(b"").unwrap().is_none());
    assert!(parse_metadata_only(b"<!DOCTYPE html><html><body>err</body></html>")
        .unwrap()
        .is_none());
}

#[test]
fn another_root_ends_the_reading() {
    assert!(parse_metadata_only(b"<html></body>").unwrap().is_none());
}

#[test]
fn faults_are_reported() {
    let error = parse_metadata_only(b"<LawService></Other>").unwrap_err();
    assert!(matches!(error, ParseError::Xml(_)));
    let cause = "expected `</LawService>`, but `</Other>` was found";
    assert_eq!(error.to_string(), format!("ill-formed document: {cause}"));
    assert_eq!(error.to_chain(), format!("ill-formed document: {cause}: {cause}"));
    let error = parse_ordinance_body(b"<LawService></Other>").unwrap_err();
    assert!(matches!(error, ParseError::Xml(_)));

    let error = parse_metadata_only(b"<LawService><\xff></\xff></LawService>").unwrap_err();
    assert!(matches!(error, ParseError::NameNotUtf8(_)));
    assert_eq!(error.to_string(), "element name is not valid UTF-8");
    assert_eq!(
        error.to_chain(),
        "element name is not valid UTF-8: invalid utf-8 sequence of 1 bytes from index 0"
    );

    let error = parse_metadata_only(b"<LawService><ID>\xff</ID></LawService>").unwrap_err();
    assert!(matches!(error, ParseError::TextNotUtf8(_)));
    assert_eq!(error.to_string(), "text node is not valid UTF-8");
    assert_eq!(
        error.to_chain(),
        "text node is not valid UTF-8: invalid utf-8 sequence of 1 bytes from index 0"
    );

    let error = parse_metadata_only(b"<LawService><ID>&nope;</ID></LawService>").unwrap_err();
    assert!(matches!(error, ParseError::Escape(_)));
    assert_eq!(error.to_string(), "at 1..5: unrecognized entity `nope`");
    assert_eq!(error.to_chain(), error.to_string());

    let error = parse_metadata_only(b"<LawService><ID>&#0;</ID></LawService>").unwrap_err();
    let (head, cause) = ("invalid character reference", &error.to_string()[29..]);
    assert_eq!(error.to_string(), format!("{head}: {cause}"));
    assert_eq!(error.to_chain(), format!("{head}: {cause}: {cause}"));
}

#[test]
fn text_that_nobody_collects_may_be_broken() {
    let xml = b"<LawService>\xff<x>&nope;</x><ID>5</ID></LawService>";
    assert_eq!(parse_metadata_only(xml).unwrap().unwrap().ordinance_id, "5");
    assert!(parse_ordinance_body(xml).unwrap().articles.is_empty());
}

#[test]
fn pieces_are_decoded() {
    assert_eq!(decode_name("조문".as_bytes()).unwrap(), "조문");
    assert_eq!(decode_text("가 &gt; &#45208;".as_bytes()).unwrap(), "가 > 나");
    assert_eq!(decode_text("그대로".as_bytes()).unwrap(), "그대로");
    assert_eq!(decode_cdata(b"a&amp;\xffb"), "a&amp;\u{fffd}b");
    assert_eq!(resolve_text(Ok(String::from("x"))).unwrap(), "x");
    let text = ErrorText {
        message: String::from("what"),
        chain: String::from("what: why"),
    };
    let error = resolve_text(Err(text)).unwrap_err();
    assert_eq!(error.to_string(), "what");
    assert_eq!(error.to_chain(), "what: why");
}

#[test]
fn lists_hold_nothing_twice() {
    let xml = "<LawService><첨부파일명>가.hwp</첨부파일명><파일명> 가.hwp </파일명><별표파일명></별표파일명>\
               <별표서식파일명>나.pdf</별표서식파일명><관련법령>법</관련법령><상위법령명>법</상위법령명>\
               <관련법령명>영</관련법령명></LawService>";
    let body = parse_ordinance_body(xml.as_bytes()).unwrap();
    assert_eq!(body.attachments, ["가.hwp", "나.pdf"]);
    assert_eq!(body.related_laws, ["법", "영"]);
    assert!(body.articles.is_empty());
}

#[test]
fn empty_articles_and_appendices_are_dropped() {
    let xml = "<LawService><조문><조><조문번호> </조문번호></조><조><조제목>가</조제목>\
               <조제목>나</조제목></조></조문><부칙><부칙내용> </부칙내용></부칙>\
               <부칙><부칙내용>하나</부칙내용><부칙내용>둘</부칙내용></부칙>\
               <부칙내용>밖</부칙내용></LawService>";
    let body = parse_ordinance_body(xml.as_bytes()).unwrap();
    assert_eq!(body.articles.len(), 1);
    assert_eq!(body.articles[0].title, "가");
    assert_eq!(body.appendix, ["하나"]);
}

#[test]
fn units_count_where_there_are_no_articles() {
    let unit = "<조문단위><조문번호>1</조문번호><조문제목>제</조문제목><조문내용>내</조문내용></조문단위>";
    let body = parse_ordinance_body(format!("<LawService>{unit}</LawService>").as_bytes()).unwrap();
    assert_eq!(body.articles.len(), 1);
    assert_eq!(body.articles[0].number_raw, "1");
    assert_eq!(body.articles[0].title, "제");
    assert_eq!(body.articles[0].content, "내");
    let xml = format!("<LawService><조문><조><조문번호>2</조문번호></조></조문>{unit}</LawService>");
    let body = parse_ordinance_body(xml.as_bytes()).unwrap();
    assert_eq!(body.articles.len(), 1);
    assert_eq!(body.articles[0].number_raw, "2");
    let xml = "<LawService><조><조문번호>3</조문번호></조></LawService>";
    assert!(parse_ordinance_body(xml.as_bytes()).unwrap().articles.is_empty());
}
