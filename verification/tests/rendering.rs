use ordinance_compiler::errors::ErrorText;
use ordinance_compiler::render::document::{frame_document, ordinance_to_markdown, RenderError};
use ordinance_compiler::render::fields::{format_article_number, format_date};
use ordinance_compiler::render::markdown::{html_to_markdown, render_body};
use ordinance_compiler::render::message::build_commit_message;
use ordinance_compiler::render::path::{
    assemble_path, compute_path, sanitize_name, sanitize_normalized,
};
use ordinance_compiler::xml_parser::model::{
    Article, OrdinanceBody, OrdinanceDetail, OrdinanceMetadata,
};

fn sample_detail() -> OrdinanceDetail {
    OrdinanceDetail {
        metadata: OrdinanceMetadata {
            ordinance_id: String::from("2000111"),
            name: String::from("서울특별시 간행물에 의한 광고계약 및 해지 등에 관한 조례"),
            type_raw: String::from("C0001"),
            jurisdiction: String::from("서울특별시"),
            jurisdiction_code: String::new(),
            promulgation_date: String::from("20210930"),
            promulgation_no: String::from("8127"),
            enforcement_date: String::from("20220113"),
            revision_kind: String::from("타법개정"),
            department: String::from("홍보담당관"),
        },
        body: OrdinanceBody {
            articles: vec![Article {
                number_raw: String::from("000100"),
                title: String::from("목적"),
                content: String::from("제1조(목적) 이 조례는 목적을 규정한다."),
            }],
            appendix: vec![String::from("이 조례는 공포한 날부터 시행한다.")],
            attachments: vec![],
            related_laws: vec![],
        },
    }
}

fn article(number: &str, title: &str, content: &str) -> Article {
    Article {
        number_raw: number.to_owned(),
        title: title.to_owned(),
        content: content.to_owned(),
    }
}

fn document(detail: &OrdinanceDetail) -> String {
    String::from_utf8(ordinance_to_markdown(detail).unwrap()).unwrap()
}

#[test]
fn formats_article_numbers() {
    assert_eq!(format_article_number("000100"), "1");
    assert_eq!(format_article_number("000102"), "1의2");
    assert_eq!(format_article_number(""), "");
    assert_eq!(format_article_number("1의2"), "1의2");
}

#[test]
fn formats_dates() {
    assert_eq!(format_date("20210930"), "2021-09-30");
    assert_eq!(format_date(""), "");
    assert_eq!(format_date("2021.9.30"), "2021.9.30");
}

#[test]
fn sanitizes_names() {
    assert_eq!(sanitize_name(" 서울 / 조례 "), "서울 _ 조례");
    assert_eq!(sanitize_name("강남구"), "강남구");
}

#[test]
fn computes_path_for_gwangyeok_only() {
    let detail = sample_detail();
    let path = compute_path(&detail.metadata).unwrap();
    assert_eq!(
        path.to_string(),
        "ordinances/서울특별시/_본청/조례/서울특별시 간행물에 의한 광고계약 및 해지 등에 관한 조례/본문.md"
    );
}

#[test]
fn computes_path_with_gicho() {
    let mut detail = sample_detail();
    detail.metadata.jurisdiction = String::from("서울특별시 강남구");
    detail.metadata.name = String::from("강남구 어떤 조례");
    let path = compute_path(&detail.metadata).unwrap();
    assert_eq!(
        path.to_string(),
        "ordinances/서울특별시/강남구/조례/강남구 어떤 조례/본문.md"
    );
}

#[test]
fn renders_markdown_document() {
    let detail = sample_detail();
    let rendered = ordinance_to_markdown(&detail).unwrap();
    let text = String::from_utf8(rendered).unwrap();
    assert!(text.starts_with("---\n"));
    assert!(text.contains("ordinance_type: 조례"));
    assert!(text.contains("자치법규ID: '2000111'"));
    assert!(text.contains("공포일자: 2021-09-30"));
    assert!(text.contains("##### 제1조 (목적)"));
    assert!(text.contains("이 조례는 목적을 규정한다."));
    assert!(text.contains("## 부칙"));
}

#[test]
fn builds_commit_message() {
    let detail = sample_detail();
    let msg = build_commit_message(&detail.metadata);
    assert!(msg.starts_with("조례: 서울특별시 간행물에"));
    assert!(msg.contains("공포일자: 2021-09-30"));
    assert!(msg.contains("자치법규ID: 2000111"));
}

#[test]
fn article_numbers_at_the_edges() {
    assert_eq!(format_article_number(" 001503 "), "15의3");
    assert_eq!(format_article_number("0100"), "1");
    assert_eq!(format_article_number("100"), "100");
    assert_eq!(format_article_number("0000"), "0");
    assert_eq!(format_article_number("429496729500"), "4294967295");
    assert_eq!(format_article_number("429496729600"), "0");
    assert_eq!(format_article_number("99999999999999999999999901"), "0의1");
    assert_eq!(format_article_number("00001503"), format_article_number("1503"));
}

#[test]
fn dates_keep_their_display_form() {
    assert_eq!(format_date(" 20210930\n"), "2021-09-30");
    assert_eq!(format_date(&format_date("20210930")), "2021-09-30");
    assert_eq!(format_date("2021093"), "2021093");
    assert_eq!(format_date("２０２１０９３０"), "２０２１０９３０");
}

#[test]
fn names_are_composed_and_collapsed() {
    assert_eq!(sanitize_name("\u{1100}\u{1161}\u{11a8}"), "각");
    assert_eq!(sanitize_normalized("\u{1100}\u{1161}"), "\u{1100}\u{1161}");
    assert_eq!(sanitize_name("a\\b/c:d*e?f\"g<h>i|j"), "a_b_c_d_e_f_g_h_i_j");
    assert_eq!(sanitize_name("\u{3000}가 \t\n 나\u{a0}"), "가 나");
    assert_eq!(sanitize_name(" \u{2003} "), "");
    let once = sanitize_name(" / 가 :: 나 / ");
    assert_eq!(once, "_ 가 __ 나 _");
    assert_eq!(sanitize_name(&once), once);
}

#[test]
fn paths_need_a_type_and_a_name() {
    let mut metadata = sample_detail().metadata;
    metadata.type_raw = String::from("알수없음");
    assert!(compute_path(&metadata).is_none());
    metadata.type_raw = String::from("C0002");
    metadata.name = String::from("  ");
    assert!(compute_path(&metadata).is_none());
    metadata.name = String::from("규칙 / 하나");
    metadata.jurisdiction = String::new();
    assert_eq!(
        compute_path(&metadata).unwrap().to_string(),
        "ordinances/_미상/_본청/규칙/규칙 _ 하나/본문.md"
    );
}

#[test]
fn assembled_paths_fill_in_missing_parts() {
    let path = assemble_path("조례", "이름", "경기도", Some(String::new())).unwrap();
    assert_eq!(path.to_string(), "ordinances/경기도/_본청/조례/이름/본문.md");
    let path = assemble_path("조례", "이름", "", Some(String::from("성남시"))).unwrap();
    assert_eq!(path.to_string(), "ordinances/_미상/성남시/조례/이름/본문.md");
    assert!(assemble_path("", "이름", "경기도", None).is_none());
    assert!(assemble_path("조례", "", "경기도", None).is_none());
}

#[test]
fn html_becomes_plain_markdown() {
    assert_eq!(html_to_markdown("가<br>나<BR />다<Br\t/>라"), "가\n나\n다\n라");
    assert_eq!(html_to_markdown("<p class='x'>가<b>나</b></p>"), "가나");
    assert_eq!(html_to_markdown("가 <> 나"), "가 <> 나");
    assert_eq!(html_to_markdown("가 < 나"), "가 < 나");
    assert_eq!(html_to_markdown("가 < 나 > 다"), "가  다");
    assert_eq!(html_to_markdown("<br /x>가"), "가");
    assert_eq!(html_to_markdown("&lt;가&gt;&quot;&apos;&#39;&nbsp;나"), "<가>\"'' 나");
    assert_eq!(html_to_markdown("&amp;lt;"), "<");
    assert_eq!(html_to_markdown("가\n\n\n\n나\n\n다\n\n\n"), "가\n\n나\n\n다");
    assert_eq!(html_to_markdown("평범한 글\n\n둘째 줄"), "평범한 글\n\n둘째 줄");
    assert_eq!(html_to_markdown(" \n평범한 글 > 둘\t"), "평범한 글 > 둘");
    assert_eq!(html_to_markdown("<<a>b><>c<d\n\n\n>e<"), "b><>ce<");
}

#[test]
fn article_headers_are_stripped_once() {
    let body = OrdinanceBody {
        articles: vec![
            article("000100", "목적", "제1조(목적) 첫째"),
            article("000200", "", "제2조 둘째"),
            article("000300", "셋", "제３조(가)(나) 셋째"),
            article("000400", "넷", "제4조(닫히지 않음 넷째"),
            article("", "다섯", "제오조 다섯째"),
            article("000600", "여섯", "제6조(여섯)"),
        ],
        appendix: vec![String::from(" \n "), String::from("<p>부칙</p>")],
        attachments: vec![],
        related_laws: vec![],
    };
    assert_eq!(
        render_body(&body),
        "##### 제1조 (목적)\n\n첫째\n\n##### 제2조\n\n둘째\n\n##### 제3조 (셋)\n\n(나) 셋째\n\n\
         ##### 제4조 (넷)\n\n(닫히지 않음 넷째\n\n제오조 다섯째\n\n##### 제6조 (여섯)\n\n## 부칙\n\n부칙"
    );
}

#[test]
fn documents_have_an_exact_shape() {
    let mut detail = sample_detail();
    detail.body.attachments = vec![String::from("별표 1.HWPX"), String::from("b.pdf")];
    detail.body.related_laws = vec![String::from("지방자치법")];
    assert_eq!(
        document(&detail),
        "---\n\
         jurisdiction: 서울특별시\n\
         jurisdiction_code: ''\n\
         ordinance_type: 조례\n\
         자치법규ID: '2000111'\n\
         자치법규명: 서울특별시 간행물에 의한 광고계약 및 해지 등에 관한 조례\n\
         공포일자: 2021-09-30\n\
         공포번호: '8127'\n\
         시행일자: 2022-01-13\n\
         제개정구분: 타법개정\n\
         담당부서명: 홍보담당관\n\
         related_laws:\n\
         - 지방자치법\n\
         attachments:\n\
         - 별표 1.HWPX\n\
         - b.pdf\n\
         attachments_hwp: true\n\
         body_format: mixed\n\
         body_source: api-text\n\
         hwp_sha256: ''\n\
         ---\n\
         \n\
         ##### 제1조 (목적)\n\
         \n\
         이 조례는 목적을 규정한다.\n\
         \n\
         ## 부칙\n\
         \n\
         이 조례는 공포한 날부터 시행한다.\n"
    );
}

#[test]
fn documents_without_text_carry_a_note() {
    let mut detail = sample_detail();
    detail.body = OrdinanceBody::default();
    let text = document(&detail);
    assert!(text.contains("attachments: []\n"));
    assert!(text.contains("body_format: hwp_only\nbody_source: parsing-failed\n"));
    assert!(text.ends_with("---\n\n> 본문이 제공되지 않습니다.\n"));
    detail.body.attachments = vec![String::from("가.hwp"), String::from("나.hwpx.txt")];
    let text = document(&detail);
    assert!(text.contains("attachments_hwp: true\n"));
    assert!(text.ends_with(
        "---\n\n> 본문은 첨부파일(HWP)로 제공됩니다. 첨부파일 목록: 가.hwp, 나.hwpx.txt\n"
    ));
    detail.body.attachments = vec![String::from("나.hwpx.txt"), String::from("hwp")];
    assert!(document(&detail).contains("attachments_hwp: false\n"));
    detail.body.appendix = vec![String::from("부칙만")];
    assert!(document(&detail).ends_with("---\n\n## 부칙\n\n부칙만\n"));
}

#[test]
fn frames_take_the_yaml_with_or_without_its_rule() {
    assert_eq!(frame_document("a: 1\n", "글"), "---\na: 1\n---\n\n글\n");
    assert_eq!(frame_document("---\na: 1\n", "글"), "---\na: 1\n---\n\n글\n");
    let error = RenderError::Yaml(ErrorText {
        message: String::from("what"),
        chain: String::from("what: why"),
    });
    assert_eq!(error.to_string(), "what");
    assert_eq!(error.to_chain(), "what: why");
}

#[test]
fn commit_messages_leave_out_what_is_missing() {
    let detail = sample_detail();
    assert_eq!(
        build_commit_message(&detail.metadata),
        "조례: 서울특별시 간행물에 의한 광고계약 및 해지 등에 관한 조례\n\n공포일자: 2021-09-30\n\
         공포번호: 8127\n지자체: 서울특별시\n제개정: 타법개정\n자치법규ID: 2000111"
    );
    let bare = OrdinanceMetadata {
        ordinance_id: String::from("7"),
        ..OrdinanceMetadata::default()
    };
    assert_eq!(
        build_commit_message(&bare),
        "자치법규: 7\n\n공포일자: \n자치법규ID: 7"
    );
}

#[test]
fn copies_are_equal_in_every_field() {
    let mut detail = sample_detail();
    detail.body.attachments = vec![String::from("a")];
    detail.body.related_laws = vec![String::from("b")];
    let copy = detail.clone();
    assert_eq!(format!("{detail:?}"), format!("{copy:?}"));
    assert_ne!(format!("{:?}", OrdinanceDetail::default()), format!("{copy:?}"));
}
