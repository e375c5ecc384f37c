use ordinance_compiler::jurisdictions::{classify_type, split_jurisdiction, GWANGYEOK_NAMES};

#[test]
fn gwangyeok_only_has_no_gicho() {
    assert_eq!(
        split_jurisdiction("서울특별시"),
        ("서울특별시".to_owned(), None)
    );
    assert_eq!(
        split_jurisdiction("세종특별자치시"),
        ("세종특별자치시".to_owned(), None)
    );
}

#[test]
fn gwangyeok_with_gicho_splits() {
    assert_eq!(
        split_jurisdiction("서울특별시 강남구"),
        ("서울특별시".to_owned(), Some("강남구".to_owned()))
    );
    assert_eq!(
        split_jurisdiction("경기도 성남시"),
        ("경기도".to_owned(), Some("성남시".to_owned()))
    );
}

#[test]
fn edu_offices_stay_top_level() {
    assert_eq!(
        split_jurisdiction("서울특별시교육청"),
        ("서울특별시교육청".to_owned(), None)
    );
}

#[test]
fn unknown_gwangyeok_passes_through() {
    assert_eq!(
        split_jurisdiction("미확인 어딘가"),
        ("미확인 어딘가".to_owned(), None)
    );
}

#[test]
fn classify_type_maps_codes_and_labels() {
    assert_eq!(classify_type("C0001"), "조례");
    assert_eq!(classify_type("C0002"), "규칙");
    assert_eq!(classify_type("C0003"), "훈령");
    assert_eq!(classify_type("C0004"), "예규");
    assert_eq!(classify_type("조례"), "조례");
    assert_eq!(classify_type("서울특별시 조례"), "조례");
    assert_eq!(classify_type(""), "");
    assert_eq!(classify_type("알수없음"), "");
}

#[test]
fn all_gwangyeok_names_split_off() {
    assert_eq!(GWANGYEOK_NAMES.len(), 17);
    for name in GWANGYEOK_NAMES {
        assert_eq!(split_jurisdiction(name), (name.to_owned(), None));
        assert_eq!(
            split_jurisdiction(&format!("{name} 어느군")),
            (name.to_owned(), Some("어느군".to_owned()))
        );
    }
}

#[test]
fn jurisdiction_white_space_is_trimmed() {
    assert_eq!(split_jurisdiction(" \u{3000} "), (String::new(), None));
    assert_eq!(
        split_jurisdiction(" 경기도   성남시 분당구 "),
        ("경기도".to_owned(), Some("성남시 분당구".to_owned()))
    );
    assert_eq!(
        split_jurisdiction("경기도\t성남시"),
        ("경기도\t성남시".to_owned(), None)
    );
}

#[test]
fn education_offices_of_all_kinds_stay_whole() {
    for name in [
        "경기도 성남교육지원청",
        "경기도 교육청",
        "서울특별시교육청교육지원청",
    ] {
        assert_eq!(split_jurisdiction(name), (name.to_owned(), None));
    }
    assert_eq!(
        split_jurisdiction("경기도 교육청 앞"),
        ("경기도".to_owned(), Some("교육청 앞".to_owned()))
    );
}

#[test]
fn the_first_type_of_a_label_counts() {
    assert_eq!(classify_type("규칙과 조례"), "조례");
    assert_eq!(classify_type(" C0003 "), "훈령");
    assert_eq!(classify_type("c0003"), "");
    for label in ["조례", "규칙", "훈령", "예규", ""] {
        assert_eq!(classify_type(classify_type(label)), classify_type(label));
    }
}
