//! Jurisdiction-name parsing and ordinance-type classification.

use vstd::prelude::*;

use crate::text::{
    all_white, begins_with, contains, contains_text, ends_with, finishes_with, from_range,
    is_white_space, lemma_nothing_to_trim, lemma_text_found, lemma_text_stands, lemma_trimmed,
    lemma_trimmed_of, lemma_trimmed_padded, lemma_trimmed_split, matches_at, occurs_at, same_text,
    to_chars, trim, trim_end, trim_start, trimmed,
};

verus! {

/// Seventeen 광역시·도 display names used to split `"서울특별시 송파구"` into
/// `(광역, 기초)`.
pub const GWANGYEOK_NAMES: [&'static str; 17] = [
    "서울특별시",
    "부산광역시",
    "대구광역시",
    "인천광역시",
    "광주광역시",
    "대전광역시",
    "울산광역시",
    "세종특별자치시",
    "경기도",
    "강원특별자치도",
    "충청북도",
    "충청남도",
    "전북특별자치도",
    "전라남도",
    "경상북도",
    "경상남도",
    "제주특별자치도",
];

/// The display names of the 광역시·도.
pub open spec fn gwangyeok_names() -> Seq<Seq<char>> {
    GWANGYEOK_NAMES@.map_values(|name: &'static str| name@)
}

/// The name of a 교육청, which sits at the top level.
pub open spec fn is_education_office(name: Seq<char>) -> bool {
    ||| ends_with(name, "교육청"@)
    ||| ends_with(name, "교육청교육지원청"@)
    ||| ends_with(name, "교육지원청"@)
}

/// Splits off the first of the given names that the whole name equals or that stands in front of a
/// space at its beginning.
pub open spec fn split_known(name: Seq<char>, known: Seq<Seq<char>>) -> (
    Seq<char>,
    Option<Seq<char>>,
)
    decreases known.len(),
{
    if known.len() == 0 {
        (name, None)
    } else if name == known[0] {
        (known[0], None)
    } else if begins_with(name, known[0].push(' ')) {
        let rest = trimmed(name.skip(known[0].len() as int + 1));
        if rest.len() == 0 {
            (known[0], None)
        } else {
            (known[0], Some(rest))
        }
    } else {
        split_known(name, known.drop_first())
    }
}

/// The `(광역, 기초|None)` of a 지자체기관명.
pub open spec fn jurisdiction_parts(raw_name: Seq<char>) -> (Seq<char>, Option<Seq<char>>) {
    let name = trimmed(raw_name);
    if name.len() == 0 || is_education_office(name) {
        (name, None)
    } else {
        split_known(name, gwangyeok_names())
    }
}

/// The view of the two parts of a jurisdiction name.
pub open spec fn parts_view(parts: (String, Option<String>)) -> (Seq<char>, Option<Seq<char>>) {
    (
        parts.0@,
        match parts.1 {
            Some(gicho) => Some(gicho@),
            None => None,
        },
    )
}

/// Tests for 교육청류 jurisdictions routed under `_본청`.
fn edu_office(name: &str) -> (r: bool)
    ensures
        r == is_education_office(name@),
{
    finishes_with(name, "교육청") || finishes_with(name, "교육청교육지원청") || finishes_with(
        name,
        "교육지원청",
    )
}

/// Splits a raw 지자체기관명 into `(광역, 기초|None)`.
///
/// - `"서울특별시"` → `("서울특별시", None)`
/// - `"서울특별시 강남구"` → `("서울특별시", Some("강남구"))`
/// - `"서울특별시교육청"` → `("서울특별시교육청", None)` (교육청 sits at top-level)
pub fn split_jurisdiction(raw_name: &str) -> (r: (String, Option<String>))
    ensures
        parts_view(r) == jurisdiction_parts(raw_name@),
{
    let raw = trim(raw_name);
    let chars = to_chars(raw.as_str());
    if chars.len() == 0 {
        return (raw, None);
    }
    if edu_office(raw.as_str()) {
        return (raw, None);
    }
    let ghost names = gwangyeok_names();
    let mut i: usize = 0;
    assert(names.skip(0) =~= names);
    while i < 17
        invariant
            i <= 17,
            chars@ == raw@,
            names == gwangyeok_names(),
            jurisdiction_parts(raw_name@) == split_known(raw@, names.skip(i as int)),
        decreases 17 - i,
    {
        let gwang: &'static str = GWANGYEOK_NAMES[i];
        let ghost rest_names = names.skip(i as int);
        assert(rest_names[0] == gwang@);
        assert(rest_names.drop_first() =~= names.skip(i + 1));
        if same_text(raw.as_str(), gwang) {
            return (gwang.to_owned(), None);
        }
        let mut with_space = to_chars(gwang);
        with_space.push(' ');
        if matches_at(&chars, &with_space, 0) {
            let from = from_range(&chars, with_space.len(), chars.len());
            assert(from@ =~= raw@.skip(gwang@.len() as int + 1));
            let rest = trim(from.as_str());
            if to_chars(rest.as_str()).len() == 0 {
                return (gwang.to_owned(), None);
            }
            return (gwang.to_owned(), Some(rest));
        }
        i += 1;
    }
    assert(names.skip(17).len() == 0);
    (raw, None)
}

/// The normalized 자치법규종류 of a raw one.
pub open spec fn ordinance_type(raw: Seq<char>) -> Seq<char> {
    let name = trimmed(raw);
    if name == "C0001"@ {
        "조례"@
    } else if name == "C0002"@ {
        "규칙"@
    } else if name == "C0003"@ {
        "훈령"@
    } else if name == "C0004"@ {
        "예규"@
    } else if contains_text(name, "조례"@) {
        "조례"@
    } else if contains_text(name, "규칙"@) {
        "규칙"@
    } else if contains_text(name, "훈령"@) {
        "훈령"@
    } else if contains_text(name, "예규"@) {
        "예규"@
    } else {
        ""@
    }
}

/// Normalizes a raw 자치법규종류 field to one of `조례 / 규칙 / 훈령 / 예규`.
///
/// The `자치법규종류` field may be a C000N code or a free-form label, so this accepts both. Returns
/// an empty string when nothing matches.
pub fn classify_type(raw: &str) -> (r: &'static str)
    ensures
        r@ == ordinance_type(raw@),
{
    let name = trim(raw);
    let name = name.as_str();
    if same_text(name, "C0001") {
        "조례"
    } else if same_text(name, "C0002") {
        "규칙"
    } else if same_text(name, "C0003") {
        "훈령"
    } else if same_text(name, "C0004") {
        "예규"
    } else if contains(name, "조례") {
        "조례"
    } else if contains(name, "규칙") {
        "규칙"
    } else if contains(name, "훈령") {
        "훈령"
    } else if contains(name, "예규") {
        "예규"
    } else {
        ""
    }
}

/// The normalized type is one of the four, or empty.
pub proof fn lemma_types(raw: Seq<char>)
    ensures
        ordinance_type(raw) == "조례"@ || ordinance_type(raw) == "규칙"@ || ordinance_type(raw)
            == "훈령"@ || ordinance_type(raw) == "예규"@ || ordinance_type(raw).len() == 0,
{
    reveal_strlit("");
}

/// A label that is one of the four types is its own type.
pub proof fn lemma_type_of_type(raw: Seq<char>)
    ensures
        ordinance_type(ordinance_type(raw)) == ordinance_type(raw),
{
    reveal_strlit("조례");
    reveal_strlit("규칙");
    reveal_strlit("훈령");
    reveal_strlit("예규");
    reveal_strlit("");
    reveal_strlit("C0001");
    reveal_strlit("C0002");
    reveal_strlit("C0003");
    reveal_strlit("C0004");
    let name = ordinance_type(raw);
    lemma_types(raw);
    assert(trimmed(name) == name) by {
        reveal_with_fuel(trim_start, 2);
        reveal_with_fuel(trim_end, 2);
    }
    assert(name.len() == 2 || name.len() == 0);
    if name.len() == 2 {
        assert(occurs_at(name, name, 0)) by {
            assert(name.subrange(0, 2) =~= name);
        }
        assert forall|pat: Seq<char>| pat.len() == 2 && contains_text(name, pat) implies pat
            == name by {
            let i = choose|i: int| occurs_at(name, pat, i);
            assert(i == 0);
            assert(name.subrange(0, 2) =~= name);
        }
    }
}

/// There are seventeen names, no two of them equal. None of them is empty, begins with white space
/// or holds a space.
pub proof fn lemma_gwangyeok_names()
    ensures
        gwangyeok_names().len() == 17,
        forall|i: int, j: int|
            0 <= i < j < 17 ==> #[trigger] gwangyeok_names()[i] != #[trigger] gwangyeok_names()[j],
        forall|i: int|
            0 <= i < 17 ==> !(#[trigger] gwangyeok_names()[i]).contains(' ')
                && gwangyeok_names()[i].len() > 0 && !is_white_space(gwangyeok_names()[i][0]),
{
    let names = gwangyeok_names();
    reveal_strlit("서울특별시");
    reveal_strlit("부산광역시");
    reveal_strlit("대구광역시");
    reveal_strlit("인천광역시");
    reveal_strlit("광주광역시");
    reveal_strlit("대전광역시");
    reveal_strlit("울산광역시");
    reveal_strlit("세종특별자치시");
    reveal_strlit("경기도");
    reveal_strlit("강원특별자치도");
    reveal_strlit("충청북도");
    reveal_strlit("충청남도");
    reveal_strlit("전북특별자치도");
    reveal_strlit("전라남도");
    reveal_strlit("경상북도");
    reveal_strlit("경상남도");
    reveal_strlit("제주특별자치도");
    assert(names[0] == "서울특별시"@ && names[1] == "부산광역시"@ && names[2] == "대구광역시"@);
    assert(names[3] == "인천광역시"@ && names[4] == "광주광역시"@ && names[5] == "대전광역시"@);
    assert(names[6] == "울산광역시"@ && names[7] == "세종특별자치시"@ && names[8] == "경기도"@);
    assert(names[9] == "강원특별자치도"@ && names[10] == "충청북도"@ && names[11] == "충청남도"@);
    assert(names[12] == "전북특별자치도"@ && names[13] == "전라남도"@ && names[14] == "경상북도"@);
    assert(names[15] == "경상남도"@ && names[16] == "제주특별자치도"@);
    assert forall|i: int, j: int| 0 <= i < j < 17 implies #[trigger] names[i]
        != #[trigger] names[j] by {
        if names[i].len() == names[j].len() {
            assert(names[i][0] != names[j][0] || names[i][1] != names[j][1] || names[i][2]
                != names[j][2]);
        }
    }
}

proof fn lemma_space_ends_name(a: Seq<char>, b: Seq<char>, rest: Seq<char>)
    requires
        !a.contains(' '),
        !b.contains(' '),
        begins_with(b.push(' ') + rest, a.push(' ')),
    ensures
        a == b,
{
    let whole = b.push(' ') + rest;
    let head = whole.subrange(0, a.len() as int + 1);
    assert(head == a.push(' '));
    assert forall|i: int| 0 <= i < a.len() implies a[i] == #[trigger] whole[i] by {
        assert(head[i] == a[i]);
    }
    assert(head[a.len() as int] == ' ');
    assert(whole[a.len() as int] == ' ');
    if a.len() < b.len() {
        assert(b[a.len() as int] == ' ');
        assert(b.contains(' '));
    }
    if b.len() < a.len() {
        assert(whole[b.len() as int] == ' ');
        assert(a[b.len() as int] == ' ');
        assert(a.contains(' '));
    }
    assert forall|i: int| 0 <= i < a.len() implies a[i] == b[i] by {
        assert(whole[i] == b[i]);
    }
    assert(a =~= b);
}

proof fn lemma_split_known(gwang: Seq<char>, gicho: Seq<char>, known: Seq<Seq<char>>)
    requires
        known.contains(gwang),
        forall|i: int| 0 <= i < known.len() ==> !(#[trigger] known[i]).contains(' '),
        gicho.len() > 0,
        trimmed(gicho) == gicho,
    ensures
        split_known(gwang.push(' ') + gicho, known) == (gwang, Some(gicho)),
    decreases known.len(),
{
    let name = gwang.push(' ') + gicho;
    let k = choose|k: int| 0 <= k < known.len() && known[k] == gwang;
    assert(!known[0].contains(' '));
    assert(!known[k].contains(' '));
    assert(name[gwang.len() as int] == ' ');
    assert(name.contains(' '));
    if begins_with(name, known[0].push(' ')) {
        lemma_space_ends_name(known[0], gwang, gicho);
        assert(name.skip(gwang.len() as int + 1) =~= gicho);
    } else {
        if known[0] == gwang {
            assert(name.subrange(0, gwang.len() as int + 1) =~= gwang.push(' '));
        }
        let rest = known.drop_first();
        assert(rest[k - 1] == gwang);
        assert forall|i: int| 0 <= i < rest.len() implies !(#[trigger] rest[i]).contains(' ') by {
            assert(rest[i] == known[i + 1]);
        }
        lemma_split_known(gwang, gicho, rest);
    }
}

/// A 광역 name and a 기초 name with a space between them are split into the two again, unless the
/// whole is the name of a 교육청.
pub proof fn lemma_split_of_joined(gwang: Seq<char>, gicho: Seq<char>)
    requires
        gwangyeok_names().contains(gwang),
        gicho.len() > 0,
        trimmed(gicho) == gicho,
        !is_education_office(gwang.push(' ') + gicho),
    ensures
        jurisdiction_parts(gwang.push(' ') + gicho) == (gwang, Some(gicho)),
{
    lemma_gwangyeok_names();
    let name = gwang.push(' ') + gicho;
    let k = choose|k: int| 0 <= k < gwangyeok_names().len() && gwangyeok_names()[k] == gwang;
    assert(name[0] == gwang[0]);
    assert(name.last() == gicho.last());
    lemma_trimmed(gicho);
    lemma_nothing_to_trim(name);
    lemma_split_known(gwang, gicho, gwangyeok_names());
}

proof fn lemma_split_known_parts(name: Seq<char>, known: Seq<Seq<char>>)
    ensures
        ({
            let parts = split_known(name, known);
            &&& parts.1 matches Some(gicho) ==> known.contains(parts.0) && gicho.len() > 0
                && begins_with(name, parts.0.push(' '))
            &&& parts.1 is None ==> known.contains(parts.0) || parts.0 == name
        }),
    decreases known.len(),
{
    if known.len() > 0 {
        lemma_split_known_parts(name, known.drop_first());
        let parts = split_known(name, known);
        assert(known.contains(known[0]));
        if known.drop_first().contains(parts.0) {
            let k = choose|k: int|
                0 <= k < known.drop_first().len() && known.drop_first()[k] == parts.0;
            assert(known[k + 1] == parts.0);
        }
    }
}

/// Only a 광역 name is ever split off, and what is left of the name is not empty.
pub proof fn lemma_parts(raw_name: Seq<char>)
    ensures
        ({
            let parts = jurisdiction_parts(raw_name);
            &&& parts.1 matches Some(gicho) ==> gwangyeok_names().contains(parts.0) && gicho.len()
                > 0 && begins_with(trimmed(raw_name), parts.0.push(' '))
            &&& parts.1 is None ==> gwangyeok_names().contains(parts.0) || parts.0 == trimmed(
                raw_name,
            )
        }),
{
    lemma_split_known_parts(trimmed(raw_name), gwangyeok_names());
}

/// The names of the 광역시·도, in their order. Each ends with 시 or 도.
pub proof fn lemma_gwangyeok_list()
    ensures
        gwangyeok_names() == seq![
            "서울특별시"@,
            "부산광역시"@,
            "대구광역시"@,
            "인천광역시"@,
            "광주광역시"@,
            "대전광역시"@,
            "울산광역시"@,
            "세종특별자치시"@,
            "경기도"@,
            "강원특별자치도"@,
            "충청북도"@,
            "충청남도"@,
            "전북특별자치도"@,
            "전라남도"@,
            "경상북도"@,
            "경상남도"@,
            "제주특별자치도"@,
        ],
        forall|i: int|
            0 <= i < 17 ==> (#[trigger] gwangyeok_names()[i]).last() == '시'
                || gwangyeok_names()[i].last() == '도',
{
    reveal_strlit("서울특별시");
    reveal_strlit("부산광역시");
    reveal_strlit("대구광역시");
    reveal_strlit("인천광역시");
    reveal_strlit("광주광역시");
    reveal_strlit("대전광역시");
    reveal_strlit("울산광역시");
    reveal_strlit("세종특별자치시");
    reveal_strlit("경기도");
    reveal_strlit("강원특별자치도");
    reveal_strlit("충청북도");
    reveal_strlit("충청남도");
    reveal_strlit("전북특별자치도");
    reveal_strlit("전라남도");
    reveal_strlit("경상북도");
    reveal_strlit("경상남도");
    reveal_strlit("제주특별자치도");
    let names = gwangyeok_names();
    assert(names =~= seq![
            "서울특별시"@,
            "부산광역시"@,
            "대구광역시"@,
            "인천광역시"@,
            "광주광역시"@,
            "대전광역시"@,
            "울산광역시"@,
            "세종특별자치시"@,
            "경기도"@,
            "강원특별자치도"@,
            "충청북도"@,
            "충청남도"@,
            "전북특별자치도"@,
            "전라남도"@,
            "경상북도"@,
            "경상남도"@,
            "제주특별자치도"@,
    ]);
}

proof fn lemma_code_is_no_label(code: Seq<char>, label: Seq<char>)
    requires
        label.len() > 0,
        !code.contains(label[0]),
    ensures
        !contains_text(code, label),
{
    if contains_text(code, label) {
        let i = choose|i: int| occurs_at(code, label, i);
        assert(code.subrange(i, i + label.len())[0] == code[i]);
        assert(code.contains(code[i]));
    }
}

/// Which raw types are of which type: a code of its own, or a label that holds the name of the type
/// and of none that comes before it in 조례, 규칙, 훈령, 예규. Anything else has no type.
pub proof fn lemma_type_table(raw: Seq<char>)
    ensures
        ({
            let name = trimmed(raw);
            let kind = ordinance_type(raw);
            let jorye = contains_text(name, "조례"@);
            let gyuchik = contains_text(name, "규칙"@);
            let hullyeong = contains_text(name, "훈령"@);
            let yegyu = contains_text(name, "예규"@);
            &&& kind == "조례"@ <==> name == "C0001"@ || jorye
            &&& kind == "규칙"@ <==> name == "C0002"@ || (gyuchik && !jorye)
            &&& kind == "훈령"@ <==> name == "C0003"@ || (hullyeong && !gyuchik && !jorye)
            &&& kind == "예규"@ <==> name == "C0004"@ || (yegyu && !hullyeong && !gyuchik && !jorye)
            &&& kind.len() == 0 || kind == "조례"@ || kind == "규칙"@ || kind == "훈령"@ || kind
                == "예규"@
        }),
{
    reveal_strlit("조례");
    reveal_strlit("규칙");
    reveal_strlit("훈령");
    reveal_strlit("예규");
    reveal_strlit("");
    reveal_strlit("C0001");
    reveal_strlit("C0002");
    reveal_strlit("C0003");
    reveal_strlit("C0004");
    let name = trimmed(raw);
    assert("조례"@[0] != "규칙"@[0] && "조례"@[0] != "훈령"@[0] && "조례"@[0] != "예규"@[0]);
    assert("규칙"@[0] != "훈령"@[0] && "규칙"@[0] != "예규"@[0] && "훈령"@[0] != "예규"@[0]);
    assert("조례"@ != "규칙"@ && "조례"@ != "훈령"@ && "조례"@ != "예규"@);
    assert("규칙"@ != "훈령"@ && "규칙"@ != "예규"@ && "훈령"@ != "예규"@);
    assert(""@.len() == 0 && "조례"@.len() == 2 && "규칙"@.len() == 2);
    assert("훈령"@.len() == 2 && "예규"@.len() == 2);
    assert("C0001"@[4] != "C0002"@[4] && "C0001"@[4] != "C0003"@[4] && "C0001"@[4] != "C0004"@[4]);
    assert("C0002"@[4] != "C0003"@[4] && "C0002"@[4] != "C0004"@[4] && "C0003"@[4] != "C0004"@[4]);
    if name == "C0001"@ || name == "C0002"@ || name == "C0003"@ || name == "C0004"@ {
        lemma_codes_are_no_labels(name);
    }
}

proof fn lemma_codes_are_no_labels(name: Seq<char>)
    requires
        name == "C0001"@ || name == "C0002"@ || name == "C0003"@ || name == "C0004"@,
    ensures
        !contains_text(name, "조례"@),
        !contains_text(name, "규칙"@),
        !contains_text(name, "훈령"@),
        !contains_text(name, "예규"@),
{
    reveal_strlit("조례");
    reveal_strlit("규칙");
    reveal_strlit("훈령");
    reveal_strlit("예규");
    reveal_strlit("C0001");
    reveal_strlit("C0002");
    reveal_strlit("C0003");
    reveal_strlit("C0004");
    assert forall|i: int| 0 <= i < name.len() implies (#[trigger] name[i] as u32) < 128 by {}
    assert(!name.contains("조례"@[0]) && !name.contains("규칙"@[0]));
    assert(!name.contains("훈령"@[0]) && !name.contains("예규"@[0]));
    lemma_code_is_no_label(name, "조례"@);
    lemma_code_is_no_label(name, "규칙"@);
    lemma_code_is_no_label(name, "훈령"@);
    lemma_code_is_no_label(name, "예규"@);
}

proof fn lemma_end_of_end(name: Seq<char>, a: Seq<char>, b: Seq<char>)
    requires
        ends_with(name, a + b),
    ensures
        ends_with(name, b),
{
    lemma_text_stands(name, a + b);
    let front = name.take(name.len() - (a + b).len());
    assert(name =~= (front + a) + b);
    lemma_text_found(front + a, b, Seq::empty());
}

proof fn lemma_office_names()
    ensures
        "교육청"@ + "교육지원청"@ == "교육청교육지원청"@,
{
    reveal_strlit("교육청");
    reveal_strlit("교육지원청");
    reveal_strlit("교육청교육지원청");
    assert("교육청"@ + "교육지원청"@ =~= "교육청교육지원청"@);
}

/// The name of an office of education ends with 교육청 or 교육지원청, whatever comes before.
pub proof fn lemma_education_offices(name: Seq<char>, a: Seq<char>)
    ensures
        is_education_office(name) <==> ends_with(name, "교육청"@) || ends_with(name, "교육지원청"@),
        is_education_office(a + "교육청"@),
        is_education_office(a + "교육지원청"@),
{
    lemma_office_names();
    lemma_text_found(a, "교육청"@, Seq::empty());
    lemma_text_found(a, "교육지원청"@, Seq::empty());
    if ends_with(name, "교육청교육지원청"@) {
        lemma_end_of_end(name, "교육청"@, "교육지원청"@);
    }
}

proof fn lemma_split_known_padded(gwang: Seq<char>, gicho: Seq<char>, known: Seq<Seq<char>>)
    requires
        known.contains(gwang),
        forall|i: int| 0 <= i < known.len() ==> !(#[trigger] known[i]).contains(' '),
        trimmed(gicho).len() > 0,
    ensures
        split_known(gwang.push(' ') + gicho, known) == (gwang, Some(trimmed(gicho))),
    decreases known.len(),
{
    let name = gwang.push(' ') + gicho;
    let k = choose|k: int| 0 <= k < known.len() && known[k] == gwang;
    assert(!known[0].contains(' '));
    assert(!known[k].contains(' '));
    assert(name[gwang.len() as int] == ' ');
    assert(name.contains(' '));
    if begins_with(name, known[0].push(' ')) {
        lemma_space_ends_name(known[0], gwang, gicho);
        assert(name.skip(gwang.len() as int + 1) =~= gicho);
    } else {
        if known[0] == gwang {
            assert(name.subrange(0, gwang.len() as int + 1) =~= gwang.push(' '));
        }
        let rest = known.drop_first();
        assert(rest[k - 1] == gwang);
        assert forall|i: int| 0 <= i < rest.len() implies !(#[trigger] rest[i]).contains(' ') by {
            assert(rest[i] == known[i + 1]);
        }
        lemma_split_known_padded(gwang, gicho, rest);
    }
}

/// A 광역 name, a space and more are split into the name and the rest, without the white space around
/// either, unless the whole is the name of an office of education.
pub proof fn lemma_split_padded(before: Seq<char>, gwang: Seq<char>, gicho: Seq<char>)
    requires
        all_white(before),
        gwangyeok_names().contains(gwang),
        trimmed(gicho).len() > 0,
        !is_education_office(trimmed(before + (gwang.push(' ') + gicho))),
    ensures
        jurisdiction_parts(before + (gwang.push(' ') + gicho)) == (gwang, Some(trimmed(gicho))),
{
    lemma_gwangyeok_names();
    lemma_trimmed(gicho);
    let k = choose|k: int| 0 <= k < gwangyeok_names().len() && gwangyeok_names()[k] == gwang;
    let (x, y) = lemma_trimmed_split(gicho);
    let g = trimmed(gicho);
    let inner = gwang.push(' ') + (x + g);
    assert(inner[0] == gwang[0] && inner.last() == g.last());
    assert(before + (gwang.push(' ') + gicho) =~= before + inner + y);
    lemma_trimmed_of(before, inner, y);
    lemma_trimmed_padded(x, g, Seq::empty());
    assert(x + g + Seq::<char>::empty() =~= x + g);
    lemma_nothing_to_trim(g);
    lemma_split_known_padded(gwang, x + g, gwangyeok_names());
}

proof fn lemma_split_known_alone(gwang: Seq<char>, known: Seq<Seq<char>>)
    requires
        known.contains(gwang),
        !gwang.contains(' '),
    ensures
        split_known(gwang, known) == (gwang, None::<Seq<char>>),
    decreases known.len(),
{
    let k = choose|k: int| 0 <= k < known.len() && known[k] == gwang;
    if known[0] != gwang {
        let spaced = known[0].push(' ');
        if begins_with(gwang, spaced) {
            assert(gwang.subrange(0, spaced.len() as int)[spaced.len() - 1] == ' ');
            assert(gwang[spaced.len() - 1] == ' ');
        }
        assert(known.drop_first()[k - 1] == gwang);
        lemma_split_known_alone(gwang, known.drop_first());
    }
}

/// A 광역 name alone has no 기초.
pub proof fn lemma_gwangyeok_alone(before: Seq<char>, gwang: Seq<char>, behind: Seq<char>)
    requires
        all_white(before),
        all_white(behind),
        gwangyeok_names().contains(gwang),
    ensures
        jurisdiction_parts(before + gwang + behind) == (gwang, None::<Seq<char>>),
{
    lemma_gwangyeok_names();
    lemma_gwangyeok_list();
    let k = choose|k: int| 0 <= k < gwangyeok_names().len() && gwangyeok_names()[k] == gwang;
    assert(gwangyeok_names()[k].last() == '시' || gwangyeok_names()[k].last() == '도');
    assert(!gwangyeok_names()[k].contains(' '));
    lemma_trimmed_of(before, gwang, behind);
    reveal_strlit("교육청");
    reveal_strlit("교육지원청");
    lemma_education_offices(gwang, Seq::empty());
    let n = gwang.len() as int;
    if ends_with(gwang, "교육청"@) {
        assert(gwang.subrange(n - 3, n)[2] == gwang[n - 1]);
    }
    if ends_with(gwang, "교육지원청"@) {
        assert(gwang.subrange(n - 5, n)[4] == gwang[n - 1]);
    }
    lemma_split_known_alone(gwang, gwangyeok_names());
}

proof fn lemma_split_unknown(name: Seq<char>, known: Seq<Seq<char>>)
    requires
        forall|i: int|
            0 <= i < known.len() ==> name != #[trigger] known[i] && !begins_with(
                name,
                known[i].push(' '),
            ),
    ensures
        split_known(name, known) == (name, None::<Seq<char>>),
    decreases known.len(),
{
    if known.len() > 0 {
        let rest = known.drop_first();
        assert(name != known[0] && !begins_with(name, known[0].push(' ')));
        assert forall|i: int| 0 <= i < rest.len() implies name != #[trigger] rest[i]
            && !begins_with(name, rest[i].push(' ')) by {
            assert(rest[i] == known[i + 1]);
        }
        lemma_split_unknown(name, rest);
    }
}

/// The name of an office of education, and a name that neither is a 광역 name nor begins with one and
/// a space, are not split.
pub proof fn lemma_not_split(raw_name: Seq<char>)
    requires
        is_education_office(trimmed(raw_name)) || forall|i: int|
            0 <= i < 17 ==> trimmed(raw_name) != #[trigger] gwangyeok_names()[i] && !begins_with(
                trimmed(raw_name),
                gwangyeok_names()[i].push(' '),
            ),
    ensures
        jurisdiction_parts(raw_name) == (trimmed(raw_name), None::<Seq<char>>),
{
    lemma_gwangyeok_names();
    if !is_education_office(trimmed(raw_name)) {
        lemma_split_unknown(trimmed(raw_name), gwangyeok_names());
    }
}

} // verus!
