//! Where an ordinance stands in the repository.

use unicode_normalization::UnicodeNormalization;
use vstd::prelude::*;

use crate::jurisdictions::{
    classify_type, jurisdiction_parts, lemma_types, ordinance_type, split_jurisdiction,
};
use crate::pattern::{lemma_spaces_replaced, rewrite, rewritten, Spaces};
use crate::repo_path::{PathModel, RepoPathBuf};
use crate::text::{
    all_white, from_chars, is_white_space, lemma_nothing_to_trim, lemma_trim_start_first,
    lemma_trimmed, lemma_trimmed_of, lemma_trimmed_padded, lemma_trimmed_range, lemma_trimmed_split,
    text_view, to_chars, trim, trim_start, trimmed,
};
use crate::xml_parser::model::{MetadataModel, OrdinanceMetadata};

verus! {

/// The composed normalization form of text, as `unicode_normalization` gives it.
pub uninterp spec fn nfc_form(text: Seq<char>) -> Seq<char>;

/// `unicode_normalization::UnicodeNormalization::nfc`: the characters of the composed
/// normalization form.
#[verifier::external_body]
fn nfc(text: &str) -> (r: String)
    ensures
        r@ == nfc_form(text@),
{
    text.nfc().collect()
}

/// A character that file systems do not take in a name.
pub open spec fn is_path_unsafe(c: char) -> bool {
    c == '\\' || c == '/' || c == ':' || c == '*' || c == '?' || c == '"' || c == '<' || c == '>' || c
        == '|'
}

/// The character that stands for another one in a name.
pub open spec fn safe_char(c: char) -> char {
    if is_path_unsafe(c) {
        '_'
    } else {
        c
    }
}

/// Text without outer white space, with an underscore for each unsafe character and one space for
/// each run of white space.
pub open spec fn sanitized(text: Seq<char>) -> Seq<char> {
    trimmed(rewritten(Spaces, trimmed(text).map_values(|c: char| safe_char(c)), " "@))
}

/// The name under which something stands in the repository.
pub open spec fn clean_name(name: Seq<char>) -> Seq<char> {
    sanitized(nfc_form(name))
}

/// Strips path-unsafe characters and collapses white space.
pub fn sanitize_normalized(text: &str) -> (r: String)
    ensures
        r@ == sanitized(text@),
{
    let inner = trim(text);
    let chars = to_chars(inner.as_str());
    let mut safe: Vec<char> = Vec::new();
    let mut i: usize = 0;
    while i < chars.len()
        invariant
            i <= chars@.len(),
            safe@ == chars@.take(i as int).map_values(|c: char| safe_char(c)),
        decreases chars@.len() - i,
    {
        let c = chars[i];
        if c == '\\' || c == '/' || c == ':' || c == '*' || c == '?' || c == '"' || c == '<' || c
            == '>' || c == '|' {
            safe.push('_');
        } else {
            safe.push(c);
        }
        assert(safe@ =~= chars@.take(i + 1).map_values(|c: char| safe_char(c)));
        i += 1;
    }
    assert(chars@.take(i as int) =~= chars@);
    let collapsed = rewrite(&Spaces, &safe, " ");
    trim(from_chars(&collapsed).as_str())
}

/// NFC-normalizes, strips path-unsafe characters, collapses white space.
pub fn sanitize_name(name: &str) -> (r: String)
    ensures
        r@ == clean_name(name@),
{
    sanitize_normalized(nfc(name).as_str())
}

/// `text`, or something else where it is empty.
pub open spec fn or_else(text: Seq<char>, other: Seq<char>) -> Seq<char> {
    if text.len() == 0 {
        other
    } else {
        text
    }
}

/// The repository path of an ordinance whose names are clean.
pub open spec fn assembled(
    ordinance_type: Seq<char>,
    name: Seq<char>,
    gwangyeok: Seq<char>,
    gicho: Option<Seq<char>>,
) -> Option<PathModel> {
    if ordinance_type.len() == 0 || name.len() == 0 {
        None
    } else {
        Some(
            PathModel::Ordinance {
                gwangyeok: or_else(gwangyeok, "_미상"@),
                gicho: match gicho {
                    Some(gicho) => or_else(gicho, "_본청"@),
                    None => "_본청"@,
                },
                ordinance_type,
                name,
            },
        )
    }
}

/// The repository path of an ordinance.
pub open spec fn ordinance_path(metadata: MetadataModel) -> Option<PathModel> {
    let parts = jurisdiction_parts(metadata.jurisdiction);
    assembled(
        ordinance_type(metadata.type_raw),
        clean_name(metadata.name),
        clean_name(parts.0),
        match parts.1 {
            Some(gicho) => Some(clean_name(gicho)),
            None => None,
        },
    )
}

/// The view of an optional path.
pub open spec fn path_view(path: Option<RepoPathBuf>) -> Option<PathModel> {
    match path {
        Some(path) => Some(path@),
        None => None,
    }
}

fn is_empty(text: &str) -> (r: bool)
    ensures
        r == (text@.len() == 0),
{
    to_chars(text).len() == 0
}

/// Puts together the repository path of an ordinance whose names are clean.
pub fn assemble_path(
    ordinance_type: &str,
    name: &str,
    gwangyeok: &str,
    gicho: Option<String>,
) -> (r: Option<RepoPathBuf>)
    ensures
        path_view(r) == assembled(ordinance_type@, name@, gwangyeok@, text_view(gicho)),
{
    if is_empty(ordinance_type) || is_empty(name) {
        return None;
    }
    let gwangyeok = if is_empty(gwangyeok) {
        "_미상"
    } else {
        gwangyeok
    };
    let office = "_본청".to_owned();
    let gicho = match gicho {
        Some(gicho) => if is_empty(gicho.as_str()) {
            office
        } else {
            gicho
        },
        None => office,
    };
    Some(RepoPathBuf::ordinance_file(gwangyeok, gicho.as_str(), ordinance_type, name))
}

/// Computes the repository path for an ordinance.
///
/// Layout: `ordinances/{광역}/{기초|_본청}/{ordinance_type}/{NFC(자치법규명)}/본문.md`.
/// Returns `None` when either `ordinance_type` or the sanitized name is empty.
pub fn compute_path(metadata: &OrdinanceMetadata) -> (r: Option<RepoPathBuf>)
    ensures
        path_view(r) == ordinance_path(metadata@),
{
    let ordinance_type = classify_type(metadata.type_raw.as_str());
    let name = sanitize_name(metadata.name.as_str());
    let (gwang_raw, gicho_raw) = split_jurisdiction(metadata.jurisdiction.as_str());
    let gwangyeok = sanitize_name(gwang_raw.as_str());
    let gicho = match gicho_raw {
        Some(gicho) => Some(sanitize_name(gicho.as_str())),
        None => None,
    };
    assemble_path(ordinance_type, name.as_str(), gwangyeok.as_str(), gicho)
}

/// White space of text, if any, is single spaces between other characters.
pub open spec fn single_spaced(s: Seq<char>) -> bool {
    &&& forall|i: int| 0 <= i < s.len() && is_white_space(#[trigger] s[i]) ==> s[i] == ' '
    &&& forall|i: int, j: int|
        0 <= i < s.len() && j == i + 1 && j < s.len() ==> !(is_white_space(#[trigger] s[i])
            && is_white_space(#[trigger] s[j]))
    &&& s.len() > 0 ==> !is_white_space(s[0]) && !is_white_space(s.last())
}

proof fn lemma_spaces_collapsed(s: Seq<char>)
    ensures
        ({
            let r = rewritten(Spaces, s, " "@);
            &&& r.len() > 0 ==> s.len() > 0 && (is_white_space(r[0]) == is_white_space(s[0]))
            &&& forall|i: int|
                0 <= i < r.len() ==> (#[trigger] r[i]) == ' ' || (!is_white_space(r[i])
                    && s.contains(r[i]))
            &&& forall|i: int, j: int|
                0 <= i < r.len() && j == i + 1 && j < r.len() ==> !(is_white_space(
                    #[trigger] r[i],
                ) && is_white_space(#[trigger] r[j]))
        }),
    decreases s.len(),
{
    reveal_strlit(" ");
    let r = rewritten(Spaces, s, " "@);
    if s.len() > 0 {
        if is_white_space(s[0]) {
            let rest = trim_start(s);
            lemma_trim_start_first(s);
            lemma_trim_start_first(s.drop_first());
            lemma_spaces_collapsed(rest);
            let tail = rewritten(Spaces, rest, " "@);
            assert(r =~= " "@ + tail);
            assert forall|i: int| 0 <= i < r.len() implies (#[trigger] r[i]) == ' ' || (
            !is_white_space(r[i]) && s.contains(r[i])) by {
                if i > 0 {
                    assert(r[i] == tail[i - 1]);
                }
            }
            assert forall|i: int, j: int|
                0 <= i < r.len() && j == i + 1 && j < r.len() implies !(is_white_space(
                #[trigger] r[i],
            ) && is_white_space(#[trigger] r[j])) by {
                assert(r[j] == tail[j - 1]);
                if i > 0 {
                    assert(r[i] == tail[i - 1]);
                }
            }
        } else {
            let rest = s.drop_first();
            lemma_spaces_collapsed(rest);
            let tail = rewritten(Spaces, rest, " "@);
            assert(r =~= seq![s[0]] + tail);
            assert forall|i: int| 0 <= i < r.len() implies (#[trigger] r[i]) == ' ' || (
            !is_white_space(r[i]) && s.contains(r[i])) by {
                if i > 0 {
                    assert(r[i] == tail[i - 1]);
                    if rest.contains(r[i]) {
                        let k = choose|k: int| 0 <= k < rest.len() && rest[k] == r[i];
                        assert(s[k + 1] == r[i]);
                    }
                } else {
                    assert(s.contains(s[0]));
                }
            }
            assert forall|i: int, j: int|
                0 <= i < r.len() && j == i + 1 && j < r.len() implies !(is_white_space(
                #[trigger] r[i],
            ) && is_white_space(#[trigger] r[j])) by {
                assert(r[j] == tail[j - 1]);
                if i > 0 {
                    assert(r[i] == tail[i - 1]);
                }
            }
        }
    }
}

proof fn lemma_single_spaced_stays(s: Seq<char>)
    requires
        forall|i: int| 0 <= i < s.len() && is_white_space(#[trigger] s[i]) ==> s[i] == ' ',
        forall|i: int, j: int|
            0 <= i < s.len() && j == i + 1 && j < s.len() ==> !(is_white_space(#[trigger] s[i])
                && is_white_space(#[trigger] s[j])),
    ensures
        rewritten(Spaces, s, " "@) == s,
    decreases s.len(),
{
    reveal_strlit(" ");
    if s.len() > 0 {
        let rest = s.drop_first();
        assert forall|i: int, j: int|
            0 <= i < rest.len() && j == i + 1 && j < rest.len() implies !(is_white_space(
            #[trigger] rest[i],
        ) && is_white_space(#[trigger] rest[j])) by {
            assert(rest[i] == s[i + 1] && rest[j] == s[j + 1]);
        }
        lemma_single_spaced_stays(rest);
        if is_white_space(s[0]) {
            assert(s[0] == ' ');
            if rest.len() > 0 {
                assert(!is_white_space(s[1]));
            }
            assert(trim_start(s) == rest) by {
                reveal_with_fuel(trim_start, 2);
            }
        }
        assert(rewritten(Spaces, s, " "@) =~= s);
    }
}

/// A sanitized name holds no path-unsafe character, and no white space but single spaces between
/// other characters. To sanitize it once more changes nothing.
pub proof fn lemma_sanitized(text: Seq<char>)
    ensures
        forall|i: int|
            0 <= i < sanitized(text).len() ==> !is_path_unsafe(#[trigger] sanitized(text)[i]),
        single_spaced(sanitized(text)),
        sanitized(sanitized(text)) == sanitized(text),
{
    let safe = trimmed(text).map_values(|c: char| safe_char(c));
    let collapsed = rewritten(Spaces, safe, " "@);
    let r = sanitized(text);
    lemma_spaces_collapsed(safe);
    lemma_trimmed(collapsed);
    lemma_trimmed_range(collapsed);
    let lo = choose|lo: int|
        0 <= lo <= collapsed.len() - r.len() && #[trigger] collapsed.subrange(lo, lo + r.len())
            == r;
    assert forall|i: int| 0 <= i < r.len() implies (#[trigger] r[i]) == collapsed[lo + i] by {
        assert(collapsed.subrange(lo, lo + r.len())[i] == collapsed[lo + i]);
    }
    assert forall|i: int| 0 <= i < r.len() implies !is_path_unsafe(#[trigger] r[i]) by {
        let c = collapsed[lo + i];
        if c != ' ' {
            assert(safe.contains(c));
            let k = choose|k: int| 0 <= k < safe.len() && safe[k] == c;
            assert(c == safe_char(trimmed(text)[k]));
        }
    }
    assert forall|i: int, j: int|
        0 <= i < r.len() && j == i + 1 && j < r.len() implies !(is_white_space(#[trigger] r[i])
        && is_white_space(#[trigger] r[j])) by {
        assert(r[i] == collapsed[lo + i] && r[j] == collapsed[lo + j]);
    }
    assert forall|i: int| 0 <= i < r.len() && is_white_space(#[trigger] r[i]) implies r[i]
        == ' ' by {
        assert(r[i] == collapsed[lo + i]);
    }
    assert(trimmed(r) == r);
    assert(r.map_values(|c: char| safe_char(c)) =~= r);
    lemma_single_spaced_stays(r);
}

/// The path of an ordinance has six parts, each of them not empty and without a slash. It begins
/// with `ordinances`, ends with `본문.md`, and has one of the four types as its fourth part.
pub proof fn lemma_path_parts(metadata: MetadataModel)
    requires
        ordinance_path(metadata) is Some,
    ensures
        ordinance_path(metadata)->0.segments().len() == 6,
        ordinance_path(metadata)->0.segments()[0] == "ordinances"@,
        ordinance_path(metadata)->0.segments()[3] == ordinance_type(metadata.type_raw),
        ordinance_type(metadata.type_raw) == "조례"@ || ordinance_type(metadata.type_raw)
            == "규칙"@ || ordinance_type(metadata.type_raw) == "훈령"@ || ordinance_type(
            metadata.type_raw,
        ) == "예규"@,
        ordinance_path(metadata)->0.segments()[5] == "본문.md"@,
        forall|i: int|
            0 <= i < 6 ==> (#[trigger] ordinance_path(metadata)->0.segments()[i]).len() > 0
                && !ordinance_path(metadata)->0.segments()[i].contains('/'),
{
    reveal_strlit("ordinances");
    reveal_strlit("본문.md");
    reveal_strlit("_미상");
    reveal_strlit("_본청");
    reveal_strlit("조례");
    reveal_strlit("규칙");
    reveal_strlit("훈령");
    reveal_strlit("예규");
    let parts = jurisdiction_parts(metadata.jurisdiction);
    lemma_types(metadata.type_raw);
    lemma_clean_name(metadata.name);
    lemma_clean_name(parts.0);
    if let Some(gicho) = parts.1 {
        lemma_clean_name(gicho);
    }
    let segments = ordinance_path(metadata)->0.segments();
    assert(segments[0] == "ordinances"@);
    assert(segments[5] == "본문.md"@);
}

proof fn lemma_clean_name(name: Seq<char>)
    ensures
        !clean_name(name).contains('/'),
{
    lemma_sanitized(nfc_form(name));
    if clean_name(name).contains('/') {
        let k = choose|k: int| 0 <= k < clean_name(name).len() && clean_name(name)[k] == '/';
        assert(is_path_unsafe(clean_name(name)[k]));
    }
}

/// The nine characters that are not taken, one by one. Each shows as an underscore, and every other
/// character as itself.
pub proof fn lemma_unsafe_chars(c: char)
    ensures
        ({
            let taken = c != '\\' && c != '/' && c != ':' && c != '*' && c != '?' && c != '"' && c
                != '<' && c != '>' && c != '|';
            &&& is_path_unsafe(c) == !taken
            &&& taken ==> safe_char(c) == c
            &&& !taken ==> safe_char(c) == '_'
        }),
{
}

/// A name that is clean already stays as it is.
pub proof fn lemma_clean_stays(text: Seq<char>)
    requires
        single_spaced(text),
        forall|i: int| 0 <= i < text.len() ==> !is_path_unsafe(#[trigger] text[i]),
    ensures
        sanitized(text) == text,
        nfc_form(text) == text ==> clean_name(text) == text,
{
    lemma_nothing_to_trim(text);
    assert(text.map_values(|c: char| safe_char(c)) =~= text);
    lemma_single_spaced_stays(text);
}

proof fn lemma_trimmed_safe(s: Seq<char>)
    ensures
        trimmed(s).map_values(|c: char| safe_char(c)) == trimmed(
            s.map_values(|c: char| safe_char(c)),
        ),
{
    let f = |c: char| safe_char(c);
    let (a, b) = lemma_trimmed_split(s);
    let t = trimmed(s);
    lemma_trimmed(s);
    assert(s.map_values(f) =~= a.map_values(f) + t.map_values(f) + b.map_values(f));
    lemma_trimmed_of(a.map_values(f), t.map_values(f), b.map_values(f));
}

/// Characters that are not taken count as underscores, and outer white space does not count.
pub proof fn lemma_unsafe_is_underscore(a: Seq<char>, c: char, b: Seq<char>, w: Seq<char>)
    requires
        is_path_unsafe(c),
        all_white(w),
    ensures
        sanitized(a + seq![c] + b) == sanitized(a + seq!['_'] + b),
        sanitized(w + a + w) == sanitized(a),
{
    let f = |x: char| safe_char(x);
    let one = a + seq![c] + b;
    let two = a + seq!['_'] + b;
    lemma_trimmed_safe(one);
    lemma_trimmed_safe(two);
    assert(one.map_values(f) =~= two.map_values(f));
    lemma_trimmed_padded(w, a, w);
}

proof fn lemma_spaced_prefix(p: Seq<char>, t: Seq<char>)
    requires
        p.len() > 0 ==> !is_white_space(p.last()),
        forall|i: int| 0 <= i < p.len() && is_white_space(#[trigger] p[i]) ==> p[i] == ' ',
        forall|i: int, j: int|
            0 <= i < p.len() && j == i + 1 && j < p.len() ==> !(is_white_space(#[trigger] p[i])
                && is_white_space(#[trigger] p[j])),
    ensures
        rewritten(Spaces, p + t, " "@) == p + rewritten(Spaces, t, " "@),
    decreases p.len(),
{
    reveal_strlit(" ");
    if p.len() == 0 {
        assert(p + t =~= t);
        assert(p + rewritten(Spaces, t, " "@) =~= rewritten(Spaces, t, " "@));
    } else {
        let rest = p.drop_first();
        let all = p + t;
        assert(all.drop_first() =~= rest + t);
        assert forall|i: int, j: int|
            0 <= i < rest.len() && j == i + 1 && j < rest.len() implies !(is_white_space(
            #[trigger] rest[i],
        ) && is_white_space(#[trigger] rest[j])) by {
            assert(rest[i] == p[i + 1] && rest[j] == p[j + 1]);
        }
        lemma_spaced_prefix(rest, t);
        if is_white_space(p[0]) {
            assert(p[0] == ' ');
            assert(p.len() > 1);
            assert(!is_white_space(p[1]));
            assert((rest + t)[0] == p[1]);
            assert(trim_start(all) == rest + t) by {
                reveal_with_fuel(trim_start, 2);
            }
        }
        assert(rewritten(Spaces, all, " "@) =~= seq![p[0]] + (rest + rewritten(Spaces, t, " "@)));
        assert(seq![p[0]] + (rest + rewritten(Spaces, t, " "@)) =~= p + rewritten(Spaces, t, " "@));
    }
}

/// White space behind a clean name, as much of it as there is, shows as one space, and what comes
/// behind it as it does alone.
pub proof fn lemma_white_space_is_one_space(p: Seq<char>, w: Seq<char>, q: Seq<char>)
    requires
        p.len() > 0,
        single_spaced(p),
        forall|i: int| 0 <= i < p.len() ==> !is_path_unsafe(#[trigger] p[i]),
        w.len() > 0,
        all_white(w),
        q.len() > 0,
        !is_white_space(q[0]),
    ensures
        sanitized(p + w + q) == p + " "@ + sanitized(q),
{
    reveal_strlit(" ");
    let f = |c: char| safe_char(c);
    let none = Seq::<char>::empty();
    let (x, y) = lemma_trimmed_split(q);
    let t = trimmed(q);
    lemma_trimmed(q);
    if x.len() > 0 {
        assert(is_white_space(x[0]));
        assert(q[0] == x[0]);
    }
    if t.len() == 0 {
        assert(q[0] == y[0]);
    }
    assert(t[0] == q[0]);
    let text = p + w + t;
    assert(p + w + q =~= none + text + y);
    assert(text[0] == p[0] && text.last() == t.last());
    lemma_trimmed_of(none, text, y);
    let safe = t.map_values(f);
    assert forall|i: int| 0 <= i < p.len() + w.len() implies safe_char(#[trigger] text[i])
        == text[i] by {
        if i < p.len() {
            assert(!is_path_unsafe(p[i]));
        } else {
            assert(is_white_space(w[i - p.len()]));
        }
    }
    assert(text.map_values(f) =~= p + (w + safe));
    lemma_spaced_prefix(p, w + safe);
    lemma_spaces_replaced(none, w, safe, " "@);
    assert(none + (w + safe) =~= w + safe);
    let shown = rewritten(Spaces, safe, " "@);
    assert(none + (" "@ + shown) =~= " "@ + shown);
    lemma_spaces_collapsed(safe);
    lemma_first_stays(safe);
    let (before, behind) = lemma_trimmed_split(shown);
    lemma_trimmed(shown);
    let name = trimmed(shown);
    if before.len() > 0 {
        assert(is_white_space(before[0]));
        assert(shown[0] == before[0]);
    }
    if name.len() == 0 {
        assert(shown[0] == behind[0]);
    }
    let whole = p + " "@ + name;
    assert(p + (" "@ + shown) =~= none + whole + behind);
    assert(whole[0] == p[0] && whole.last() == name.last());
    lemma_trimmed_of(none, whole, behind);
}

proof fn lemma_first_stays(s: Seq<char>)
    requires
        s.len() > 0,
        !is_white_space(s[0]),
    ensures
        rewritten(Spaces, s, " "@).len() > 0,
        rewritten(Spaces, s, " "@)[0] == s[0],
{
}

/// An ordinance has a path exactly where it has a type and a name. The path leads over the 광역, or
/// `_미상` where that is not known, and the 기초, or `_본청` where there is none, to the type and to
/// the name.
pub proof fn lemma_path_of_ordinance(metadata: MetadataModel)
    ensures
        ({
            let kind = ordinance_type(metadata.type_raw);
            let name = clean_name(metadata.name);
            let parts = jurisdiction_parts(metadata.jurisdiction);
            let path = ordinance_path(metadata);
            &&& path is Some <==> kind.len() > 0 && name.len() > 0
            &&& path matches Some(found) ==> {
                let segments = found.segments();
                &&& segments.len() == 6
                &&& segments[0] == "ordinances"@
                &&& clean_name(parts.0).len() > 0 ==> segments[1] == clean_name(parts.0)
                &&& clean_name(parts.0).len() == 0 ==> segments[1] == "_미상"@
                &&& parts.1 is None ==> segments[2] == "_본청"@
                &&& parts.1 matches Some(gicho) ==> (if clean_name(gicho).len() > 0 {
                    segments[2] == clean_name(gicho)
                } else {
                    segments[2] == "_본청"@
                })
                &&& segments[3] == kind
                &&& segments[4] == name
                &&& segments[5] == "본문.md"@
            }
        }),
{
}

} // verus!
