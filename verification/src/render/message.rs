//! The commit message of an ordinance.

use vstd::prelude::*;
use vstd::string::StringExecFns;

use crate::jurisdictions::{classify_type, ordinance_type};
use crate::render::fields::{display_date, format_date};
use crate::text::{
    begins_with, join, joined, lemma_joined_in_two, lemma_text_found, texts, to_chars,
};
use crate::xml_parser::model::{MetadataModel, OrdinanceMetadata};

verus! {

/// A line with a label, or none where its value is empty.
pub open spec fn optional_line(label: Seq<char>, value: Seq<char>) -> Seq<Seq<char>> {
    if value.len() == 0 {
        Seq::empty()
    } else {
        seq![label + value]
    }
}

/// The title of a commit: the type of the ordinance and its name, or its id where it has no name.
pub open spec fn commit_title(metadata: MetadataModel) -> Seq<char> {
    let kind = ordinance_type(metadata.type_raw);
    (if kind.len() == 0 {
        "자치법규"@
    } else {
        kind
    }) + ": "@ + (if metadata.name.len() > 0 {
        metadata.name
    } else {
        metadata.ordinance_id
    })
}

/// The lines of a commit message.
pub open spec fn message_lines(metadata: MetadataModel) -> Seq<Seq<char>> {
    seq![
        commit_title(metadata),
        Seq::empty(),
        "공포일자: "@ + display_date(metadata.promulgation_date),
    ] + optional_line("공포번호: "@, metadata.promulgation_no) + optional_line(
        "지자체: "@,
        metadata.jurisdiction,
    ) + optional_line("제개정: "@, metadata.revision_kind) + seq![
        "자치법규ID: "@ + metadata.ordinance_id,
    ]
}

/// The commit message of an ordinance.
pub open spec fn commit_message(metadata: MetadataModel) -> Seq<char> {
    joined(message_lines(metadata), "\n"@)
}

fn labeled(label: &str, value: &str) -> (r: String)
    ensures
        r@ == label@ + value@,
{
    let mut out = label.to_owned();
    out.append(value);
    out
}

fn push_optional(lines: &mut Vec<String>, label: &str, value: &str)
    ensures
        texts(final(lines)@) == texts(old(lines)@) + optional_line(label@, value@),
{
    if to_chars(value).len() > 0 {
        lines.push(labeled(label, value));
    }
    assert(texts(lines@) =~= texts(old(lines)@) + optional_line(label@, value@));
}

/// Builds the Git commit message for one ordinance revision.
pub fn build_commit_message(metadata: &OrdinanceMetadata) -> (r: String)
    ensures
        r@ == commit_message(metadata@),
{
    let kind = classify_type(metadata.type_raw.as_str());
    let mut title = if to_chars(kind).len() == 0 {
        "자치법규".to_owned()
    } else {
        kind.to_owned()
    };
    title.append(": ");
    if to_chars(metadata.name.as_str()).len() > 0 {
        title.append(metadata.name.as_str());
    } else {
        title.append(metadata.ordinance_id.as_str());
    }
    let date_line = format_date(metadata.promulgation_date.as_str());
    let mut lines: Vec<String> = Vec::new();
    lines.push(title);
    lines.push(String::new());
    lines.push(labeled("공포일자: ", date_line.as_str()));
    assert(texts(lines@) =~= seq![
        commit_title(metadata@),
        Seq::empty(),
        "공포일자: "@ + display_date(metadata@.promulgation_date),
    ]);
    push_optional(&mut lines, "공포번호: ", metadata.promulgation_no.as_str());
    push_optional(&mut lines, "지자체: ", metadata.jurisdiction.as_str());
    push_optional(&mut lines, "제개정: ", metadata.revision_kind.as_str());
    lines.push(labeled("자치법규ID: ", metadata.ordinance_id.as_str()));
    assert(texts(lines@) =~= message_lines(metadata@));
    join(&lines, "\n")
}

/// A commit message begins with the type of the ordinance, or with 자치법규 where it has none, and
/// the name of the ordinance, or its id where it has no name.
pub proof fn lemma_message_title(metadata: MetadataModel)
    ensures
        ({
            let kind = ordinance_type(metadata.type_raw);
            let message = commit_message(metadata);
            let id = metadata.ordinance_id;
            &&& kind.len() > 0 && metadata.name.len() > 0 ==> begins_with(
                message,
                kind + ": "@ + metadata.name + "\n"@,
            )
            &&& kind.len() > 0 && metadata.name.len() == 0 ==> begins_with(
                message,
                kind + ": "@ + id + "\n"@,
            )
            &&& kind.len() == 0 && metadata.name.len() > 0 ==> begins_with(
                message,
                "자치법규"@ + ": "@ + metadata.name + "\n"@,
            )
            &&& kind.len() == 0 && metadata.name.len() == 0 ==> begins_with(
                message,
                "자치법규"@ + ": "@ + id + "\n"@,
            )
            &&& commit_title(metadata).len() == (if kind.len() > 0 {
                kind.len()
            } else {
                4
            }) + 2 + (if metadata.name.len() > 0 {
                metadata.name.len()
            } else {
                id.len()
            })
        }),
{
    reveal_strlit(": ");
    reveal_strlit("자치법규");
    let lines = message_lines(metadata);
    let first = seq![lines[0]];
    let more = lines.skip(1);
    assert(lines =~= first + more);
    lemma_joined_in_two(first, more, "\n"@);
    let rest = joined(more, "\n"@);
    lemma_text_found(Seq::empty(), lines[0] + "\n"@, rest);
    assert(commit_message(metadata) == lines[0] + "\n"@ + rest);
}

/// A line of a commit message, behind a newline; nothing where its value is empty.
pub open spec fn line_behind(label: Seq<char>, value: Seq<char>) -> Seq<char> {
    if value.len() == 0 {
        Seq::empty()
    } else {
        "\n"@ + label + value
    }
}

proof fn lemma_optional_line(lines: Seq<Seq<char>>, label: Seq<char>, value: Seq<char>)
    requires
        lines.len() > 0,
    ensures
        joined(lines + optional_line(label, value), "\n"@) == joined(lines, "\n"@) + line_behind(
            label,
            value,
        ),
{
    let more = optional_line(label, value);
    if value.len() == 0 {
        assert(lines + more =~= lines);
        assert(joined(lines, "\n"@) + line_behind(label, value) =~= joined(lines, "\n"@));
    } else {
        lemma_joined_in_two(lines, more, "\n"@);
        lemma_joined_in_two(more, lines, "\n"@);
        assert(joined(lines, "\n"@) + "\n"@ + (label + value) =~= joined(lines, "\n"@)
            + line_behind(label, value));
    }
}

proof fn lemma_message_head(title: Seq<char>, date: Seq<char>)
    ensures
        joined(seq![title, Seq::empty(), "공포일자: "@ + date], "\n"@) == title + "\n\n"@
            + "공포일자: "@ + date,
{
    reveal_strlit("\n");
    reveal_strlit("\n\n");
    let empty = Seq::<char>::empty();
    let one = seq![title];
    let two = seq![empty];
    let three = seq!["공포일자: "@ + date];
    lemma_joined_in_two(one, two, "\n"@);
    lemma_joined_in_two(two, one, "\n"@);
    lemma_joined_in_two(three, one, "\n"@);
    lemma_joined_in_two(one + two, three, "\n"@);
    assert(one + two + three =~= seq![title, empty, "공포일자: "@ + date]);
    assert(title + "\n"@ + empty + "\n"@ + ("공포일자: "@ + date) =~= title + "\n\n"@ + "공포일자: "@
        + date);
}

proof fn lemma_message_end(lines: Seq<Seq<char>>, id: Seq<char>)
    requires
        lines.len() > 0,
    ensures
        joined(lines + seq!["자치법규ID: "@ + id], "\n"@) == joined(lines, "\n"@) + "\n자치법규ID: "@
            + id,
{
    reveal_strlit("\n");
    reveal_strlit("\n자치법규ID: ");
    reveal_strlit("자치법규ID: ");
    let last = seq!["자치법규ID: "@ + id];
    lemma_joined_in_two(lines, last, "\n"@);
    lemma_joined_in_two(last, lines, "\n"@);
    assert(joined(lines, "\n"@) + "\n"@ + ("자치법규ID: "@ + id) =~= joined(lines, "\n"@)
        + "\n자치법규ID: "@ + id);
}

/// Behind its title and an empty line a commit message says the date, then the number, the
/// jurisdiction and the kind of revision, each where there is one, and the id.
pub proof fn lemma_message_lines(metadata: MetadataModel)
    ensures
        commit_message(metadata) == commit_title(metadata) + "\n\n"@ + "공포일자: "@ + display_date(
            metadata.promulgation_date,
        ) + line_behind("공포번호: "@, metadata.promulgation_no) + line_behind(
            "지자체: "@,
            metadata.jurisdiction,
        ) + line_behind("제개정: "@, metadata.revision_kind) + "\n자치법규ID: "@
            + metadata.ordinance_id,
{
    let head = seq![
        commit_title(metadata),
        Seq::empty(),
        "공포일자: "@ + display_date(metadata.promulgation_date),
    ];
    lemma_message_head(commit_title(metadata), display_date(metadata.promulgation_date));
    let a = head + optional_line("공포번호: "@, metadata.promulgation_no);
    let b = a + optional_line("지자체: "@, metadata.jurisdiction);
    let c = b + optional_line("제개정: "@, metadata.revision_kind);
    lemma_optional_line(head, "공포번호: "@, metadata.promulgation_no);
    lemma_optional_line(a, "지자체: "@, metadata.jurisdiction);
    lemma_optional_line(b, "제개정: "@, metadata.revision_kind);
    lemma_message_end(c, metadata.ordinance_id);
}

} // verus!
