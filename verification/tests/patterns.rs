use ordinance_compiler::pattern::{
    rewrite, ArticleHeader, BlankLines, LineBreak, Pattern, Spaces, Tag,
};
use ordinance_compiler::plan::parse_id;
use ordinance_compiler::render::markdown::html_to_markdown;
use ordinance_compiler::render::path::sanitize_normalized;
use ordinance_compiler::text;
use regex::Regex;

/// Texts made of the given pieces, in an order that looks random but is always the same.
fn texts(pieces: &[&str]) -> Vec<String> {
    let mut state: u64 = 0x9e37_79b9_7f4a_7c15;
    let mut next = move |below: usize| {
        state ^= state << 13;
        state ^= state >> 7;
        state ^= state << 17;
        (state >> 33) as usize % below
    };
    let mut out = vec![String::new()];
    for _ in 0..4000 {
        let mut text = String::new();
        for _ in 0..next(12) {
            text.push_str(pieces[next(pieces.len())]);
        }
        out.push(text);
    }
    out
}

fn agrees<P: Pattern>(pattern: &P, regex: &str, rep: &str, pieces: &[&str]) {
    let regex = Regex::new(regex).unwrap();
    for text in texts(pieces) {
        let chars: Vec<char> = text.chars().collect();
        let ours: String = rewrite(pattern, &chars, rep).into_iter().collect();
        assert_eq!(ours, regex.replace_all(&text, rep), "{text:?}");
    }
}

#[test]
fn white_space_runs() {
    let pieces = [" ", "\t", "\n", "\u{a0}", "\u{3000}", "\u{200b}", "\u{85}", "\u{1c}", "가", "x"];
    agrees(&Spaces, r"\s+", " ", &pieces);
    for text in texts(&pieces) {
        assert_eq!(text::trim(&text), text.trim());
    }
}

#[test]
fn line_breaks() {
    let pieces = ["<", "<br", "<BR", "b", "r", "bR", " ", "\n", "/", ">", "/>", "<br/>", "가"];
    agrees(&LineBreak, r"(?i)<br\s*/?>", "\n", &pieces);
}

#[test]
fn tags() {
    let pieces = ["<", ">", "<>", "a", "\n", "</b>", "가"];
    agrees(&Tag, r"<[^>]+>", "", &pieces);
}

#[test]
fn blank_lines() {
    agrees(&BlankLines, r"\n{3,}", "\n\n", &["\n", "\n\n", "a", " "]);
}

#[test]
fn article_headers() {
    let regex = Regex::new(r"^제\d+조\s*(?:\([^)]*\))?\s*").unwrap();
    let pieces = ["제", "제1조", "1", "２", "٣", "½", "조", " ", "\u{3000}", "(", ")", "(가)", "\n"];
    for text in texts(&pieces) {
        let chars: Vec<char> = text.chars().collect();
        let end = if chars.is_empty() {
            None
        } else {
            ArticleHeader.match_at(&chars, 0)
        };
        let ours: String = chars[end.unwrap_or(0)..].iter().collect();
        assert_eq!(ours, regex.replace(&text, ""), "{text:?}");
    }
}

#[test]
fn whole_conversions() {
    let tag = Regex::new(r"<[^>]+>").unwrap();
    let line = Regex::new(r"(?i)<br\s*/?>").unwrap();
    let blank = Regex::new(r"\n{3,}").unwrap();
    let pieces = ["<br>", "<", ">", "&amp;", "&lt;", "&gt;", "&nbsp;", "&", "amp;", "\n\n", "가", " "];
    for text in texts(&pieces) {
        let step = line.replace_all(&text, "\n").into_owned();
        let step = tag.replace_all(&step, "").into_owned();
        let step = step
            .replace("&amp;", "&")
            .replace("&lt;", "<")
            .replace("&gt;", ">")
            .replace("&quot;", "\"")
            .replace("&apos;", "'")
            .replace("&#39;", "'")
            .replace("&nbsp;", " ");
        let step = blank.replace_all(&step, "\n\n").into_owned();
        assert_eq!(html_to_markdown(&text), step.trim(), "{text:?}");
    }
    let unsafe_char = Regex::new(r#"[\\/:*?"<>|]"#).unwrap();
    let space = Regex::new(r"\s+").unwrap();
    let pieces = ["\\", "/", ":", "*", "?", "\"", "<", ">", "|", " ", "\n", "가", ".", "_"];
    for text in texts(&pieces) {
        let step = unsafe_char.replace_all(text.trim(), "_").into_owned();
        let step = space.replace_all(&step, " ").into_owned();
        assert_eq!(sanitize_normalized(&text), step.trim(), "{text:?}");
    }
}

#[test]
fn numbers_in_decimal_notation() {
    for id in ["", "+", "-1", "+7", "++7", "007", "18446744073709551615", "18446744073709551616", "７"] {
        assert_eq!(parse_id(id), id.parse::<u64>().ok(), "{id}");
    }
    for n in [0, 7, 10, 4096, u64::MAX] {
        assert_eq!(text::to_decimal(n), n.to_string());
    }
    for n in [i64::MIN, -1, 0, i64::MAX] {
        assert_eq!(text::to_signed_decimal(n), n.to_string());
    }
}

#[test]
fn texts_are_compared_and_replaced() {
    let pieces = ["가", "각", "a", "aa", "&"];
    let all = texts(&pieces);
    for pair in all.windows(2) {
        let (a, b) = (pair[0].as_str(), pair[1].as_str());
        assert_eq!(text::same_text(a, b), a == b);
        assert!(text::same_text(a, a));
        let part = b.get(..1).unwrap_or("");
        if !part.is_empty() {
            assert_eq!(text::contains(a, part), a.contains(part));
            assert_eq!(text::finishes_with(a, part), a.ends_with(part));
        }
        let chars: Vec<char> = a.chars().collect();
        let ours: String = text::replace_all(&chars, "aa", "가a").into_iter().collect();
        assert_eq!(ours, a.replace("aa", "가a"));
    }
    assert_eq!(text::join(&all[..5].to_vec(), ", "), all[..5].join(", "));
    assert_eq!(text::join(&vec![], ", "), "");
}
