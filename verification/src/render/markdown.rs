//! The Markdown text of an ordinance body.

use vstd::prelude::*;
use vstd::string::StringExecFns;

use crate::pattern::{
    lemma_header_taken, lemma_line_break_replaced, lemma_no_header, lemma_no_tags,
    lemma_rewritten_behind, lemma_tag_replaced, newline_run, past, rewrite, rewritten,
    ArticleHeader, BlankLines, LineBreak, Pattern, Tag,
};
use crate::render::fields::{article_number, format_article_number};
use crate::text::{
    all_digits, all_white, begins_with, contains_text, from_chars, from_range, is_white_space,
    join, joined, lemma_joined_in_two, lemma_nothing_to_trim, lemma_replaced_behind,
    lemma_replaced_first, lemma_replaced_nowhere, lemma_trim_start_first, lemma_trimmed,
    lemma_trimmed_of, lemma_trimmed_padded, lemma_trimmed_range, lemma_trimmed_split,
    replace_all, replaced, texts, to_chars, trim, trim_start, trimmed,
};
use crate::xml_parser::model::{
    article_models, Article, ArticleModel, BodyModel, OrdinanceBody,
};

verus! {

/// Text with the common character references resolved.
pub open spec fn entities_decoded(s: Seq<char>) -> Seq<char> {
    let s = replaced(s, "&amp;"@, "&"@);
    let s = replaced(s, "&lt;"@, "<"@);
    let s = replaced(s, "&gt;"@, ">"@);
    let s = replaced(s, "&quot;"@, "\""@);
    let s = replaced(s, "&apos;"@, "'"@);
    let s = replaced(s, "&#39;"@, "'"@);
    replaced(s, "&nbsp;"@, " "@)
}

/// The Markdown text of an HTML fragment.
pub open spec fn markdown_text(html: Seq<char>) -> Seq<char> {
    let lines = rewritten(LineBreak, html, "\n"@);
    let stripped = rewritten(Tag, lines, ""@);
    trimmed(rewritten(BlankLines, entities_decoded(stripped), "\n\n"@))
}

fn decode_entities(s: &Vec<char>) -> (r: Vec<char>)
    ensures
        r@ == entities_decoded(s@),
{
    proof {
        reveal_strlit("&amp;");
        reveal_strlit("&lt;");
        reveal_strlit("&gt;");
        reveal_strlit("&quot;");
        reveal_strlit("&apos;");
        reveal_strlit("&#39;");
        reveal_strlit("&nbsp;");
    }
    let s = replace_all(s, "&amp;", "&");
    let s = replace_all(&s, "&lt;", "<");
    let s = replace_all(&s, "&gt;", ">");
    let s = replace_all(&s, "&quot;", "\"");
    let s = replace_all(&s, "&apos;", "'");
    let s = replace_all(&s, "&#39;", "'");
    replace_all(&s, "&nbsp;", " ")
}

/// Strips HTML tags and collapses whitespace to plain Markdown.
pub fn html_to_markdown(input: &str) -> (r: String)
    ensures
        r@ == markdown_text(input@),
{
    let lines = rewrite(&LineBreak, &to_chars(input), "\n");
    let stripped = rewrite(&Tag, &lines, "");
    let decoded = decode_entities(&stripped);
    let collapsed = rewrite(&BlankLines, &decoded, "\n\n");
    trim(from_chars(&collapsed).as_str())
}

/// Text without the `제N조(제목) ` prefix, if it has one, and without outer white space.
pub open spec fn header_stripped(text: Seq<char>) -> Seq<char> {
    match ArticleHeader.rest_after(text) {
        Some(rest) => trimmed(rest),
        None => trimmed(text),
    }
}

fn strip_header(text: &str) -> (r: String)
    ensures
        r@ == header_stripped(text@),
{
    let chars = to_chars(text);
    if chars.len() > 0 {
        assert(chars@.skip(0) =~= chars@);
        if let Some(end) = ArticleHeader.match_at(&chars, 0) {
            let rest = from_range(&chars, end, chars.len());
            assert(rest@ =~= chars@.skip(end as int));
            return trim(rest.as_str());
        }
    }
    trim(text)
}

/// The heading of an article.
pub open spec fn article_heading(number: Seq<char>, title: Seq<char>) -> Seq<char> {
    if title.len() == 0 {
        "##### 제"@ + number + "조"@
    } else {
        "##### 제"@ + number + "조 ("@ + title + ")"@
    }
}

/// The blocks of an article: its heading if it has a number, and its text if it has any.
pub open spec fn article_blocks(article: ArticleModel) -> Seq<Seq<char>> {
    let number = article_number(article.number_raw);
    let text = header_stripped(markdown_text(article.content));
    (if number.len() > 0 {
        seq![article_heading(number, article.title)]
    } else {
        Seq::empty()
    }) + (if article.content.len() > 0 && text.len() > 0 {
        seq![text]
    } else {
        Seq::empty()
    })
}

/// The blocks of an appendix text.
pub open spec fn appendix_blocks(text: Seq<char>) -> Seq<Seq<char>> {
    if trimmed(text).len() == 0 {
        Seq::empty()
    } else {
        seq!["## 부칙"@, markdown_text(text)]
    }
}

/// The blocks of articles, one article after the other.
pub open spec fn articles_blocks(articles: Seq<ArticleModel>) -> Seq<Seq<char>>
    decreases articles.len(),
{
    if articles.len() == 0 {
        Seq::empty()
    } else {
        articles_blocks(articles.drop_last()) + article_blocks(articles.last())
    }
}

/// The blocks of appendix texts, one text after the other.
pub open spec fn appendices_blocks(appendix: Seq<Seq<char>>) -> Seq<Seq<char>>
    decreases appendix.len(),
{
    if appendix.len() == 0 {
        Seq::empty()
    } else {
        appendices_blocks(appendix.drop_last()) + appendix_blocks(appendix.last())
    }
}

/// The Markdown text of an ordinance body: its blocks with an empty line between them.
pub open spec fn body_text(body: BodyModel) -> Seq<char> {
    trimmed(joined(articles_blocks(body.articles) + appendices_blocks(body.appendix), "\n\n"@))
}

fn render_heading(number: &str, title: &str) -> (r: String)
    ensures
        r@ == article_heading(number@, title@),
{
    let mut header = "##### 제".to_owned();
    header.append(number);
    if to_chars(title).len() == 0 {
        header.append("조");
    } else {
        header.append("조 (");
        header.append(title);
        header.append(")");
    }
    header
}

fn push_article(parts: &mut Vec<String>, article: &Article)
    ensures
        texts(final(parts)@) == texts(old(parts)@) + article_blocks(article@),
{
    let number = format_article_number(article.number_raw.as_str());
    if to_chars(number.as_str()).len() > 0 {
        parts.push(render_heading(number.as_str(), article.title.as_str()));
    }
    if to_chars(article.content.as_str()).len() > 0 {
        let rendered = html_to_markdown(article.content.as_str());
        let stripped = strip_header(rendered.as_str());
        if to_chars(stripped.as_str()).len() > 0 {
            parts.push(stripped);
        }
    }
    assert(texts(parts@) =~= texts(old(parts)@) + article_blocks(article@));
}

fn push_appendix(parts: &mut Vec<String>, text: &str)
    ensures
        texts(final(parts)@) == texts(old(parts)@) + appendix_blocks(text@),
{
    if to_chars(trim(text).as_str()).len() > 0 {
        parts.push("## 부칙".to_owned());
        parts.push(html_to_markdown(text));
    }
    assert(texts(parts@) =~= texts(old(parts)@) + appendix_blocks(text@));
}

/// Renders the ordinance body (articles + appendix) as plain Markdown.
pub fn render_body(body: &OrdinanceBody) -> (r: String)
    ensures
        r@ == body_text(body@),
{
    let ghost articles = body@.articles;
    let ghost appendix = body@.appendix;
    let mut parts: Vec<String> = Vec::new();
    let mut i: usize = 0;
    assert(texts(parts@) =~= articles_blocks(articles.take(0)));
    while i < body.articles.len()
        invariant
            i <= body.articles@.len(),
            articles == article_models(body.articles@),
            texts(parts@) == articles_blocks(articles.take(i as int)),
        decreases body.articles@.len() - i,
    {
        push_article(&mut parts, &body.articles[i]);
        assert(articles.take(i + 1).drop_last() =~= articles.take(i as int));
        i += 1;
    }
    assert(articles.take(i as int) =~= articles);
    let mut k: usize = 0;
    assert(texts(parts@) =~= articles_blocks(articles) + appendices_blocks(appendix.take(0)));
    while k < body.appendix.len()
        invariant
            k <= body.appendix@.len(),
            appendix == texts(body.appendix@),
            texts(parts@) == articles_blocks(articles) + appendices_blocks(
                appendix.take(k as int),
            ),
        decreases body.appendix@.len() - k,
    {
        let ghost before = texts(parts@);
        push_appendix(&mut parts, body.appendix[k].as_str());
        assert(appendix.take(k + 1).drop_last() =~= appendix.take(k as int));
        assert(texts(parts@) =~= articles_blocks(articles) + appendices_blocks(
            appendix.take(k + 1),
        ));
        k += 1;
    }
    assert(appendix.take(k as int) =~= appendix);
    trim(join(&parts, "\n\n").as_str())
}

proof fn lemma_newline_run(s: Seq<char>)
    ensures
        newline_run(s) <= s.len(),
        newline_run(s) < s.len() ==> s[newline_run(s) as int] != '\n',
    decreases s.len(),
{
    if s.len() > 0 && s[0] == '\n' {
        lemma_newline_run(s.drop_first());
    }
}

proof fn lemma_newline_run_of_part(s: Seq<char>, n: int)
    requires
        0 <= n <= s.len(),
    ensures
        newline_run(s.take(n)) <= newline_run(s),
    decreases n,
{
    if n > 0 && s[0] == '\n' {
        lemma_newline_run_of_part(s.drop_first(), n - 1);
        assert(s.take(n).drop_first() =~= s.drop_first().take(n - 1));
    }
}

/// No three newlines stand in a row.
pub open spec fn no_blank_lines(s: Seq<char>) -> bool {
    forall|k: int| 0 <= k <= s.len() ==> newline_run(#[trigger] s.skip(k)) < 3
}

proof fn lemma_blank_lines_collapsed(s: Seq<char>)
    ensures
        newline_run(rewritten(BlankLines, s, "\n\n"@)) == (if newline_run(s) >= 3 {
            2
        } else {
            newline_run(s)
        }),
        no_blank_lines(rewritten(BlankLines, s, "\n\n"@)),
    decreases s.len(),
{
    reveal_strlit("\n\n");
    let r = rewritten(BlankLines, s, "\n\n"@);
    lemma_newline_run(s);
    if s.len() == 0 {
        assert forall|k: int| 0 <= k <= r.len() implies newline_run(#[trigger] r.skip(k)) < 3 by {
            assert(r.skip(k).len() == 0);
        }
    } else if newline_run(s) >= 3 {
        let rest = s.skip(newline_run(s) as int);
        lemma_newline_run(rest);
        assert(newline_run(rest) == 0);
        lemma_blank_lines_collapsed(rest);
        let tail = rewritten(BlankLines, rest, "\n\n"@);
        assert(r =~= "\n\n"@ + tail);
        assert(r.drop_first().drop_first() =~= tail);
        reveal_with_fuel(newline_run, 3);
        assert(newline_run(r) == 2);
        assert forall|k: int| 0 <= k <= r.len() implies newline_run(#[trigger] r.skip(k)) < 3 by {
            if k == 0 {
                assert(r.skip(k) =~= r);
            } else if k == 1 {
                assert(r.skip(k) =~= r.drop_first());
            } else {
                assert(r.skip(k) =~= tail.skip(k - 2));
            }
        }
    } else {
        let rest = s.drop_first();
        lemma_blank_lines_collapsed(rest);
        let tail = rewritten(BlankLines, rest, "\n\n"@);
        assert(r =~= seq![s[0]] + tail);
        assert(r.drop_first() =~= tail);
        assert forall|k: int| 0 <= k <= r.len() implies newline_run(#[trigger] r.skip(k)) < 3 by {
            if k == 0 {
                assert(r.skip(k) =~= r);
            } else {
                assert(r.skip(k) =~= tail.skip(k - 1));
            }
        }
    }
}

/// Markdown text neither begins nor ends with white space, and no three newlines stand in a row.
pub proof fn lemma_markdown_text_tidy(html: Seq<char>)
    ensures
        trimmed(markdown_text(html)) == markdown_text(html),
        no_blank_lines(markdown_text(html)),
{
    let stripped = rewritten(Tag, rewritten(LineBreak, html, "\n"@), ""@);
    let decoded = entities_decoded(stripped);
    let collapsed = rewritten(BlankLines, decoded, "\n\n"@);
    let r = markdown_text(html);
    lemma_blank_lines_collapsed(decoded);
    lemma_trimmed(collapsed);
    lemma_trimmed_range(collapsed);
    let lo = choose|lo: int|
        0 <= lo <= collapsed.len() - r.len() && #[trigger] collapsed.subrange(lo, lo + r.len())
            == r;
    assert forall|k: int| 0 <= k <= r.len() implies newline_run(#[trigger] r.skip(k)) < 3 by {
        let whole = collapsed.skip(lo + k);
        assert(r.skip(k) =~= whole.take(r.len() - k));
        lemma_newline_run_of_part(whole, r.len() - k);
    }
}

proof fn lemma_replaced_nothing(s: Seq<char>, pat: Seq<char>, rep: Seq<char>)
    requires
        pat.len() > 0,
        !s.contains(pat[0]),
    ensures
        replaced(s, pat, rep) == s,
    decreases s.len(),
{
    if s.len() > 0 {
        if begins_with(s, pat) {
            assert(s.subrange(0, pat.len() as int)[0] == s[0]);
            assert(s.contains(s[0]));
        }
        let rest = s.drop_first();
        if rest.contains(pat[0]) {
            let k = choose|k: int| 0 <= k < rest.len() && rest[k] == pat[0];
            assert(s[k + 1] == pat[0]);
        }
        lemma_replaced_nothing(rest, pat, rep);
        assert(seq![s[0]] + rest =~= s);
    }
}

proof fn lemma_rewritten_nothing<P: Pattern>(pattern: P, s: Seq<char>, rep: Seq<char>)
    requires
        forall|k: int| 0 <= k <= s.len() ==> pattern.rest_after(#[trigger] s.skip(k)) is None,
    ensures
        rewritten(pattern, s, rep) == s,
    decreases s.len(),
{
    if s.len() > 0 {
        let rest = s.drop_first();
        assert(s.skip(0) =~= s);
        assert forall|k: int| 0 <= k <= rest.len() implies pattern.rest_after(
            #[trigger] rest.skip(k),
        ) is None by {
            assert(rest.skip(k) =~= s.skip(k + 1));
        }
        lemma_rewritten_nothing(pattern, rest, rep);
        assert(seq![s[0]] + rest =~= s);
    } else {
        assert(rewritten(pattern, s, rep) =~= s);
    }
}

/// Text without tags and references loses nothing but its outer white space and the newlines that
/// stand too many in a row.
pub proof fn lemma_plain_text_stays(text: Seq<char>)
    requires
        !text.contains('<'),
        !text.contains('&'),
    ensures
        markdown_text(text) == trimmed(rewritten(BlankLines, text, "\n\n"@)),
        no_blank_lines(text) ==> markdown_text(text) == trimmed(text),
{
    assert forall|k: int| 0 <= k <= text.len() implies LineBreak.rest_after(
        #[trigger] text.skip(k),
    ) is None && Tag.rest_after(text.skip(k)) is None by {
        if k < text.len() {
            assert(text.contains(text[k]));
            assert(text.skip(k)[0] == text[k]);
        }
    }
    lemma_rewritten_nothing(LineBreak, text, "\n"@);
    lemma_rewritten_nothing(Tag, text, ""@);
    lemma_no_entities(text);
    if no_blank_lines(text) {
        assert forall|k: int| 0 <= k <= text.len() implies BlankLines.rest_after(
            #[trigger] text.skip(k),
        ) is None by {
            assert(newline_run(text.skip(k)) < 3);
        }
        lemma_rewritten_nothing(BlankLines, text, "\n\n"@);
    }
}

proof fn lemma_no_entities(text: Seq<char>)
    requires
        !text.contains('&'),
    ensures
        entities_decoded(text) == text,
{
    reveal_strlit("&amp;");
    reveal_strlit("&lt;");
    reveal_strlit("&gt;");
    reveal_strlit("&quot;");
    reveal_strlit("&apos;");
    reveal_strlit("&#39;");
    reveal_strlit("&nbsp;");
    lemma_replaced_nothing(text, "&amp;"@, "&"@);
    lemma_replaced_nothing(text, "&lt;"@, "<"@);
    lemma_replaced_nothing(text, "&gt;"@, ">"@);
    lemma_replaced_nothing(text, "&quot;"@, "\""@);
    lemma_replaced_nothing(text, "&apos;"@, "'"@);
    lemma_replaced_nothing(text, "&#39;"@, "'"@);
    lemma_replaced_nothing(text, "&nbsp;"@, " "@);
}

/// No tag begins anywhere in the text.
pub open spec fn has_no_tag(s: Seq<char>) -> bool {
    forall|k: int| 0 <= k <= s.len() ==> Tag.rest_after(#[trigger] s.skip(k)) is None
}

/// Every `<` stands directly in front of a `>`, or no `>` comes behind it.
spec fn is_untagged(s: Seq<char>) -> bool {
    forall|i: int, j: int|
        0 <= i < j < s.len() && (#[trigger] s[i]) == '<' && (#[trigger] s[j]) == '>' ==> s[i + 1]
            == '>'
}

proof fn lemma_past(s: Seq<char>, c: char)
    ensures
        past(s, c) is Some == s.contains(c),
        past(s, c) matches Some(rest) ==> rest.len() < s.len() && rest == s.skip(
            s.len() - rest.len(),
        ),
    decreases s.len(),
{
    if s.len() > 0 {
        let more = s.drop_first();
        lemma_past(more, c);
        if s[0] == c {
            assert(s.contains(s[0]));
            assert(s.drop_first() =~= s.skip(1));
        } else {
            if more.contains(c) {
                let k = choose|k: int| 0 <= k < more.len() && more[k] == c;
                assert(s[k + 1] == c);
            }
            if s.contains(c) {
                let k = choose|k: int| 0 <= k < s.len() && s[k] == c;
                assert(more[k - 1] == c);
            }
            if let Some(rest) = past(more, c) {
                assert(more.skip(more.len() - rest.len()) =~= s.skip(s.len() - rest.len()));
            }
        }
    }
}

proof fn lemma_untagged_is_tagless(s: Seq<char>)
    requires
        is_untagged(s),
    ensures
        has_no_tag(s),
{
    assert forall|k: int| 0 <= k <= s.len() implies Tag.rest_after(#[trigger] s.skip(k)) is None by {
        let t = s.skip(k);
        if t.len() >= 2 && t[0] == '<' && t[1] != '>' {
            lemma_past(t.skip(2), '>');
            if t.skip(2).contains('>') {
                let j = choose|j: int| 0 <= j < t.skip(2).len() && t.skip(2)[j] == '>';
                assert(s[k] == '<');
                assert(s[k + 2 + j] == '>');
                assert(s[k + 1] == t[1]);
            }
        }
    }
}

proof fn lemma_tags_removed(s: Seq<char>)
    ensures
        is_untagged(rewritten(Tag, s, ""@)),
        forall|c: char| rewritten(Tag, s, ""@).contains(c) ==> s.contains(c),
        s.len() > 0 && s[0] == '>' ==> rewritten(Tag, s, ""@).len() > 0 && rewritten(
            Tag,
            s,
            ""@,
        )[0] == '>',
    decreases s.len(),
{
    reveal_strlit("");
    let r = rewritten(Tag, s, ""@);
    if s.len() > 0 {
        match Tag.rest_after(s) {
            Some(rest) => {
                lemma_past(s.skip(2), '>');
                lemma_tags_removed(rest);
                assert(r =~= rewritten(Tag, rest, ""@));
                assert forall|c: char| r.contains(c) implies s.contains(c) by {
                    assert(rest.contains(c));
                    let k = choose|k: int| 0 <= k < rest.len() && rest[k] == c;
                    let at = s.skip(2).len() - rest.len() + k;
                    assert(s.skip(2)[at] == c);
                    assert(s[at + 2] == c);
                }
            },
            None => {
                let rest = s.drop_first();
                let tail = rewritten(Tag, rest, ""@);
                lemma_tags_removed(rest);
                assert(r =~= seq![s[0]] + tail);
                assert forall|c: char| r.contains(c) implies s.contains(c) by {
                    let k = choose|k: int| 0 <= k < r.len() && r[k] == c;
                    if k == 0 {
                        assert(s[0] == c);
                    } else {
                        assert(tail[k - 1] == c);
                        assert(tail.contains(c));
                        assert(rest.contains(c));
                        let m = choose|m: int| 0 <= m < rest.len() && rest[m] == c;
                        assert(s[m + 1] == c);
                    }
                }
                assert forall|i: int, j: int|
                    0 <= i < j < r.len() && (#[trigger] r[i]) == '<' && (#[trigger] r[j])
                        == '>' implies r[i + 1] == '>' by {
                    assert(r[j] == tail[j - 1]);
                    if i > 0 {
                        assert(r[i] == tail[i - 1]);
                        assert(r[i + 1] == tail[i]);
                    } else {
                        assert(tail.contains('>'));
                        assert(rest.contains('>'));
                        let m = choose|m: int| 0 <= m < rest.len() && rest[m] == '>';
                        assert(s[m + 1] == '>');
                        if s[1] != '>' {
                            lemma_past(s.skip(2), '>');
                            assert(m >= 1);
                            assert(s.skip(2)[m - 1] == '>');
                            assert(s.skip(2).contains('>'));
                        }
                        assert(rest[0] == '>');
                        assert(r[1] == tail[0]);
                    }
                }
            },
        }
    }
}

proof fn lemma_breaks_add_nothing(s: Seq<char>, c: char)
    requires
        !s.contains(c),
        c != '\n',
    ensures
        !rewritten(LineBreak, s, "\n"@).contains(c),
    decreases s.len(),
{
    reveal_strlit("\n");
    let r = rewritten(LineBreak, s, "\n"@);
    if s.len() > 0 {
        let (head, rest) = match LineBreak.rest_after(s) {
            Some(rest) => ("\n"@, rest),
            None => (seq![s[0]], s.drop_first()),
        };
        assert(s.contains(s[0]));
        lemma_break_rest(s, c);
        lemma_breaks_add_nothing(rest, c);
        let tail = rewritten(LineBreak, rest, "\n"@);
        assert(r =~= head + tail);
        if r.contains(c) {
            let k = choose|k: int| 0 <= k < r.len() && r[k] == c;
            if k > 0 {
                assert(tail[k - 1] == c);
                assert(tail.contains(c));
            }
        }
    }
}

proof fn lemma_break_rest(s: Seq<char>, c: char)
    requires
        s.len() > 0,
    ensures
        LineBreak.rest_after(s) matches Some(rest) ==> rest.len() < s.len() && (rest.contains(c)
            ==> s.contains(c)),
        s.drop_first().contains(c) ==> s.contains(c),
{
    lemma_drop_first_members(s, c);
    if LineBreak.rest_after(s) is Some {
        let rest = LineBreak.rest_after(s)->0;
        let tail = s.skip(3);
        let inner = trim_start(tail);
        let end = if inner.len() > 0 && inner[0] == '/' {
            inner.drop_first()
        } else {
            inner
        };
        lemma_trim_start_first(tail);
        lemma_drop_first_members(end, c);
        if inner.len() > 0 {
            lemma_drop_first_members(inner, c);
        }
        if tail.contains(c) {
            let k = choose|k: int| 0 <= k < tail.len() && tail[k] == c;
            assert(s[k + 3] == c);
        }
    }
}

proof fn lemma_drop_first_members(s: Seq<char>, c: char)
    requires
        s.len() > 0,
    ensures
        s.drop_first().contains(c) ==> s.contains(c),
{
    if s.drop_first().contains(c) {
        let k = choose|k: int| 0 <= k < s.drop_first().len() && s.drop_first()[k] == c;
        assert(s[k + 1] == c);
    }
}

proof fn lemma_blank_lines_keep_untagged(s: Seq<char>)
    requires
        is_untagged(s),
    ensures
        is_untagged(rewritten(BlankLines, s, "\n\n"@)),
        rewritten(BlankLines, s, "\n\n"@).contains('>') ==> s.contains('>'),
        s.len() > 0 && s[0] == '>' ==> rewritten(BlankLines, s, "\n\n"@).len() > 0 && rewritten(
            BlankLines,
            s,
            "\n\n"@,
        )[0] == '>',
    decreases s.len(),
{
    reveal_strlit("\n\n");
    let r = rewritten(BlankLines, s, "\n\n"@);
    lemma_newline_run(s);
    if s.len() > 0 {
        let n: int = if newline_run(s) >= 3 {
            newline_run(s) as int
        } else {
            1
        };
        let head = if newline_run(s) >= 3 {
            "\n\n"@
        } else {
            seq![s[0]]
        };
        let rest = s.skip(n);
        assert(s.drop_first() =~= s.skip(1));
        assert forall|i: int, j: int|
            0 <= i < j < rest.len() && (#[trigger] rest[i]) == '<' && (#[trigger] rest[j])
                == '>' implies rest[i + 1] == '>' by {
            assert(s[n + i] == '<' && s[n + j] == '>');
            assert(rest[i + 1] == s[n + i + 1]);
        }
        lemma_blank_lines_keep_untagged(rest);
        let tail = rewritten(BlankLines, rest, "\n\n"@);
        assert(r =~= head + tail);
        if newline_run(s) > 0 {
            assert(s[0] == '\n');
        }
        if r.contains('>') {
            let k = choose|k: int| 0 <= k < r.len() && r[k] == '>';
            if k < head.len() {
                assert(s[0] == '>');
            } else {
                assert(tail[k - head.len()] == '>');
                assert(rest.contains('>'));
                let m = choose|m: int| 0 <= m < rest.len() && rest[m] == '>';
                assert(s[n + m] == '>');
            }
        }
        assert forall|i: int, j: int|
            0 <= i < j < r.len() && (#[trigger] r[i]) == '<' && (#[trigger] r[j])
                == '>' implies r[i + 1] == '>' by {
            let h = head.len() as int;
            if i >= h {
                assert(r[i] == tail[i - h] && r[j] == tail[j - h]);
                assert(r[i + 1] == tail[i + 1 - h]);
            } else {
                assert(s[0] == '<' && h == 1);
                assert(r[j] == tail[j - 1]);
                assert(tail.contains('>'));
                let m = choose|m: int| 0 <= m < rest.len() && rest[m] == '>';
                assert(s[m + 1] == '>');
                assert(s[1] == '>');
                assert(rest[0] == '>');
                assert(r[1] == tail[0]);
            }
        }
    }
}

/// Markdown text of an HTML fragment without references holds no tag.
pub proof fn lemma_no_tag_left(html: Seq<char>)
    requires
        !html.contains('&'),
    ensures
        has_no_tag(markdown_text(html)),
{
    let lines = rewritten(LineBreak, html, "\n"@);
    let stripped = rewritten(Tag, lines, ""@);
    let collapsed = rewritten(BlankLines, stripped, "\n\n"@);
    let r = markdown_text(html);
    lemma_breaks_add_nothing(html, '&');
    lemma_tags_removed(lines);
    lemma_no_entities(stripped);
    lemma_blank_lines_keep_untagged(stripped);
    lemma_trimmed_range(collapsed);
    let lo = choose|lo: int|
        0 <= lo <= collapsed.len() - r.len() && #[trigger] collapsed.subrange(lo, lo + r.len())
            == r;
    assert forall|i: int, j: int|
        0 <= i < j < r.len() && (#[trigger] r[i]) == '<' && (#[trigger] r[j]) == '>' implies r[i
        + 1] == '>' by {
        assert(collapsed[lo + i] == '<' && collapsed[lo + j] == '>');
        assert(r[i + 1] == collapsed[lo + i + 1]);
    }
    lemma_untagged_is_tagless(r);
}

proof fn lemma_reference_kept(
    p: Seq<char>,
    entity: Seq<char>,
    q: Seq<char>,
    pat: Seq<char>,
    rep: Seq<char>,
    differs: int,
)
    requires
        !p.contains('&'),
        pat.len() > 0,
        pat[0] == '&',
        0 <= differs < pat.len(),
        differs < entity.len(),
        pat[differs] != entity[differs],
        !entity.drop_first().contains('&'),
    ensures
        replaced(p + entity + q, pat, rep) == p + entity + replaced(q, pat, rep),
{
    let tail = entity.drop_first();
    assert(p + entity + q =~= p + (entity + q));
    lemma_replaced_behind(p, pat, entity + q, rep);
    if begins_with(entity + q, pat) {
        assert((entity + q).subrange(0, pat.len() as int)[differs] == entity[differs]);
    }
    assert((entity + q).drop_first() =~= tail + q);
    lemma_replaced_behind(tail, pat, q, rep);
    assert(p + (seq![entity[0]] + (tail + replaced(q, pat, rep))) =~= p + entity + replaced(
        q,
        pat,
        rep,
    ));
}

proof fn lemma_reference_lt(p: Seq<char>, q: Seq<char>)
    requires
        !p.contains('&'),
    ensures
        entities_decoded(p + "&lt;"@ + q) == p + "<"@ + entities_decoded(q),
{
    reveal_strlit("&amp;");
    reveal_strlit("&lt;");
    reveal_strlit("&gt;");
    reveal_strlit("&quot;");
    reveal_strlit("&apos;");
    reveal_strlit("&#39;");
    reveal_strlit("&nbsp;");
    reveal_strlit("&");
    reveal_strlit("<");
    reveal_strlit(">");
    reveal_strlit("\"");
    reveal_strlit("'");
    reveal_strlit(" ");
    assert(!(p + "<"@).contains('&')) by {
        lemma_no_such_char(p, "<"@, '&');
    }
    assert(!"&lt;"@.drop_first().contains('&'));
    let q0 = q;
    let q1 = replaced(q0, "&amp;"@, "&"@);
    lemma_reference_kept(p, "&lt;"@, q0, "&amp;"@, "&"@, 1);
    let q2 = replaced(q1, "&lt;"@, "<"@);
    lemma_replaced_first(p, "&lt;"@, q1, "<"@);
    let q3 = replaced(q2, "&gt;"@, ">"@);
    lemma_replaced_behind(p + "<"@, "&gt;"@, q2, ">"@);
    let q4 = replaced(q3, "&quot;"@, "\""@);
    lemma_replaced_behind(p + "<"@, "&quot;"@, q3, "\""@);
    let q5 = replaced(q4, "&apos;"@, "'"@);
    lemma_replaced_behind(p + "<"@, "&apos;"@, q4, "'"@);
    let q6 = replaced(q5, "&#39;"@, "'"@);
    lemma_replaced_behind(p + "<"@, "&#39;"@, q5, "'"@);
    let q7 = replaced(q6, "&nbsp;"@, " "@);
    lemma_replaced_behind(p + "<"@, "&nbsp;"@, q6, " "@);
}

proof fn lemma_reference_gt(p: Seq<char>, q: Seq<char>)
    requires
        !p.contains('&'),
    ensures
        entities_decoded(p + "&gt;"@ + q) == p + ">"@ + entities_decoded(q),
{
    reveal_strlit("&amp;");
    reveal_strlit("&lt;");
    reveal_strlit("&gt;");
    reveal_strlit("&quot;");
    reveal_strlit("&apos;");
    reveal_strlit("&#39;");
    reveal_strlit("&nbsp;");
    reveal_strlit("&");
    reveal_strlit("<");
    reveal_strlit(">");
    reveal_strlit("\"");
    reveal_strlit("'");
    reveal_strlit(" ");
    assert(!(p + ">"@).contains('&')) by {
        lemma_no_such_char(p, ">"@, '&');
    }
    assert(!"&gt;"@.drop_first().contains('&'));
    let q0 = q;
    let q1 = replaced(q0, "&amp;"@, "&"@);
    lemma_reference_kept(p, "&gt;"@, q0, "&amp;"@, "&"@, 1);
    let q2 = replaced(q1, "&lt;"@, "<"@);
    lemma_reference_kept(p, "&gt;"@, q1, "&lt;"@, "<"@, 1);
    let q3 = replaced(q2, "&gt;"@, ">"@);
    lemma_replaced_first(p, "&gt;"@, q2, ">"@);
    let q4 = replaced(q3, "&quot;"@, "\""@);
    lemma_replaced_behind(p + ">"@, "&quot;"@, q3, "\""@);
    let q5 = replaced(q4, "&apos;"@, "'"@);
    lemma_replaced_behind(p + ">"@, "&apos;"@, q4, "'"@);
    let q6 = replaced(q5, "&#39;"@, "'"@);
    lemma_replaced_behind(p + ">"@, "&#39;"@, q5, "'"@);
    let q7 = replaced(q6, "&nbsp;"@, " "@);
    lemma_replaced_behind(p + ">"@, "&nbsp;"@, q6, " "@);
}

proof fn lemma_reference_quot(p: Seq<char>, q: Seq<char>)
    requires
        !p.contains('&'),
    ensures
        entities_decoded(p + "&quot;"@ + q) == p + "\""@ + entities_decoded(q),
{
    reveal_strlit("&amp;");
    reveal_strlit("&lt;");
    reveal_strlit("&gt;");
    reveal_strlit("&quot;");
    reveal_strlit("&apos;");
    reveal_strlit("&#39;");
    reveal_strlit("&nbsp;");
    reveal_strlit("&");
    reveal_strlit("<");
    reveal_strlit(">");
    reveal_strlit("\"");
    reveal_strlit("'");
    reveal_strlit(" ");
    assert(!(p + "\""@).contains('&')) by {
        lemma_no_such_char(p, "\""@, '&');
    }
    assert(!"&quot;"@.drop_first().contains('&'));
    let q0 = q;
    let q1 = replaced(q0, "&amp;"@, "&"@);
    lemma_reference_kept(p, "&quot;"@, q0, "&amp;"@, "&"@, 1);
    let q2 = replaced(q1, "&lt;"@, "<"@);
    lemma_reference_kept(p, "&quot;"@, q1, "&lt;"@, "<"@, 1);
    let q3 = replaced(q2, "&gt;"@, ">"@);
    lemma_reference_kept(p, "&quot;"@, q2, "&gt;"@, ">"@, 1);
    let q4 = replaced(q3, "&quot;"@, "\""@);
    lemma_replaced_first(p, "&quot;"@, q3, "\""@);
    let q5 = replaced(q4, "&apos;"@, "'"@);
    lemma_replaced_behind(p + "\""@, "&apos;"@, q4, "'"@);
    let q6 = replaced(q5, "&#39;"@, "'"@);
    lemma_replaced_behind(p + "\""@, "&#39;"@, q5, "'"@);
    let q7 = replaced(q6, "&nbsp;"@, " "@);
    lemma_replaced_behind(p + "\""@, "&nbsp;"@, q6, " "@);
}

proof fn lemma_reference_apos(p: Seq<char>, q: Seq<char>)
    requires
        !p.contains('&'),
    ensures
        entities_decoded(p + "&apos;"@ + q) == p + "'"@ + entities_decoded(q),
{
    reveal_strlit("&amp;");
    reveal_strlit("&lt;");
    reveal_strlit("&gt;");
    reveal_strlit("&quot;");
    reveal_strlit("&apos;");
    reveal_strlit("&#39;");
    reveal_strlit("&nbsp;");
    reveal_strlit("&");
    reveal_strlit("<");
    reveal_strlit(">");
    reveal_strlit("\"");
    reveal_strlit("'");
    reveal_strlit(" ");
    assert(!(p + "'"@).contains('&')) by {
        lemma_no_such_char(p, "'"@, '&');
    }
    assert(!"&apos;"@.drop_first().contains('&'));
    let q0 = q;
    let q1 = replaced(q0, "&amp;"@, "&"@);
    lemma_reference_kept(p, "&apos;"@, q0, "&amp;"@, "&"@, 2);
    let q2 = replaced(q1, "&lt;"@, "<"@);
    lemma_reference_kept(p, "&apos;"@, q1, "&lt;"@, "<"@, 1);
    let q3 = replaced(q2, "&gt;"@, ">"@);
    lemma_reference_kept(p, "&apos;"@, q2, "&gt;"@, ">"@, 1);
    let q4 = replaced(q3, "&quot;"@, "\""@);
    lemma_reference_kept(p, "&apos;"@, q3, "&quot;"@, "\""@, 1);
    let q5 = replaced(q4, "&apos;"@, "'"@);
    lemma_replaced_first(p, "&apos;"@, q4, "'"@);
    let q6 = replaced(q5, "&#39;"@, "'"@);
    lemma_replaced_behind(p + "'"@, "&#39;"@, q5, "'"@);
    let q7 = replaced(q6, "&nbsp;"@, " "@);
    lemma_replaced_behind(p + "'"@, "&nbsp;"@, q6, " "@);
}

proof fn lemma_reference_number(p: Seq<char>, q: Seq<char>)
    requires
        !p.contains('&'),
    ensures
        entities_decoded(p + "&#39;"@ + q) == p + "'"@ + entities_decoded(q),
{
    reveal_strlit("&amp;");
    reveal_strlit("&lt;");
    reveal_strlit("&gt;");
    reveal_strlit("&quot;");
    reveal_strlit("&apos;");
    reveal_strlit("&#39;");
    reveal_strlit("&nbsp;");
    reveal_strlit("&");
    reveal_strlit("<");
    reveal_strlit(">");
    reveal_strlit("\"");
    reveal_strlit("'");
    reveal_strlit(" ");
    assert(!(p + "'"@).contains('&')) by {
        lemma_no_such_char(p, "'"@, '&');
    }
    assert(!"&#39;"@.drop_first().contains('&'));
    let q0 = q;
    let q1 = replaced(q0, "&amp;"@, "&"@);
    lemma_reference_kept(p, "&#39;"@, q0, "&amp;"@, "&"@, 1);
    let q2 = replaced(q1, "&lt;"@, "<"@);
    lemma_reference_kept(p, "&#39;"@, q1, "&lt;"@, "<"@, 1);
    let q3 = replaced(q2, "&gt;"@, ">"@);
    lemma_reference_kept(p, "&#39;"@, q2, "&gt;"@, ">"@, 1);
    let q4 = replaced(q3, "&quot;"@, "\""@);
    lemma_reference_kept(p, "&#39;"@, q3, "&quot;"@, "\""@, 1);
    let q5 = replaced(q4, "&apos;"@, "'"@);
    lemma_reference_kept(p, "&#39;"@, q4, "&apos;"@, "'"@, 1);
    let q6 = replaced(q5, "&#39;"@, "'"@);
    lemma_replaced_first(p, "&#39;"@, q5, "'"@);
    let q7 = replaced(q6, "&nbsp;"@, " "@);
    lemma_replaced_behind(p + "'"@, "&nbsp;"@, q6, " "@);
}

proof fn lemma_reference_nbsp(p: Seq<char>, q: Seq<char>)
    requires
        !p.contains('&'),
    ensures
        entities_decoded(p + "&nbsp;"@ + q) == p + " "@ + entities_decoded(q),
{
    reveal_strlit("&amp;");
    reveal_strlit("&lt;");
    reveal_strlit("&gt;");
    reveal_strlit("&quot;");
    reveal_strlit("&apos;");
    reveal_strlit("&#39;");
    reveal_strlit("&nbsp;");
    reveal_strlit("&");
    reveal_strlit("<");
    reveal_strlit(">");
    reveal_strlit("\"");
    reveal_strlit("'");
    reveal_strlit(" ");
    assert(!(p + " "@).contains('&')) by {
        lemma_no_such_char(p, " "@, '&');
    }
    assert(!"&nbsp;"@.drop_first().contains('&'));
    let q0 = q;
    let q1 = replaced(q0, "&amp;"@, "&"@);
    lemma_reference_kept(p, "&nbsp;"@, q0, "&amp;"@, "&"@, 1);
    let q2 = replaced(q1, "&lt;"@, "<"@);
    lemma_reference_kept(p, "&nbsp;"@, q1, "&lt;"@, "<"@, 1);
    let q3 = replaced(q2, "&gt;"@, ">"@);
    lemma_reference_kept(p, "&nbsp;"@, q2, "&gt;"@, ">"@, 1);
    let q4 = replaced(q3, "&quot;"@, "\""@);
    lemma_reference_kept(p, "&nbsp;"@, q3, "&quot;"@, "\""@, 1);
    let q5 = replaced(q4, "&apos;"@, "'"@);
    lemma_reference_kept(p, "&nbsp;"@, q4, "&apos;"@, "'"@, 1);
    let q6 = replaced(q5, "&#39;"@, "'"@);
    lemma_reference_kept(p, "&nbsp;"@, q5, "&#39;"@, "'"@, 1);
    let q7 = replaced(q6, "&nbsp;"@, " "@);
    lemma_replaced_first(p, "&nbsp;"@, q6, " "@);
}

proof fn lemma_no_such_char(a: Seq<char>, b: Seq<char>, c: char)
    requires
        !a.contains(c),
        !b.contains(c),
    ensures
        !(a + b).contains(c),
{
    if (a + b).contains(c) {
        let k = choose|k: int| 0 <= k < (a + b).len() && (a + b)[k] == c;
        if k < a.len() {
            assert(a[k] == c);
        } else {
            assert(b[k - a.len()] == c);
        }
    }
}

/// The references that are resolved, with the characters they stand for. What comes behind one is
/// read for itself.
pub proof fn lemma_references(
    p: Seq<char>,
    reference: Seq<char>,
    plain: Seq<char>,
    q: Seq<char>,
)
    requires
        !p.contains('&'),
        (reference == "&lt;"@ && plain == "<"@)
            || (reference == "&gt;"@ && plain == ">"@)
            || (reference == "&quot;"@ && plain == "\""@)
            || (reference == "&apos;"@ && plain == "'"@)
            || (reference == "&#39;"@ && plain == "'"@)
            || (reference == "&nbsp;"@ && plain == " "@),
    ensures
        entities_decoded(p + reference + q) == p + plain + entities_decoded(q),
{
    lemma_reference_lt(p, q);
    lemma_reference_gt(p, q);
    lemma_reference_quot(p, q);
    lemma_reference_apos(p, q);
    lemma_reference_number(p, q);
    lemma_reference_nbsp(p, q);
}

/// An ampersand that was escaped makes references of what stands behind it, once: an escaped
/// reference is resolved too, but not an ampersand that was escaped twice.
pub proof fn lemma_escaped_ampersand(
    p: Seq<char>,
    reference: Seq<char>,
    plain: Seq<char>,
    q: Seq<char>,
)
    requires
        !p.contains('&'),
        !q.contains('&'),
        (reference == "&lt;"@ && plain == "<"@)
            || (reference == "&gt;"@ && plain == ">"@)
            || (reference == "&quot;"@ && plain == "\""@)
            || (reference == "&apos;"@ && plain == "'"@)
            || (reference == "&#39;"@ && plain == "'"@)
            || (reference == "&nbsp;"@ && plain == " "@),
    ensures
        entities_decoded(p + "&amp;"@ + reference.drop_first() + q) == p + plain + q,
        !q.contains(';') ==> entities_decoded(p + "&amp;"@ + q) == p + "&"@ + q,
        entities_decoded(p + "&amp;amp;"@ + q) == p + "&amp;"@ + q,
{
    reveal_strlit("&amp;");
    reveal_strlit("&lt;");
    reveal_strlit("&gt;");
    reveal_strlit("&quot;");
    reveal_strlit("&apos;");
    reveal_strlit("&#39;");
    reveal_strlit("&nbsp;");
    reveal_strlit("&");
    reveal_strlit("<");
    reveal_strlit(">");
    reveal_strlit("\"");
    reveal_strlit("'");
    reveal_strlit(" ");
    reveal_strlit("&amp;amp;");
    let name = reference.drop_first();
    assert(!name.contains('&'));
    let s = p + "&amp;"@ + name + q;
    assert(s =~= p + "&amp;"@ + (name + q));
    lemma_replaced_first(p, "&amp;"@, name + q, "&"@);
    lemma_no_such_char(name, q, '&');
    lemma_replaced_nothing(name + q, "&amp;"@, "&"@);
    let t = p + reference + q;
    assert(p + "&"@ + (name + q) =~= t);
    assert(reference[1] != "&amp;"@[1] || reference[2] != "&amp;"@[2]);
    lemma_reference_kept(
        p,
        reference,
        q,
        "&amp;"@,
        "&"@,
        if reference[1] != "&amp;"@[1] {
            1
        } else {
            2
        },
    );
    lemma_replaced_nothing(q, "&amp;"@, "&"@);
    assert(entities_decoded(s) == entities_decoded(t));
    lemma_references(p, reference, plain, q);
    lemma_no_entities(q);
    let open = "&"@ + q;
    lemma_replaced_first(p, "&amp;"@, q, "&"@);
    if !q.contains(';') {
        assert(!(open.contains(';'))) by {
            lemma_no_such_char("&"@, q, ';');
        }
        assert(p + "&"@ + q =~= p + open);
        lemma_open_reference(p, q, "&lt;"@, "<"@);
        lemma_open_reference(p, q, "&gt;"@, ">"@);
        lemma_open_reference(p, q, "&quot;"@, "\""@);
        lemma_open_reference(p, q, "&apos;"@, "'"@);
        lemma_open_reference(p, q, "&#39;"@, "'"@);
        lemma_open_reference(p, q, "&nbsp;"@, " "@);
    }
    let twice = p + "&amp;amp;"@ + q;
    let rest = "amp;"@;
    reveal_strlit("amp;");
    assert(twice =~= p + "&amp;"@ + (rest + q));
    lemma_replaced_first(p, "&amp;"@, rest + q, "&"@);
    assert(!rest.contains('&'));
    lemma_no_such_char(rest, q, '&');
    lemma_replaced_nothing(rest + q, "&amp;"@, "&"@);
    assert(p + "&"@ + (rest + q) =~= p + "&amp;"@ + q);
    assert(!"&amp;"@.drop_first().contains('&'));
    lemma_reference_kept(p, "&amp;"@, q, "&lt;"@, "<"@, 1);
    lemma_replaced_nothing(q, "&lt;"@, "<"@);
    lemma_reference_kept(p, "&amp;"@, q, "&gt;"@, ">"@, 1);
    lemma_replaced_nothing(q, "&gt;"@, ">"@);
    lemma_reference_kept(p, "&amp;"@, q, "&quot;"@, "\""@, 1);
    lemma_replaced_nothing(q, "&quot;"@, "\""@);
    lemma_reference_kept(p, "&amp;"@, q, "&apos;"@, "'"@, 2);
    lemma_replaced_nothing(q, "&apos;"@, "'"@);
    lemma_reference_kept(p, "&amp;"@, q, "&#39;"@, "'"@, 1);
    lemma_replaced_nothing(q, "&#39;"@, "'"@);
    lemma_reference_kept(p, "&amp;"@, q, "&nbsp;"@, " "@, 1);
    lemma_replaced_nothing(q, "&nbsp;"@, " "@);
}

proof fn lemma_open_reference(p: Seq<char>, q: Seq<char>, pat: Seq<char>, rep: Seq<char>)
    requires
        !p.contains('&'),
        !q.contains('&'),
        !q.contains(';'),
        pat.len() > 1,
        pat[0] == '&',
        pat.last() == ';',
    ensures
        replaced(p + "&"@ + q, pat, rep) == p + "&"@ + q,
{
    reveal_strlit("&");
    let open = "&"@ + q;
    assert(p + "&"@ + q =~= p + open);
    lemma_replaced_behind(p, pat, open, rep);
    if begins_with(open, pat) {
        assert(open.subrange(0, pat.len() as int)[pat.len() - 1] == ';');
        assert(q[pat.len() - 2] == ';');
        assert(q.contains(';'));
    }
    assert(open.drop_first() =~= q);
    lemma_replaced_nothing(q, pat, rep);
    assert(seq![open[0]] + q =~= open);
}


/// The first tag of HTML does not show, and the first line break shows as a newline. What comes behind
/// it shows as it does without it.
pub proof fn lemma_markup_replaced(
    a: Seq<char>,
    inner: Seq<char>,
    letters: Seq<char>,
    space: Seq<char>,
    slash: bool,
    b: Seq<char>,
)
    requires
        !a.contains('<'),
        inner.len() > 0,
        !inner.contains('<') && !inner.contains('>'),
        inner.len() >= 2 && (inner[0] == 'b' || inner[0] == 'B') ==> inner[1] != 'r' && inner[1]
            != 'R',
        letters == seq!['b', 'r'] || letters == seq!['B', 'r'] || letters == seq!['b', 'R']
            || letters == seq!['B', 'R'],
        all_white(space),
    ensures
        markdown_text(a + (seq!['<'] + inner + seq!['>'] + b)) == markdown_text(a + b),
        ({
            let end = if slash {
                seq!['/', '>']
            } else {
                seq!['>']
            };
            markdown_text(a + (seq!['<'] + letters + space + end + b)) == markdown_text(
                a + ("\n"@ + b),
            )
        }),
{
    reveal_strlit("\n");
    reveal_strlit("");
    let nl = "\n"@;
    let tag = seq!['<'] + inner + seq!['>'];
    let front = a + tag;
    let lines = rewritten(LineBreak, b, nl);
    assert forall|k: int| 0 <= k < front.len() implies LineBreak.rest_after(
        #[trigger] (front + b).skip(k),
    ) is None by {
        let t = (front + b).skip(k);
        assert(t[0] == front[k]);
        if k < a.len() {
            assert(a.contains(a[k]));
        } else if k == a.len() {
            assert(t[1] == inner[0]);
            assert(t[2] == if inner.len() >= 2 {
                inner[1]
            } else {
                '>'
            });
        } else if k < a.len() + 1 + inner.len() {
            assert(inner.contains(inner[k - a.len() - 1]));
        }
    }
    lemma_rewritten_behind(LineBreak, front, b, nl);
    assert(front + b =~= a + (tag + b));
    assert(front + lines =~= a + (tag + lines));
    lemma_tag_replaced(a, inner, lines, ""@);
    lemma_untagged_before(a, b, lines);
    assert(a + (""@ + rewritten(Tag, lines, ""@)) =~= a + rewritten(Tag, lines, ""@));
    lemma_line_break_replaced(a, letters, space, slash, b, nl);
    lemma_no_such_char(a, nl, '<');
    lemma_untagged_before(a + nl, b, lines);
    assert(a + nl + b =~= a + (nl + b));
    assert(a + nl + lines =~= a + (nl + lines));
}

proof fn lemma_untagged_before(a: Seq<char>, b: Seq<char>, lines: Seq<char>)
    requires
        !a.contains('<'),
        lines == rewritten(LineBreak, b, "\n"@),
    ensures
        rewritten(LineBreak, a + b, "\n"@) == a + lines,
        rewritten(Tag, a + lines, ""@) == a + rewritten(Tag, lines, ""@),
{
    assert forall|k: int| 0 <= k < a.len() implies LineBreak.rest_after(#[trigger] (a + b).skip(k)) is None by {
        assert(a.contains(a[k]));
        assert((a + b).skip(k)[0] == a[k]);
    }
    lemma_rewritten_behind(LineBreak, a, b, "\n"@);
    assert forall|k: int| 0 <= k < a.len() implies Tag.rest_after(#[trigger] (a + lines).skip(k)) is None by {
        assert(a.contains(a[k]));
        assert((a + lines).skip(k)[0] == a[k]);
    }
    lemma_rewritten_behind(Tag, a, lines, ""@);
}

/// Text in which none of the references stands keeps all its ampersands.
pub proof fn lemma_other_references(text: Seq<char>)
    requires
        !contains_text(text, "&amp;"@),
        !contains_text(text, "&lt;"@),
        !contains_text(text, "&gt;"@),
        !contains_text(text, "&quot;"@),
        !contains_text(text, "&apos;"@),
        !contains_text(text, "&#39;"@),
        !contains_text(text, "&nbsp;"@),
    ensures
        entities_decoded(text) == text,
{
    lemma_replaced_nowhere(text, "&amp;"@, "&"@);
    lemma_replaced_nowhere(text, "&lt;"@, "<"@);
    lemma_replaced_nowhere(text, "&gt;"@, ">"@);
    lemma_replaced_nowhere(text, "&quot;"@, "\""@);
    lemma_replaced_nowhere(text, "&apos;"@, "'"@);
    lemma_replaced_nowhere(text, "&#39;"@, "'"@);
    lemma_replaced_nowhere(text, "&nbsp;"@, " "@);
}

/// Where there is no tag, text shows with its references resolved, without the newlines that stand
/// too many in a row and without outer white space.
pub proof fn lemma_without_tags(text: Seq<char>)
    requires
        !text.contains('<') || !text.contains('>'),
    ensures
        markdown_text(text) == trimmed(rewritten(BlankLines, entities_decoded(text), "\n\n"@)),
{
    if !text.contains('<') {
        lemma_untagged_passes(text);
    } else {
        assert forall|k: int| 0 <= k <= text.len() implies LineBreak.rest_after(
            #[trigger] text.skip(k),
        ) is None by {
            if LineBreak.rest_after(text.skip(k)) is Some {
                lemma_break_closes(text, k);
            }
        }
        lemma_rewritten_nothing(LineBreak, text, "\n"@);
        lemma_no_tags(Seq::empty(), text, ""@);
    }
}

proof fn lemma_break_closes(text: Seq<char>, k: int)
    requires
        0 <= k <= text.len(),
        LineBreak.rest_after(text.skip(k)) is Some,
    ensures
        text.contains('>'),
{
    let s = text.skip(k);
    let tail = s.skip(3);
    let inner = trim_start(tail);
    lemma_trim_start_first(tail);
    let end = if inner.len() > 0 && inner[0] == '/' {
        inner.drop_first()
    } else {
        inner
    };
    assert(end.contains(end[0]));
    if inner.len() > 0 {
        lemma_drop_first_members(inner, '>');
    }
    assert(tail.contains('>'));
    let m = choose|m: int| 0 <= m < tail.len() && tail[m] == '>';
    assert(text[k + 3 + m] == '>');
}

proof fn lemma_untagged_passes(s: Seq<char>)
    requires
        !s.contains('<'),
    ensures
        rewritten(LineBreak, s, "\n"@) == s,
        rewritten(Tag, s, ""@) == s,
{
    assert forall|k: int| 0 <= k <= s.len() implies LineBreak.rest_after(#[trigger] s.skip(k)) is None
        && Tag.rest_after(s.skip(k)) is None by {
        if k < s.len() {
            assert(s.contains(s[k]));
            assert(s.skip(k)[0] == s[k]);
        }
    }
    lemma_rewritten_nothing(LineBreak, s, "\n"@);
    lemma_rewritten_nothing(Tag, s, ""@);
}

/// A reference in text without tags shows as the character that it stands for, also where that is
/// the beginning of what would be a tag.
pub proof fn lemma_reference_shown(
    p: Seq<char>,
    reference: Seq<char>,
    plain: Seq<char>,
    q: Seq<char>,
)
    requires
        !p.contains('<') && !p.contains('&'),
        !q.contains('<') && !q.contains('&'),
        (reference == "&lt;"@ && plain == "<"@)
            || (reference == "&gt;"@ && plain == ">"@)
            || (reference == "&quot;"@ && plain == "\""@)
            || (reference == "&apos;"@ && plain == "'"@)
            || (reference == "&#39;"@ && plain == "'"@)
            || (reference == "&nbsp;"@ && plain == " "@),
    ensures
        markdown_text(p + reference + q) == trimmed(
            rewritten(BlankLines, p + plain + q, "\n\n"@),
        ),
        no_blank_lines(p + plain + q) ==> markdown_text(p + reference + q) == trimmed(
            p + plain + q,
        ),
{
    reveal_strlit("&lt;");
    reveal_strlit("&gt;");
    reveal_strlit("&quot;");
    reveal_strlit("&apos;");
    reveal_strlit("&#39;");
    reveal_strlit("&nbsp;");
    assert(!reference.contains('<'));
    lemma_no_such_char(p, reference, '<');
    lemma_no_such_char(p + reference, q, '<');
    lemma_untagged_passes(p + reference + q);
    lemma_references(p, reference, plain, q);
    lemma_no_entities(q);
    let text = p + plain + q;
    if no_blank_lines(text) {
        assert forall|k: int| 0 <= k <= text.len() implies BlankLines.rest_after(
            #[trigger] text.skip(k),
        ) is None by {
            assert(newline_run(text.skip(k)) < 3);
        }
        lemma_rewritten_nothing(BlankLines, text, "\n\n"@);
    }
}

/// The header that repeats the number and the title of an article is taken off its text. Text
/// without one stays, but for outer white space.
pub proof fn lemma_header_stripped(
    number: Seq<char>,
    space: Seq<char>,
    title: Seq<char>,
    text: Seq<char>,
)
    requires
        number.len() > 0,
        all_digits(number),
        all_white(space),
        !title.contains(')'),
    ensures
        header_stripped(
            seq!['제'] + number + seq!['조'] + space + (seq!['('] + title + seq![')']) + text,
        ) == trimmed(text),
        trim_start(text).len() == 0 || trim_start(text)[0] != '(' ==> header_stripped(
            seq!['제'] + number + seq!['조'] + text,
        ) == trimmed(text),
        text.len() == 0 || text[0] != '제' ==> header_stripped(text) == trimmed(text),
{
    lemma_no_header(text, Seq::empty(), Seq::empty());
    let none = Seq::<char>::empty();
    let rest = trim_start(text);
    lemma_trim_start_first(text);
    let (white, behind) = lemma_leading_white(text);
    lemma_trimmed_padded(white, rest, none);
    assert(white + rest + none =~= text);
    let s = seq!['제'] + number + seq!['조'] + space + (seq!['('] + title + seq![')']) + text;
    assert(s =~= seq!['제'] + number + seq!['조'] + space + (seq!['('] + title + seq![')']) + white
        + rest);
    lemma_header_taken(number, space, Some(title), white, rest);
    if rest.len() == 0 || rest[0] != '(' {
        let plain = seq!['제'] + number + seq!['조'] + text;
        assert(plain =~= seq!['제'] + number + seq!['조'] + white + none + none + rest);
        lemma_header_taken(number, white, None, none, rest);
    }
}

proof fn lemma_leading_white(text: Seq<char>) -> (parts: (Seq<char>, Seq<char>))
    ensures
        all_white(parts.0),
        parts.1 == trim_start(text),
        text == parts.0 + parts.1,
    decreases text.len(),
{
    if text.len() > 0 && is_white_space(text[0]) {
        let (white, rest) = lemma_leading_white(text.drop_first());
        let more = seq![text[0]] + white;
        assert forall|i: int| 0 <= i < more.len() implies is_white_space(#[trigger] more[i]) by {
            if i > 0 {
                assert(is_white_space(white[i - 1]));
            }
        }
        assert(text.drop_first() == white + rest);
        assert(text =~= seq![text[0]] + text.drop_first());
        assert(text =~= more + rest);
        (more, rest)
    } else {
        assert(text =~= Seq::<char>::empty() + text);
        (Seq::empty(), text)
    }
}

/// An article with a number has a heading with the number, and with the title where it has one. Its
/// content comes behind it, without markup and header. Nothing else is shown of it.
pub proof fn lemma_article_shown(article: ArticleModel)
    ensures
        ({
            let number = article_number(article.number_raw);
            let text = header_stripped(markdown_text(article.content));
            let blocks = article_blocks(article);
            &&& number.len() > 0 && article.title.len() == 0 ==> blocks.len() > 0 && blocks[0]
                == "##### 제"@ + number + "조"@
            &&& number.len() > 0 && article.title.len() > 0 ==> blocks.len() > 0 && blocks[0]
                == "##### 제"@ + number + "조"@ + " ("@ + article.title + ")"@
            &&& text.len() > 0 ==> blocks.len() > 0 && blocks.last() == text
            &&& blocks.len() == (if number.len() > 0 {
                1int
            } else {
                0
            }) + (if text.len() > 0 {
                1int
            } else {
                0
            })
        }),
{
    reveal_strlit("조");
    reveal_strlit(" (");
    reveal_strlit("조 (");
    let number = article_number(article.number_raw);
    assert("##### 제"@ + number + "조"@ + " ("@ + article.title + ")"@ =~= "##### 제"@ + number
        + "조 ("@ + article.title + ")"@);
    if article.content.len() == 0 {
        lemma_nothing_shown(article.content);
    }
}

proof fn lemma_nothing_shown(html: Seq<char>)
    requires
        html.len() == 0,
    ensures
        header_stripped(markdown_text(html)).len() == 0,
{
    lemma_plain_text_stays(html);
    assert(rewritten(BlankLines, html, "\n\n"@).len() == 0);
    let text = markdown_text(html);
    assert(text.len() == 0);
    lemma_no_header(text, Seq::empty(), Seq::empty());
}

/// The articles of a list show as those of its parts do, one behind the other, and one article as
/// itself.
pub proof fn lemma_articles_in_two(a: Seq<ArticleModel>, b: Seq<ArticleModel>, one: ArticleModel)
    ensures
        articles_blocks(a + b) == articles_blocks(a) + articles_blocks(b),
        articles_blocks(seq![one]) == article_blocks(one),
    decreases b.len(),
{
    reveal_with_fuel(articles_blocks, 2);
    assert(seq![one].drop_last() =~= Seq::<ArticleModel>::empty());
    assert(articles_blocks(seq![one]) =~= article_blocks(one));
    if b.len() == 0 {
        assert(a + b =~= a);
        assert(articles_blocks(a) + articles_blocks(b) =~= articles_blocks(a));
    } else {
        lemma_articles_in_two(a, b.drop_last(), one);
        assert((a + b).drop_last() =~= a + b.drop_last());
        assert(articles_blocks(a) + (articles_blocks(b.drop_last()) + article_blocks(b.last()))
            =~= articles_blocks(a) + articles_blocks(b.drop_last()) + article_blocks(b.last()));
    }
}

/// The appendix texts of a list show as those of its parts do, one behind the other. One text shows
/// as a heading and the text without markup, and not at all where it is blank. There are two blocks
/// for each text that is not blank.
pub proof fn lemma_appendices_in_two(a: Seq<Seq<char>>, b: Seq<Seq<char>>, one: Seq<char>)
    ensures
        appendices_blocks(a + b) == appendices_blocks(a) + appendices_blocks(b),
        all_white(one) ==> appendices_blocks(seq![one]).len() == 0,
        !all_white(one) ==> appendices_blocks(seq![one]) == seq!["## 부칙"@, markdown_text(one)],
        appendices_blocks(b).len() == 2 * b.filter(|t: Seq<char>| !all_white(t)).len(),
    decreases b.len(),
{
    reveal_with_fuel(appendices_blocks, 2);
    reveal(Seq::filter);
    lemma_blank(one);
    assert(seq![one].drop_last() =~= Seq::<Seq<char>>::empty());
    assert(appendices_blocks(seq![one]) =~= appendix_blocks(one));
    if b.len() == 0 {
        assert(a + b =~= a);
        assert(appendices_blocks(a) + appendices_blocks(b) =~= appendices_blocks(a));
    } else {
        lemma_blank(b.last());
        lemma_appendices_in_two(a, b.drop_last(), one);
        assert((a + b).drop_last() =~= a + b.drop_last());
        assert(appendices_blocks(a) + (appendices_blocks(b.drop_last()) + appendix_blocks(b.last()))
            =~= appendices_blocks(a) + appendices_blocks(b.drop_last()) + appendix_blocks(
            b.last(),
        ));
    }
}

proof fn lemma_blank(text: Seq<char>)
    ensures
        trimmed(text).len() == 0 <==> all_white(text),
{
    let none = Seq::<char>::empty();
    if all_white(text) {
        lemma_trimmed_of(text, none, none);
        assert(text + none + none =~= text);
    }
    if trimmed(text).len() == 0 {
        let (a, b) = lemma_trimmed_split(text);
        assert forall|i: int| 0 <= i < text.len() implies is_white_space(#[trigger] text[i]) by {
            if i < a.len() {
                assert(is_white_space(a[i]));
            } else {
                assert(is_white_space(b[i - a.len()]));
            }
        }
    }
}

/// Each appendix text that is not blank shows, with its heading, behind those before it and before
/// those behind it.
pub proof fn lemma_appendix_shown(appendix: Seq<Seq<char>>, i: int)
    requires
        0 <= i < appendix.len(),
        !all_white(appendix[i]),
    ensures
        appendices_blocks(appendix) == appendices_blocks(appendix.take(i)) + seq![
            "## 부칙"@,
            markdown_text(appendix[i]),
        ] + appendices_blocks(appendix.skip(i + 1)),
{
    let a = appendix.take(i);
    let one = seq![appendix[i]];
    let b = appendix.skip(i + 1);
    assert(appendix =~= a + one + b);
    lemma_appendices_in_two(a, one, appendix[i]);
    lemma_appendices_in_two(a + one, b, appendix[i]);
}

/// Text that neither is empty nor begins or ends with white space.
pub open spec fn is_solid(text: Seq<char>) -> bool {
    text.len() > 0 && !is_white_space(text[0]) && !is_white_space(text.last())
}

spec fn all_solid(parts: Seq<Seq<char>>) -> bool {
    forall|i: int| 0 <= i < parts.len() ==> is_solid(#[trigger] parts[i])
}

proof fn lemma_joined_solid(parts: Seq<Seq<char>>, sep: Seq<char>)
    requires
        parts.len() > 0,
        all_solid(parts),
    ensures
        is_solid(joined(parts, sep)),
    decreases parts.len(),
{
    assert(is_solid(parts[parts.len() - 1]));
    if parts.len() > 1 {
        let most = parts.drop_last();
        assert forall|i: int| 0 <= i < most.len() implies is_solid(#[trigger] most[i]) by {
            assert(is_solid(parts[i]));
        }
        lemma_joined_solid(most, sep);
        let whole = joined(parts, sep);
        assert(whole[0] == joined(most, sep)[0]);
        assert(whole.last() == parts.last().last());
    }
}

proof fn lemma_trimmed_solid(text: Seq<char>)
    ensures
        trimmed(text).len() > 0 ==> is_solid(trimmed(text)),
{
    lemma_trimmed(text);
}

proof fn lemma_article_solid(article: ArticleModel)
    ensures
        all_solid(article_blocks(article)),
{
    reveal_strlit("##### 제");
    reveal_strlit("조");
    reveal_strlit("조 (");
    reveal_strlit(")");
    let blocks = article_blocks(article);
    let markdown = markdown_text(article.content);
    lemma_trimmed_solid(markdown);
    if let Some(rest) = ArticleHeader.rest_after(markdown) {
        lemma_trimmed_solid(rest);
    }
    let heading = article_heading(article_number(article.number_raw), article.title);
    assert(heading[0] == '#');
    assert(heading.last() == '조' || heading.last() == ')');
    assert(is_solid(heading));
    assert forall|i: int| 0 <= i < blocks.len() implies is_solid(#[trigger] blocks[i]) by {}
}

proof fn lemma_articles_solid(articles: Seq<ArticleModel>)
    ensures
        all_solid(articles_blocks(articles)),
    decreases articles.len(),
{
    if articles.len() > 0 {
        lemma_articles_solid(articles.drop_last());
        lemma_article_solid(articles.last());
        let most = articles_blocks(articles.drop_last());
        let last = article_blocks(articles.last());
        let all = articles_blocks(articles);
        assert forall|i: int| 0 <= i < all.len() implies is_solid(#[trigger] all[i]) by {
            if i < most.len() {
                assert(is_solid(most[i]));
            } else {
                assert(is_solid(last[i - most.len()]));
            }
        }
    }
}

/// Each appendix text that is not blank has some text besides markup.
pub open spec fn appendix_speaks(appendix: Seq<Seq<char>>) -> bool {
    forall|i: int|
        0 <= i < appendix.len() && !all_white(#[trigger] appendix[i]) ==> markdown_text(
            appendix[i],
        ).len() > 0
}

proof fn lemma_appendices_solid(appendix: Seq<Seq<char>>)
    requires
        appendix_speaks(appendix),
    ensures
        all_solid(appendices_blocks(appendix)),
    decreases appendix.len(),
{
    if appendix.len() > 0 {
        reveal_strlit("## 부칙");
        let text = appendix.last();
        let rest = appendix.drop_last();
        assert forall|i: int| 0 <= i < rest.len() && !all_white(#[trigger] rest[i]) implies markdown_text(
            rest[i],
        ).len() > 0 by {
            assert(rest[i] == appendix[i]);
        }
        lemma_appendices_solid(rest);
        lemma_blank(text);
        lemma_markdown_text_tidy(text);
        lemma_trimmed_solid(markdown_text(text));
        let most = appendices_blocks(rest);
        let last = appendix_blocks(text);
        let all = appendices_blocks(appendix);
        assert(text == appendix[appendix.len() - 1]);
        assert(is_solid("## 부칙"@));
        assert forall|i: int| 0 <= i < all.len() implies is_solid(#[trigger] all[i]) by {
            if i < most.len() {
                assert(is_solid(most[i]));
            } else {
                assert(all[i] == last[i - most.len()]);
            }
        }
    }
}

/// The text of a body is the blocks of its articles and then those of its appendix, with an empty
/// line between each two.
pub proof fn lemma_body_blocks(body: BodyModel)
    requires
        appendix_speaks(body.appendix),
    ensures
        body_text(body) == joined(
            articles_blocks(body.articles) + appendices_blocks(body.appendix),
            "\n\n"@,
        ),
        body_text(body).len() == 0 <==> articles_blocks(body.articles).len() == 0
            && appendices_blocks(body.appendix).len() == 0,
{
    let a = articles_blocks(body.articles);
    let b = appendices_blocks(body.appendix);
    lemma_articles_solid(body.articles);
    lemma_appendices_solid(body.appendix);
    let all = a + b;
    assert forall|i: int| 0 <= i < all.len() implies is_solid(#[trigger] all[i]) by {
        if i < a.len() {
            assert(is_solid(a[i]));
        } else {
            assert(is_solid(b[i - a.len()]));
        }
    }
    if all.len() > 0 {
        lemma_joined_solid(all, "\n\n"@);
        lemma_nothing_to_trim(joined(all, "\n\n"@));
    } else {
        lemma_nothing_to_trim(joined(all, "\n\n"@));
    }
}

/// The text with more behind it, and an empty line between the two where there is a first.
pub open spec fn continued(text: Seq<char>, more: Seq<char>) -> Seq<char> {
    if text.len() == 0 {
        more
    } else {
        text + "\n\n"@ + more
    }
}

/// One more appendix text at the end of a body shows behind all that the body shows, under a heading
/// of its own. A blank one does not show.
pub proof fn lemma_one_more_appendix(body: BodyModel, text: Seq<char>)
    requires
        appendix_speaks(body.appendix.push(text)),
    ensures
        ({
            let more = BodyModel { appendix: body.appendix.push(text), ..body };
            &&& all_white(text) ==> body_text(more) == body_text(body)
            &&& !all_white(text) ==> body_text(more) == continued(
                body_text(body),
                "## 부칙"@ + "\n\n"@ + markdown_text(text),
            )
        }),
{
    let more = BodyModel { appendix: body.appendix.push(text), ..body };
    let appendix = body.appendix;
    assert forall|i: int|
        0 <= i < appendix.len() && !all_white(#[trigger] appendix[i]) implies markdown_text(
        appendix[i],
    ).len() > 0 by {
        assert(more.appendix[i] == appendix[i]);
    }
    assert(more.appendix =~= appendix + seq![text]);
    lemma_appendices_in_two(appendix, seq![text], text);
    lemma_body_blocks(body);
    lemma_body_blocks(more);
    let before = articles_blocks(body.articles) + appendices_blocks(appendix);
    let last = appendices_blocks(seq![text]);
    assert(articles_blocks(body.articles) + appendices_blocks(more.appendix) =~= before + last);
    lemma_joined_in_two(before, last, "\n\n"@);
    if !all_white(text) {
        let heading = seq!["## 부칙"@];
        let shown = seq![markdown_text(text)];
        lemma_joined_in_two(heading, shown, "\n\n"@);
        lemma_joined_in_two(shown, heading, "\n\n"@);
        assert(last =~= heading + shown);
        assert(before.len() == 0 ==> before + last =~= last);
    } else {
        assert(before + last =~= before);
    }
}

/// One more article at the end of a body without appendix shows behind all that the body shows: its
/// heading, an empty line and its text, or the one of them that it has.
pub proof fn lemma_one_more_article(body: BodyModel, article: ArticleModel)
    requires
        body.appendix.len() == 0,
    ensures
        ({
            let more = BodyModel { articles: body.articles.push(article), ..body };
            let blocks = article_blocks(article);
            &&& blocks.len() == 0 ==> body_text(more) == body_text(body)
            &&& blocks.len() == 1 ==> body_text(more) == continued(body_text(body), blocks[0])
            &&& blocks.len() == 2 ==> body_text(more) == continued(
                body_text(body),
                blocks[0] + "\n\n"@ + blocks[1],
            )
        }),
{
    let more = BodyModel { articles: body.articles.push(article), ..body };
    let blocks = article_blocks(article);
    assert(more.articles =~= body.articles + seq![article]);
    lemma_articles_in_two(body.articles, seq![article], article);
    lemma_body_blocks(body);
    lemma_body_blocks(more);
    let none = appendices_blocks(body.appendix);
    let before = articles_blocks(body.articles);
    assert(before + none =~= before);
    assert(before + blocks + none =~= before + blocks);
    lemma_joined_in_two(before, blocks, "\n\n"@);
    if blocks.len() == 0 {
        assert(before + blocks =~= before);
    } else {
        assert(before.len() == 0 ==> before + blocks =~= blocks);
        if blocks.len() == 1 {
            lemma_joined_in_two(blocks, before, "\n\n"@);
        } else if blocks.len() == 2 {
            let one = seq![blocks[0]];
            let two = seq![blocks[1]];
            assert(blocks =~= one + two);
            lemma_joined_in_two(one, two, "\n\n"@);
            lemma_joined_in_two(two, one, "\n\n"@);
        }
    }
}

} // verus!
