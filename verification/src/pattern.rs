//! Small text patterns, and the rewriting of text by them.

use vstd::prelude::*;

use crate::text::{
    all_digits, all_white, from_chars, is_ascii_digit, is_white_space, lemma_digits,
    lemma_trim_start_skips,
    push_all, to_chars, trim_start, white_space,
};

verus! {

/// A pattern that can be looked for in text.
pub trait Pattern: Sized {
    /// What is left of text behind a match at its beginning, if there is one.
    spec fn rest_after(self, s: Seq<char>) -> Option<Seq<char>>;

    /// Looks for a match that begins at an index, and returns where it ends.
    fn match_at(&self, s: &Vec<char>, at: usize) -> (r: Option<usize>)
        requires
            at < s@.len(),
        ensures
            match r {
                Some(end) => at < end <= s@.len() && self.rest_after(s@.skip(at as int)) == Some(
                    s@.skip(end as int),
                ),
                None => self.rest_after(s@.skip(at as int)) is None,
            },
    ;
}

/// `s` with every match of a pattern, found from left to right without overlaps, replaced by `rep`.
pub open spec fn rewritten<P: Pattern>(pattern: P, s: Seq<char>, rep: Seq<char>) -> Seq<char>
    decreases s.len(),
{
    if s.len() == 0 {
        Seq::empty()
    } else {
        match pattern.rest_after(s) {
            Some(rest) => if rest.len() < s.len() {
                rep + rewritten(pattern, rest, rep)
            } else {
                s
            },
            None => seq![s[0]] + rewritten(pattern, s.drop_first(), rep),
        }
    }
}

/// Replaces every match of a pattern, found from left to right without overlaps, by `rep`.
pub fn rewrite<P: Pattern>(pattern: &P, s: &Vec<char>, rep: &str) -> (r: Vec<char>)
    ensures
        r@ == rewritten(*pattern, s@, rep@),
{
    let to = to_chars(rep);
    let mut out: Vec<char> = Vec::new();
    let mut i: usize = 0;
    assert(s@.skip(0) =~= s@);
    assert(out@ + rewritten(*pattern, s@.skip(0), rep@) =~= rewritten(*pattern, s@, rep@));
    while i < s.len()
        invariant
            i <= s@.len(),
            to@ == rep@,
            rewritten(*pattern, s@, rep@) == out@ + rewritten(*pattern, s@.skip(i as int), rep@),
        decreases s@.len() - i,
    {
        let ghost before = out@;
        let ghost rest = s@.skip(i as int);
        match pattern.match_at(s, i) {
            Some(end) => {
                push_all(&mut out, &to);
                i = end;
                assert(before + (rep@ + rewritten(*pattern, s@.skip(i as int), rep@)) =~= out@
                    + rewritten(*pattern, s@.skip(i as int), rep@));
            },
            None => {
                out.push(s[i]);
                i += 1;
                assert(rest.drop_first() =~= s@.skip(i as int));
                assert(before + (seq![s@[i - 1]] + rewritten(*pattern, s@.skip(i as int), rep@))
                    =~= out@ + rewritten(*pattern, s@.skip(i as int), rep@));
            },
        }
    }
    assert(out@ + rewritten(*pattern, s@.skip(i as int), rep@) =~= out@);
    out
}

/// Where the white space that begins at an index ends.
pub fn skip_white_space(s: &Vec<char>, at: usize) -> (r: usize)
    requires
        at <= s@.len(),
    ensures
        at <= r <= s@.len(),
        trim_start(s@.skip(at as int)) == s@.skip(r as int),
        at < s@.len() && is_white_space(s@[at as int]) ==> at < r,
{
    let mut end: usize = at;
    while end < s.len() && white_space(s[end])
        invariant
            at <= end <= s@.len(),
            forall|j: int| at <= j < end ==> is_white_space(#[trigger] s@[j]),
        decreases s@.len() - end,
    {
        end += 1;
    }
    proof {
        let rest = s@.skip(at as int);
        assert forall|j: int| 0 <= j < end - at implies is_white_space(#[trigger] rest[j]) by {
            assert(is_white_space(s@[at + j]));
        }
        lemma_trim_start_skips(rest, end - at);
        assert(rest.skip(end - at) =~= s@.skip(end as int));
    }
    end
}

/// A run of white space.
pub struct Spaces;

impl Pattern for Spaces {
    open spec fn rest_after(self, s: Seq<char>) -> Option<Seq<char>> {
        if s.len() > 0 && is_white_space(s[0]) {
            Some(trim_start(s))
        } else {
            None
        }
    }

    fn match_at(&self, s: &Vec<char>, at: usize) -> (r: Option<usize>) {
        if white_space(s[at]) {
            Some(skip_white_space(s, at))
        } else {
            None
        }
    }
}

/// What is left behind the first `c` in text.
pub open spec fn past(s: Seq<char>, c: char) -> Option<Seq<char>>
    decreases s.len(),
{
    if s.len() == 0 {
        None
    } else if s[0] == c {
        Some(s.drop_first())
    } else {
        past(s.drop_first(), c)
    }
}

/// Where the first `c` from an index on ends.
pub fn find_past(s: &Vec<char>, at: usize, c: char) -> (r: Option<usize>)
    requires
        at <= s@.len(),
    ensures
        match r {
            Some(end) => at < end <= s@.len() && past(s@.skip(at as int), c) == Some(
                s@.skip(end as int),
            ),
            None => past(s@.skip(at as int), c) is None,
        },
{
    let mut i: usize = at;
    while i < s.len()
        invariant
            at <= i <= s@.len(),
            past(s@.skip(at as int), c) == past(s@.skip(i as int), c),
        decreases s@.len() - i,
    {
        assert(s@.skip(i as int).drop_first() =~= s@.skip(i + 1));
        if s[i] == c {
            return Some(i + 1);
        }
        i += 1;
    }
    None
}

/// An HTML tag: `<`, something that is not `>`, and all up to the next `>`.
pub struct Tag;

impl Pattern for Tag {
    open spec fn rest_after(self, s: Seq<char>) -> Option<Seq<char>> {
        if s.len() >= 2 && s[0] == '<' && s[1] != '>' {
            past(s.skip(2), '>')
        } else {
            None
        }
    }

    fn match_at(&self, s: &Vec<char>, at: usize) -> (r: Option<usize>) {
        let ghost rest = s@.skip(at as int);
        if s[at] == '<' && s.len() - at >= 2 && s[at + 1] != '>' {
            assert(rest.skip(2) =~= s@.skip(at + 2));
            find_past(s, at + 2, '>')
        } else {
            None
        }
    }
}

/// A `<br>` tag, in upper or lower case, with or without white space and a slash behind the name.
pub struct LineBreak;

impl Pattern for LineBreak {
    open spec fn rest_after(self, s: Seq<char>) -> Option<Seq<char>> {
        if s.len() >= 3 && s[0] == '<' && (s[1] == 'b' || s[1] == 'B') && (s[2] == 'r' || s[2]
            == 'R') {
            let inner = trim_start(s.skip(3));
            let end = if inner.len() > 0 && inner[0] == '/' {
                inner.drop_first()
            } else {
                inner
            };
            if end.len() > 0 && end[0] == '>' {
                Some(end.drop_first())
            } else {
                None
            }
        } else {
            None
        }
    }

    fn match_at(&self, s: &Vec<char>, at: usize) -> (r: Option<usize>) {
        let ghost rest = s@.skip(at as int);
        if s.len() - at >= 3 && s[at] == '<' && (s[at + 1] == 'b' || s[at + 1] == 'B') && (s[at + 2]
            == 'r' || s[at + 2] == 'R') {
            assert(rest.skip(3) =~= s@.skip(at + 3));
            let inner: usize = skip_white_space(s, at + 3);
            let end: usize = if inner < s.len() && s[inner] == '/' {
                inner + 1
            } else {
                inner
            };
            assert(inner < s@.len() ==> s@.skip(inner as int).drop_first() =~= s@.skip(inner + 1));
            assert(end < s@.len() ==> s@.skip(end as int).drop_first() =~= s@.skip(end + 1));
            if end < s.len() && s[end] == '>' {
                Some(end + 1)
            } else {
                None
            }
        } else {
            None
        }
    }
}

/// The number of newlines at the beginning of text.
pub open spec fn newline_run(s: Seq<char>) -> nat
    decreases s.len(),
{
    if s.len() > 0 && s[0] == '\n' {
        1 + newline_run(s.drop_first())
    } else {
        0
    }
}

/// Three or more newlines in a row.
pub struct BlankLines;

impl Pattern for BlankLines {
    open spec fn rest_after(self, s: Seq<char>) -> Option<Seq<char>> {
        if newline_run(s) >= 3 {
            Some(s.skip(newline_run(s) as int))
        } else {
            None
        }
    }

    fn match_at(&self, s: &Vec<char>, at: usize) -> (r: Option<usize>) {
        let ghost rest = s@.skip(at as int);
        let mut end: usize = at;
        assert(rest =~= s@.skip(at as int));
        while end < s.len() && s[end] == '\n'
            invariant
                at <= end <= s@.len(),
                rest == s@.skip(at as int),
                newline_run(rest) == end - at + newline_run(s@.skip(end as int)),
            decreases s@.len() - end,
        {
            assert(s@.skip(end as int).drop_first() =~= s@.skip(end + 1));
            end += 1;
        }
        assert(newline_run(s@.skip(end as int)) == 0);
        assert(rest.skip(end - at) =~= s@.skip(end as int));
        if end - at >= 3 {
            Some(end)
        } else {
            None
        }
    }
}

/// What `regex` says on whether a pattern matches somewhere in a text: nothing where the pattern
/// itself is not well-formed.
pub uninterp spec fn regex_matches(pattern: Seq<char>, text: Seq<char>) -> Option<bool>;

/// `regex::Regex::is_match`, on a new `regex::Regex` of the given pattern.
#[verifier::external_body]
fn regex_is_match(pattern: &str, text: &str) -> (r: Option<bool>)
    ensures
        r == regex_matches(pattern@, text@),
{
    match regex::Regex::new(pattern) {
        Ok(regex) => Some(regex.is_match(text)),
        Err(_) => None,
    }
}

/// The pattern of a text that is one decimal digit of any script.
pub const DIGIT_PATTERN: &'static str = "^\\d$";

/// A decimal digit of any script. `조`, which ends a number, is none.
pub open spec fn is_number_char(c: char) -> bool {
    if (c as u32) < 128 {
        is_ascii_digit(c)
    } else {
        c != '조' && regex_matches(DIGIT_PATTERN@, seq![c]) == Some(true)
    }
}

fn number_char(c: char) -> (r: bool)
    ensures
        r == is_number_char(c),
{
    if (c as u32) < 128 {
        '0' <= c && c <= '9'
    } else if c == '조' {
        false
    } else {
        let mut one: Vec<char> = Vec::new();
        one.push(c);
        assert(one@ =~= seq![c]);
        match regex_is_match(DIGIT_PATTERN, from_chars(&one).as_str()) {
            Some(found) => found,
            None => false,
        }
    }
}

/// `s` without the decimal digits at its beginning.
pub open spec fn past_number(s: Seq<char>) -> Seq<char>
    decreases s.len(),
{
    if s.len() > 0 && is_number_char(s[0]) {
        past_number(s.drop_first())
    } else {
        s
    }
}

/// What is left behind a group in round brackets at the beginning of text; all of it where there is
/// no such group.
pub open spec fn past_group(s: Seq<char>) -> Seq<char> {
    if s.len() > 0 && s[0] == '(' {
        match past(s.drop_first(), ')') {
            Some(rest) => rest,
            None => s,
        }
    } else {
        s
    }
}

/// The `제N조(제목) ` prefix of an article, with or without a title.
pub struct ArticleHeader;

impl Pattern for ArticleHeader {
    open spec fn rest_after(self, s: Seq<char>) -> Option<Seq<char>> {
        if s.len() >= 2 && s[0] == '제' && is_number_char(s[1]) {
            let behind = past_number(s.drop_first());
            if behind.len() > 0 && behind[0] == '조' {
                Some(trim_start(past_group(trim_start(behind.drop_first()))))
            } else {
                None
            }
        } else {
            None
        }
    }

    fn match_at(&self, s: &Vec<char>, at: usize) -> (r: Option<usize>) {
        let ghost rest = s@.skip(at as int);
        assert(rest.drop_first() =~= s@.skip(at + 1));
        if s[at] != '제' || s.len() - at < 2 || !number_char(s[at + 1]) {
            return None;
        }
        let mut i: usize = at + 1;
        while i < s.len() && number_char(s[i])
            invariant
                at < i <= s@.len(),
                past_number(s@.skip(at + 1)) == past_number(s@.skip(i as int)),
            decreases s@.len() - i,
        {
            assert(s@.skip(i as int).drop_first() =~= s@.skip(i + 1));
            i += 1;
        }
        if i == s.len() || s[i] != '조' {
            return None;
        }
        assert(s@.skip(i as int).drop_first() =~= s@.skip(i + 1));
        let mut end: usize = skip_white_space(s, i + 1);
        if end < s.len() && s[end] == '(' {
            assert(s@.skip(end as int).drop_first() =~= s@.skip(end + 1));
            if let Some(closed) = find_past(s, end + 1, ')') {
                end = closed;
            }
        }
        Some(skip_white_space(s, end))
    }
}

/// Text in which no match begins stays as it is before whatever comes.
pub proof fn lemma_rewritten_behind<P: Pattern>(pattern: P, a: Seq<char>, b: Seq<char>, rep: Seq<char>)
    requires
        forall|k: int| 0 <= k < a.len() ==> pattern.rest_after(#[trigger] (a + b).skip(k)) is None,
    ensures
        rewritten(pattern, a + b, rep) == a + rewritten(pattern, b, rep),
    decreases a.len(),
{
    if a.len() == 0 {
        assert(a + b =~= b);
        assert(a + rewritten(pattern, b, rep) =~= rewritten(pattern, b, rep));
    } else {
        let rest = a.drop_first();
        assert((a + b).skip(0) =~= a + b);
        assert forall|k: int| 0 <= k < rest.len() implies pattern.rest_after(
            #[trigger] (rest + b).skip(k),
        ) is None by {
            assert((rest + b).skip(k) =~= (a + b).skip(k + 1));
        }
        lemma_rewritten_behind(pattern, rest, b, rep);
        assert((a + b).drop_first() =~= rest + b);
        assert(seq![a[0]] + (rest + rewritten(pattern, b, rep)) =~= a + rewritten(
            pattern,
            b,
            rep,
        ));
    }
}

/// A match is replaced, and then what comes behind it.
pub proof fn lemma_rewritten_match<P: Pattern>(pattern: P, m: Seq<char>, b: Seq<char>, rep: Seq<char>)
    requires
        m.len() > 0,
        pattern.rest_after(m + b) == Some(b),
    ensures
        rewritten(pattern, m + b, rep) == rep + rewritten(pattern, b, rep),
{
}

/// The first `c` is the one that nothing but other characters stand before.
pub proof fn lemma_past_first(a: Seq<char>, c: char, b: Seq<char>)
    requires
        !a.contains(c),
    ensures
        past(a + seq![c] + b, c) == Some(b),
        past(a, c) is None,
    decreases a.len(),
{
    let all = a + seq![c] + b;
    if a.len() == 0 {
        assert(all.drop_first() =~= b);
    } else {
        let rest = a.drop_first();
        assert(a.contains(a[0]));
        if rest.contains(c) {
            let k = choose|k: int| 0 <= k < rest.len() && rest[k] == c;
            assert(a[k + 1] == c);
        }
        lemma_past_first(rest, c, b);
        assert(all.drop_first() =~= rest + seq![c] + b);
    }
}

/// A tag is `<`, at least one character, and all up to the next `>`. It is replaced as a whole, and
/// the text before it stays.
pub proof fn lemma_tag_replaced(a: Seq<char>, inner: Seq<char>, b: Seq<char>, rep: Seq<char>)
    requires
        !a.contains('<'),
        inner.len() > 0,
        !inner.contains('>'),
    ensures
        rewritten(Tag, a + (seq!['<'] + inner + seq!['>'] + b), rep) == a + (rep + rewritten(
            Tag,
            b,
            rep,
        )),
{
    let m = seq!['<'] + inner + seq!['>'];
    let rest = inner.drop_first();
    assert(inner.contains(inner[0]));
    if rest.contains('>') {
        let k = choose|k: int| 0 <= k < rest.len() && rest[k] == '>';
        assert(inner[k + 1] == '>');
    }
    lemma_past_first(rest, '>', b);
    assert((m + b).skip(2) =~= rest + seq!['>'] + b);
    assert(Tag.rest_after(m + b) == Some(b));
    lemma_rewritten_match(Tag, m, b, rep);
    assert forall|k: int| 0 <= k < a.len() implies Tag.rest_after(#[trigger] (a + (m + b)).skip(k)) is None by {
        assert(a.contains(a[k]));
        assert((a + (m + b)).skip(k)[0] == a[k]);
    }
    lemma_rewritten_behind(Tag, a, m + b, rep);
}

/// Where no `>` comes any more there is no tag, and `<>` is none.
pub proof fn lemma_no_tags(a: Seq<char>, b: Seq<char>, rep: Seq<char>)
    requires
        !a.contains('<'),
    ensures
        !b.contains('>') ==> rewritten(Tag, b, rep) == b,
        rewritten(Tag, a + (seq!['<', '>'] + b), rep) == a + (seq!['<', '>'] + rewritten(
            Tag,
            b,
            rep,
        )),
{
    if !b.contains('>') {
        let none = Seq::<char>::empty();
        assert forall|k: int| 0 <= k < b.len() implies Tag.rest_after(#[trigger] (b + none).skip(k)) is None by {
            let t = (b + none).skip(k);
            if t.len() >= 2 {
                if t.skip(2).contains('>') {
                    let j = choose|j: int| 0 <= j < t.skip(2).len() && t.skip(2)[j] == '>';
                    assert(b[k + 2 + j] == '>');
                }
                lemma_past_first(t.skip(2), '>', none);
            }
        }
        lemma_rewritten_behind(Tag, b, none, rep);
        assert(b + none =~= b);
        assert(b + rewritten(Tag, none, rep) =~= b);
    }
    let m = a + seq!['<', '>'];
    assert forall|k: int| 0 <= k < m.len() implies Tag.rest_after(#[trigger] (m + b).skip(k)) is None by {
        if k < a.len() {
            assert(a.contains(a[k]));
        }
        assert((m + b).skip(k)[0] == m[k]);
        if k == a.len() {
            assert((m + b).skip(k)[1] == '>');
        }
    }
    lemma_rewritten_behind(Tag, m, b, rep);
    assert(m + b =~= a + (seq!['<', '>'] + b));
    assert(m + rewritten(Tag, b, rep) =~= a + (seq!['<', '>'] + rewritten(Tag, b, rep)));
}

/// A line break is `<br`, in upper or lower case, white space, a slash or none, and `>`. It is
/// replaced as a whole, and the text before it stays.
pub proof fn lemma_line_break_replaced(
    a: Seq<char>,
    letters: Seq<char>,
    space: Seq<char>,
    slash: bool,
    b: Seq<char>,
    rep: Seq<char>,
)
    requires
        !a.contains('<'),
        letters == seq!['b', 'r'] || letters == seq!['B', 'r'] || letters == seq!['b', 'R']
            || letters == seq!['B', 'R'],
        all_white(space),
    ensures
        ({
            let end = if slash {
                seq!['/', '>']
            } else {
                seq!['>']
            };
            rewritten(LineBreak, a + (seq!['<'] + letters + space + end + b), rep) == a + (rep
                + rewritten(LineBreak, b, rep))
        }),
{
    let end = if slash {
        seq!['/', '>']
    } else {
        seq!['>']
    };
    let m = seq!['<'] + letters + space + end;
    let tail = (m + b).skip(3);
    assert(tail =~= space + (end + b));
    lemma_trim_start_skips(tail, space.len() as int);
    assert(tail.skip(space.len() as int) =~= end + b);
    assert((end + b).drop_first() =~= if slash {
        seq!['>'] + b
    } else {
        b
    });
    assert((seq!['>'] + b).drop_first() =~= b);
    assert(LineBreak.rest_after(m + b) == Some(b));
    lemma_rewritten_match(LineBreak, m, b, rep);
    assert forall|k: int| 0 <= k < a.len() implies LineBreak.rest_after(
        #[trigger] (a + (m + b)).skip(k),
    ) is None by {
        assert(a.contains(a[k]));
        assert((a + (m + b)).skip(k)[0] == a[k]);
    }
    lemma_rewritten_behind(LineBreak, a, m + b, rep);
}

/// As many newlines in a row.
pub open spec fn newlines(n: nat) -> Seq<char> {
    Seq::new(n, |i: int| '\n')
}

proof fn lemma_newline_count(n: nat, b: Seq<char>)
    requires
        b.len() > 0 ==> b[0] != '\n',
    ensures
        newline_run(newlines(n) + b) == n,
    decreases n,
{
    let all = newlines(n) + b;
    if n == 0 {
        assert(all =~= b);
    } else {
        lemma_newline_count((n - 1) as nat, b);
        assert(all.drop_first() =~= newlines((n - 1) as nat) + b);
    }
}

/// Three newlines in a row or more are replaced as a whole. Fewer stay.
pub proof fn lemma_blank_lines_replaced(a: Seq<char>, n: nat, b: Seq<char>, rep: Seq<char>)
    requires
        !a.contains('\n'),
        b.len() > 0 ==> b[0] != '\n',
    ensures
        rewritten(BlankLines, a + (newlines(n) + b), rep) == a + ((if n >= 3 {
            rep
        } else {
            newlines(n)
        }) + rewritten(BlankLines, b, rep)),
{
    let m = newlines(n);
    lemma_newline_count(n, b);
    assert forall|k: int| 0 <= k < a.len() implies BlankLines.rest_after(
        #[trigger] (a + (m + b)).skip(k),
    ) is None by {
        assert(a.contains(a[k]));
        assert((a + (m + b)).skip(k)[0] == a[k]);
    }
    lemma_rewritten_behind(BlankLines, a, m + b, rep);
    if n >= 3 {
        assert((m + b).skip(n as int) =~= b);
        lemma_rewritten_match(BlankLines, m, b, rep);
    } else {
        assert forall|k: int| 0 <= k < m.len() implies BlankLines.rest_after(
            #[trigger] (m + b).skip(k),
        ) is None by {
            lemma_newline_count((n - k) as nat, b);
            assert((m + b).skip(k) =~= newlines((n - k) as nat) + b);
        }
        lemma_rewritten_behind(BlankLines, m, b, rep);
    }
}

/// A run of white space is replaced as a whole, and text without white space before it stays.
pub proof fn lemma_spaces_replaced(a: Seq<char>, space: Seq<char>, b: Seq<char>, rep: Seq<char>)
    requires
        forall|i: int| 0 <= i < a.len() ==> !is_white_space(#[trigger] a[i]),
        space.len() > 0,
        all_white(space),
        b.len() > 0 ==> !is_white_space(b[0]),
    ensures
        rewritten(Spaces, a + (space + b), rep) == a + (rep + rewritten(Spaces, b, rep)),
        rewritten(Spaces, a, rep) == a,
{
    let all = space + b;
    lemma_trim_start_skips(all, space.len() as int);
    assert(all.skip(space.len() as int) =~= b);
    assert(is_white_space(space[0]));
    lemma_rewritten_match(Spaces, space, b, rep);
    assert forall|k: int| 0 <= k < a.len() implies Spaces.rest_after(#[trigger] (a + all).skip(k)) is None by {
        assert((a + all).skip(k)[0] == a[k]);
    }
    lemma_rewritten_behind(Spaces, a, all, rep);
    let none = Seq::<char>::empty();
    assert forall|k: int| 0 <= k < a.len() implies Spaces.rest_after(
        #[trigger] (a + none).skip(k),
    ) is None by {
        assert((a + none).skip(k)[0] == a[k]);
    }
    lemma_rewritten_behind(Spaces, a, none, rep);
    assert(a + none =~= a);
    assert(a + rewritten(Spaces, none, rep) =~= a);
}

proof fn lemma_past_digits(digits: Seq<char>, b: Seq<char>)
    requires
        all_digits(digits),
        b.len() > 0 ==> !is_number_char(b[0]),
    ensures
        past_number(digits + b) == b,
    decreases digits.len(),
{
    let all = digits + b;
    if digits.len() == 0 {
        assert(all =~= b);
    } else {
        let rest = digits.drop_first();
        assert(is_ascii_digit(digits[0]));
        assert forall|i: int| 0 <= i < rest.len() implies is_ascii_digit(#[trigger] rest[i]) by {
            assert(is_ascii_digit(digits[i + 1]));
        }
        lemma_past_digits(rest, b);
        assert(all.drop_first() =~= rest + b);
    }
}

/// The header of an article is `제`, a number, `조`, white space, a title in round brackets or none,
/// and white space. What stands behind it is left.
pub proof fn lemma_header_taken(
    number: Seq<char>,
    space: Seq<char>,
    title: Option<Seq<char>>,
    more_space: Seq<char>,
    rest: Seq<char>,
)
    requires
        number.len() > 0,
        all_digits(number),
        all_white(space),
        title matches Some(text) ==> !text.contains(')'),
        all_white(more_space),
        rest.len() > 0 ==> !is_white_space(rest[0]),
        title is None ==> (rest.len() > 0 && rest[0] == '(' ==> !rest.contains(')')),
    ensures
        ({
            let group = match title {
                Some(text) => seq!['('] + text + seq![')'],
                None => Seq::empty(),
            };
            ArticleHeader.rest_after(
                seq!['제'] + number + seq!['조'] + space + group + more_space + rest,
            ) == Some(rest)
        }),
{
    let group = match title {
        Some(text) => seq!['('] + text + seq![')'],
        None => Seq::empty(),
    };
    let s = seq!['제'] + number + seq!['조'] + space + group + more_space + rest;
    let behind = seq!['조'] + (space + (group + (more_space + rest)));
    assert(is_ascii_digit(number[0]));
    assert(s.drop_first() =~= number + behind);
    lemma_past_digits(number, behind);
    assert(behind.drop_first() =~= space + (group + (more_space + rest)));
    lemma_trim_start_skips(more_space + rest, more_space.len() as int);
    assert((more_space + rest).skip(more_space.len() as int) =~= rest);
    match title {
        Some(text) => {
            let inner = group + (more_space + rest);
            lemma_trim_start_skips(space + inner, space.len() as int);
            assert((space + inner).skip(space.len() as int) =~= inner);
            assert(inner.drop_first() =~= text + seq![')'] + (more_space + rest));
            lemma_past_first(text, ')', more_space + rest);
        },
        None => {
            let white = space + more_space;
            assert(behind.drop_first() =~= white + rest);
            lemma_trim_start_skips(white + rest, white.len() as int);
            assert((white + rest).skip(white.len() as int) =~= rest);
            if rest.len() > 0 && rest[0] == '(' {
                let inner = rest.drop_first();
                if inner.contains(')') {
                    let k = choose|k: int| 0 <= k < inner.len() && inner[k] == ')';
                    assert(rest[k + 1] == ')');
                }
                lemma_past_first(inner, ')', Seq::empty());
            }
            assert(past_group(rest) == rest);
            lemma_trim_start_skips(rest, 0);
            assert(rest.skip(0) =~= rest);
        },
    }
}

/// Text that does not begin with `제` and a number, and a number behind which no `조` stands, have
/// no header.
pub proof fn lemma_no_header(s: Seq<char>, number: Seq<char>, rest: Seq<char>)
    requires
        all_digits(number),
        rest.len() > 0 ==> rest[0] != '조' && (rest[0] as u32) < 128 && !is_ascii_digit(rest[0]),
    ensures
        s.len() == 0 || s[0] != '제' ==> ArticleHeader.rest_after(s) is None,
        ArticleHeader.rest_after(seq!['제'] + number + rest) is None,
{
    let whole = seq!['제'] + number + rest;
    assert(whole.drop_first() =~= number + rest);
    lemma_past_digits(number, rest);
}

/// Which characters make up the number of a header: of ASCII the ten digits, and of the others what
/// the pattern for one decimal digit matches, but never `조`.
pub proof fn lemma_number_chars(c: char)
    ensures
        (c as u32) < 128 ==> (is_number_char(c) <==> "0123456789"@.contains(c)),
        (c as u32) >= 128 && c != '조' ==> (is_number_char(c) <==> regex_matches(
            "^\\d$"@,
            seq![c],
        ) == Some(true)),
        !is_number_char('조'),
{
    lemma_digits(0, c);
}

} // verus!
