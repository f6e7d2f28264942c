//! Splitting extracted text into chunks ready to be embedded.

use vstd::prelude::*;
use vstd::utf8::{decode_utf8, encode_utf8, encode_utf8_decode_utf8, valid_utf8};

use crate::paths::{extension_of, extension_or_empty};

use crate::text::{
    append_chars, byte_len, byte_len_of, char_byte_width, chars_eq, chars_within, copy_range,
    from_chars, is_whitespace, is_ws, last_index_of, lemma_byte_len_bounds,
    lemma_byte_len_concat, lemma_byte_len_push, lemma_chars_within, lemma_chars_within_le,
    lemma_last_index_of, lemma_last_index_of_bound, lines, lines_of, pieces_of, split,
    split_chars, to_chars, trim, trim_chars, trim_chars_range,
};

verus! {

/// A single chunk of text ready to be embedded.
#[derive(Debug, Clone)]
pub struct Chunk {
    pub text: String,
    pub chunk_index: usize,
}

/// The texts held by a vector of strings.
pub open spec fn strings_of(v: Seq<String>) -> Seq<Seq<char>> {
    v.map_values(|s: String| s@)
}

/// The pieces trimmed, in order, with those left empty dropped.
pub open spec fn nonempty_trimmed(pieces: Seq<Seq<char>>) -> Seq<Seq<char>>
    decreases pieces.len(),
{
    if pieces.len() == 0 {
        seq![]
    } else {
        let rest = nonempty_trimmed(pieces.drop_last());
        let t = trim(pieces.last());
        if t.len() > 0 {
            rest.push(t)
        } else {
            rest
        }
    }
}

/// The separator of paragraphs: a blank line.
pub open spec fn blank_line() -> Seq<char> {
    seq!['\n', '\n']
}

/// The pieces of `text` between blank lines, untrimmed.
pub open spec fn blocks(text: Seq<char>) -> Seq<Seq<char>> {
    split(text, blank_line())
}

/// The pages of PDF text: the pieces between form feeds, trimmed, non-empty.
pub open spec fn pdf_pages(text: Seq<char>) -> Seq<Seq<char>> {
    nonempty_trimmed(split(text, seq!['\x0c']))
}

/// The paragraphs of plain text: the pieces between blank-line separators
/// (`"\n\n"`), trimmed, non-empty.
pub open spec fn paragraphs(text: Seq<char>) -> Seq<Seq<char>> {
    nonempty_trimmed(split(text, seq!['\n', '\n']))
}

/// Converts character vectors into strings.
pub fn to_strings(v: &Vec<Vec<char>>) -> (res: Vec<String>)
    ensures
        strings_of(res@) == pieces_of(v@),
{
    let mut res: Vec<String> = Vec::new();
    let mut i: usize = 0;
    while i < v.len()
        invariant
            i <= v@.len(),
            strings_of(res@) == pieces_of(v@).take(i as int),
        decreases v@.len() - i,
    {
        let s = from_chars(v[i].as_slice());
        proof {
            assert(strings_of(res@.push(s)) =~= strings_of(res@).push(s@));
            assert(pieces_of(v@).take(i + 1) =~= pieces_of(v@).take(i as int).push(v@[i as int]@));
        }
        res.push(s);
        i = i + 1;
    }
    assert(pieces_of(v@).take(i as int) =~= pieces_of(v@));
    res
}

/// Trims every piece and keeps the non-empty ones.
fn keep_nonempty_trimmed(pieces: &Vec<Vec<char>>) -> (res: Vec<Vec<char>>)
    ensures
        pieces_of(res@) == nonempty_trimmed(pieces_of(pieces@)),
{
    let mut res: Vec<Vec<char>> = Vec::new();
    let mut i: usize = 0;
    while i < pieces.len()
        invariant
            i <= pieces@.len(),
            pieces_of(res@) == nonempty_trimmed(pieces_of(pieces@).take(i as int)),
        decreases pieces@.len() - i,
    {
        let t = trim_chars(pieces[i].as_slice());
        proof {
            let pre = pieces_of(pieces@).take(i + 1);
            assert(pre.drop_last() =~= pieces_of(pieces@).take(i as int));
            assert(pre.last() == pieces@[i as int]@);
        }
        if t.len() > 0 {
            proof {
                assert(pieces_of(res@.push(t)) =~= pieces_of(res@).push(t@));
            }
            res.push(t);
        }
        i = i + 1;
    }
    assert(pieces_of(pieces@).take(i as int) =~= pieces_of(pieces@));
    res
}

/// Split PDF text on form-feed characters (page breaks).
pub fn split_pdf_pages(text: &str) -> (res: Vec<String>)
    ensures
        strings_of(res@) == pdf_pages(text@),
{
    let chars = to_chars(text);
    let sep = vec!['\x0c'];
    assert(sep@ =~= seq!['\x0c']);
    let pieces = split_chars(chars.as_slice(), sep.as_slice());
    let kept = keep_nonempty_trimmed(&pieces);
    to_strings(&kept)
}

/// Split plain text on paragraph boundaries (double newlines).
pub fn split_paragraphs(text: &str) -> (res: Vec<String>)
    ensures
        strings_of(res@) == paragraphs(text@),
{
    let chars = to_chars(text);
    let sep = vec!['\n', '\n'];
    assert(sep@ =~= seq!['\n', '\n']);
    let pieces = split_chars(chars.as_slice(), sep.as_slice());
    let kept = keep_nonempty_trimmed(&pieces);
    to_strings(&kept)
}

/// A Markdown heading line: one or more `#`, then a space (`# `, `## `,
/// `### `, ...).
pub open spec fn is_heading(line: Seq<char>) -> bool {
    exists|k: int|
        1 <= k < line.len() && #[trigger] line[k] == ' ' && forall|j: int|
            0 <= j < k ==> line[j] == '#'
}

/// `sections` with `t` appended when `t` is not empty.
pub open spec fn push_nonempty(sections: Seq<Seq<char>>, t: Seq<char>) -> Seq<Seq<char>> {
    if t.len() > 0 {
        sections.push(t)
    } else {
        sections
    }
}

/// The finished sections and the open section after reading `lines` in order:
/// a heading closes the open section (kept trimmed, when not empty) and
/// starts a new one; every line joins the open section with a newline.
pub open spec fn markdown_fold(lines: Seq<Seq<char>>) -> (Seq<Seq<char>>, Seq<char>)
    decreases lines.len(),
{
    if lines.len() == 0 {
        (seq![], seq![])
    } else {
        let (sections, current) = markdown_fold(lines.drop_last());
        let line = lines.last();
        let (sections, current) = if is_heading(line) {
            (push_nonempty(sections, trim(current)), seq![])
        } else {
            (sections, current)
        };
        (sections, current + line + seq!['\n'])
    }
}

/// The sections of Markdown text: each heading and everything until the
/// next heading, trimmed, non-empty.
pub open spec fn markdown_sections(text: Seq<char>) -> Seq<Seq<char>> {
    let (sections, current) = markdown_fold(lines(text));
    push_nonempty(sections, trim(current))
}

/// Whether `line` is a Markdown heading.
fn is_heading_exec(line: &[char]) -> (b: bool)
    ensures
        b == is_heading(line@),
{
    let mut i: usize = 0;
    while i < line.len() && line[i] == '#'
        invariant
            i <= line@.len(),
            forall|k: int| 0 <= k < i ==> line@[k] == '#',
        decreases line@.len() - i,
    {
        i = i + 1;
    }
    let b = i >= 1 && i < line.len() && line[i] == ' ';
    proof {
        if !b {
            assert forall|k: int|
                1 <= k < line@.len() && #[trigger] line@[k] == ' ' implies !(forall|j: int|
                0 <= j < k ==> line@[j] == '#') by {
                if k < i {
                } else if k > i {
                    assert(i < line@.len() && line@[i as int] != '#');
                } else {
                }
            }
        } else {
            assert(line@[i as int] == ' ');
        }
    }
    b
}

/// Pushes the trimmed `current` onto `sections` when it is not empty.
fn push_trimmed(sections: &mut Vec<Vec<char>>, current: &[char])
    ensures
        pieces_of(final(sections)@) == push_nonempty(pieces_of(old(sections)@), trim(current@)),
{
    let t = trim_chars(current);
    if t.len() > 0 {
        proof {
            assert(pieces_of(sections@.push(t)) =~= pieces_of(sections@).push(t@));
        }
        sections.push(t);
    }
}

/// Split Markdown on heading boundaries (`# `, `## `, `### `, etc.).
/// Each heading and everything until the next heading becomes one section.
pub fn split_markdown_headings(text: &str) -> (res: Vec<String>)
    ensures
        strings_of(res@) == markdown_sections(text@),
{
    let chars = to_chars(text);
    let lines = lines_of(chars.as_slice());
    let mut sections: Vec<Vec<char>> = Vec::new();
    let mut current: Vec<char> = Vec::new();
    let mut i: usize = 0;
    while i < lines.len()
        invariant
            i <= lines@.len(),
            pieces_of(lines@) == crate::text::lines(text@),
            (pieces_of(sections@), current@) == markdown_fold(pieces_of(lines@).take(i as int)),
        decreases lines@.len() - i,
    {
        let line = &lines[i];
        proof {
            let pre = pieces_of(lines@).take(i + 1);
            assert(pre.drop_last() =~= pieces_of(lines@).take(i as int));
            assert(pre.last() == lines@[i as int]@);
        }
        if is_heading_exec(line.as_slice()) {
            push_trimmed(&mut sections, current.as_slice());
            current = Vec::new();
        }
        append_chars(&mut current, line.as_slice());
        current.push('\n');
        i = i + 1;
    }
    assert(pieces_of(lines@).take(i as int) =~= pieces_of(lines@));
    push_trimmed(&mut sections, current.as_slice());
    to_strings(&sections)
}

/// The words of `s`: its maximal runs of non-whitespace characters.
pub open spec fn words(s: Seq<char>) -> Seq<Seq<char>>
    decreases s.len(),
{
    if s.len() == 0 {
        seq![]
    } else {
        let rest = words(s.drop_last());
        if is_ws(s.last()) {
            rest
        } else if s.len() >= 2 && !is_ws(s[s.len() - 2]) {
            rest.drop_last().push(rest.last().push(s.last()))
        } else {
            rest.push(seq![s.last()])
        }
    }
}

/// The parts joined with `sep` between consecutive parts.
pub open spec fn join(parts: Seq<Seq<char>>, sep: Seq<char>) -> Seq<char>
    decreases parts.len(),
{
    if parts.len() == 0 {
        seq![]
    } else if parts.len() == 1 {
        parts[0]
    } else {
        join(parts.drop_last(), sep) + sep + parts.last()
    }
}

/// A tag name ends at position `i` of `t`: at the end, at whitespace or at
/// a `/`.
pub open spec fn name_ends_at(t: Seq<char>, i: int) -> bool {
    t.len() == i || is_ws(t[i]) || t[i] == '/'
}

/// A digit of an HTML heading level.
pub open spec fn heading_digit(c: char) -> bool {
    c == '1' || c == '2' || c == '3' || c == '4' || c == '5' || c == '6'
}

/// A tag (the text between `<` and `>`) that opens or closes a paragraph
/// or a heading: `p` or `h1` to `h6`, in either case, possibly after `/`
/// and before attributes.
pub open spec fn is_break_tag(tag: Seq<char>) -> bool {
    let t = if tag.len() > 0 && tag[0] == '/' {
        tag.drop_first()
    } else {
        tag
    };
    ||| t.len() >= 1 && (t[0] == 'p' || t[0] == 'P') && name_ends_at(t, 1)
    ||| t.len() >= 2 && (t[0] == 'h' || t[0] == 'H') && heading_digit(t[1]) && name_ends_at(t, 2)
}

/// What reading HTML leaves: the finished paragraphs, the open one, whether
/// reading is inside a tag, and the tag read so far. Text outside tags is
/// kept; every `>` that does not end a paragraph or heading tag gives a
/// space; a paragraph or heading tag closes the open paragraph.
pub open spec fn html_scan(s: Seq<char>) -> (Seq<Seq<char>>, Seq<char>, bool, Seq<char>)
    decreases s.len(),
{
    if s.len() == 0 {
        (seq![], seq![], false, seq![])
    } else {
        let (done, cur, inside, tag) = html_scan(s.drop_last());
        let c = s.last();
        if c == '<' {
            (done, cur, true, seq![])
        } else if c == '>' {
            if inside && is_break_tag(tag) {
                (done.push(cur), seq![], false, seq![])
            } else {
                (done, cur.push(' '), false, seq![])
            }
        } else if inside {
            (done, cur, true, tag.push(c))
        } else {
            (done, cur.push(c), false, tag)
        }
    }
}

/// The words of `x` joined by single spaces.
pub open spec fn collapse(x: Seq<char>) -> Seq<char> {
    join(words(x), seq![' '])
}

/// The paragraphs with their whitespace collapsed, empty ones left out.
pub open spec fn collapsed_paragraphs(ps: Seq<Seq<char>>) -> Seq<Seq<char>>
    decreases ps.len(),
{
    if ps.len() == 0 {
        seq![]
    } else {
        push_nonempty(collapsed_paragraphs(ps.drop_last()), collapse(ps.last()))
    }
}

/// The paragraphs of the text content of HTML, split at paragraph and
/// heading tags, each with its words joined by single spaces.
pub open spec fn html_paragraphs(html: Seq<char>) -> Seq<Seq<char>> {
    let (done, cur, inside, tag) = html_scan(html);
    collapsed_paragraphs(done.push(cur))
}

/// The text outside `<...>` tags, with a space for every `>`; `inside`
/// says whether reading starts within a tag.
pub open spec fn untagged(s: Seq<char>, inside: bool) -> Seq<char>
    decreases s.len(),
{
    if s.len() == 0 {
        seq![]
    } else if s[0] == '<' {
        untagged(s.drop_first(), true)
    } else if s[0] == '>' {
        seq![' '] + untagged(s.drop_first(), false)
    } else if !inside {
        seq![s[0]] + untagged(s.drop_first(), inside)
    } else {
        untagged(s.drop_first(), inside)
    }
}

/// The text content of HTML: the text outside tags, with its words joined
/// by single spaces.
pub open spec fn html_text(html: Seq<char>) -> Seq<char> {
    collapse(untagged(html, false))
}

/// Joining one more part adds the separator and the part after the
/// previous join, or is the part alone.
pub proof fn lemma_join_push(parts: Seq<Seq<char>>, sep: Seq<char>, x: Seq<char>)
    ensures
        join(parts.push(x), sep) == if parts.len() == 0 {
            x
        } else {
            join(parts, sep) + sep + x
        },
{
    assert(parts.push(x).drop_last() =~= parts);
    if parts.len() == 0 {
        assert(parts.push(x)[0] == x);
    }
}

/// Whether `tag` opens or closes a paragraph or a heading.
fn is_break_tag_exec(tag: &[char]) -> (b: bool)
    ensures
        b == is_break_tag(tag@),
{
    let start: usize = if tag.len() > 0 && tag[0] == '/' {
        1
    } else {
        0
    };
    let ghost t = if tag@.len() > 0 && tag@[0] == '/' {
        tag@.drop_first()
    } else {
        tag@
    };
    assert(t =~= tag@.skip(start as int));
    let n = tag.len() - start;
    let ends1 = n == 1 || (n > 1 && (is_whitespace(tag[start + 1]) || tag[start + 1] == '/'));
    let ends2 = n == 2 || (n > 2 && (is_whitespace(tag[start + 2]) || tag[start + 2] == '/'));
    let p = n >= 1 && (tag[start] == 'p' || tag[start] == 'P') && ends1;
    let h = n >= 2 && (tag[start] == 'h' || tag[start] == 'H') && (tag[start + 1] == '1' || tag[
        start + 1] == '2' || tag[start + 1] == '3' || tag[start + 1] == '4' || tag[start + 1]
        == '5' || tag[start + 1] == '6') && ends2;
    proof {
        if n >= 1 {
            assert(t[0] == tag@[start as int]);
        }
        if n >= 2 {
            assert(t[1] == tag@[start + 1]);
        }
        if n >= 3 {
            assert(t[2] == tag@[start + 2]);
        }
    }
    p || h
}

/// Reads HTML as `html_scan` says, returning the finished paragraphs and
/// the open one.
fn scan_html(s: &[char]) -> (res: (Vec<Vec<char>>, Vec<char>))
    ensures
        pieces_of(res.0@) == html_scan(s@).0,
        res.1@ == html_scan(s@).1,
{
    let mut done: Vec<Vec<char>> = Vec::new();
    let mut cur: Vec<char> = Vec::new();
    let mut inside = false;
    let mut tag: Vec<char> = Vec::new();
    let mut i: usize = 0;
    assert(s@.take(0) =~= Seq::<char>::empty());
    while i < s.len()
        invariant
            i <= s@.len(),
            (pieces_of(done@), cur@, inside, tag@) == html_scan(s@.take(i as int)),
        decreases s@.len() - i,
    {
        let c = s[i];
        proof {
            assert(s@.take(i + 1).drop_last() =~= s@.take(i as int));
            assert(s@.take(i + 1).last() == c);
        }
        if c == '<' {
            inside = true;
            tag = Vec::new();
        } else if c == '>' {
            if inside && is_break_tag_exec(tag.as_slice()) {
                proof {
                    assert(pieces_of(done@.push(cur)) =~= pieces_of(done@).push(cur@));
                }
                done.push(cur);
                cur = Vec::new();
            } else {
                cur.push(' ');
            }
            inside = false;
            tag = Vec::new();
        } else if inside {
            tag.push(c);
        } else {
            cur.push(c);
        }
        i = i + 1;
    }
    assert(s@.take(i as int) =~= s@);
    (done, cur)
}

/// Collapses the whitespace of each paragraph and keeps the non-empty ones.
fn collapse_paragraphs(ps: &Vec<Vec<char>>) -> (res: Vec<Vec<char>>)
    ensures
        pieces_of(res@) == collapsed_paragraphs(pieces_of(ps@)),
{
    let ghost all = pieces_of(ps@);
    let mut res: Vec<Vec<char>> = Vec::new();
    let mut i: usize = 0;
    assert(all.take(0) =~= Seq::<Seq<char>>::empty());
    while i < ps.len()
        invariant
            i <= ps@.len(),
            all == pieces_of(ps@),
            pieces_of(res@) == collapsed_paragraphs(all.take(i as int)),
        decreases ps@.len() - i,
    {
        proof {
            assert(all.take(i + 1).drop_last() =~= all.take(i as int));
            assert(all.take(i + 1).last() == ps@[i as int]@);
        }
        let c = collapse_whitespace(ps[i].as_slice());
        if c.len() > 0 {
            proof {
                assert(pieces_of(res@.push(c)) =~= pieces_of(res@).push(c@));
            }
            res.push(c);
        }
        i = i + 1;
    }
    assert(all.take(i as int) =~= all);
    res
}

/// The text outside tags, with a space for every closing `>`.
fn untag(s: &[char]) -> (res: Vec<char>)
    ensures
        res@ == untagged(s@, false),
{
    let mut res: Vec<char> = Vec::new();
    let mut inside = false;
    let mut i: usize = 0;
    assert(s@.skip(0) =~= s@);
    assert(res@ + untagged(s@, false) =~= untagged(s@, false));
    while i < s.len()
        invariant
            i <= s@.len(),
            res@ + untagged(s@.skip(i as int), inside) == untagged(s@, false),
        decreases s@.len() - i,
    {
        let c = s[i];
        proof {
            assert(s@.skip(i as int).drop_first() =~= s@.skip(i + 1));
            assert(s@.skip(i as int)[0] == c);
        }
        if c == '<' {
            inside = true;
        } else if c == '>' {
            inside = false;
            proof {
                assert(res@.push(' ') + untagged(s@.skip(i + 1), false) =~= res@ + (seq![' ']
                    + untagged(s@.skip(i + 1), false)));
            }
            res.push(' ');
        } else if !inside {
            proof {
                assert(res@.push(c) + untagged(s@.skip(i + 1), inside) =~= res@ + (seq![c]
                    + untagged(s@.skip(i + 1), inside)));
            }
            res.push(c);
        }
        i = i + 1;
    }
    assert(s@.skip(i as int) =~= Seq::<char>::empty());
    assert(res@ + Seq::<char>::empty() =~= res@);
    res
}

/// The words of `s` joined by single spaces.
fn collapse_whitespace(s: &[char]) -> (res: Vec<char>)
    ensures
        res@ == join(words(s@), seq![' ']),
{
    let mut res: Vec<char> = Vec::new();
    let mut have_word = false;
    let mut in_word = false;
    let mut i: usize = 0;
    proof {
        assert(s@.take(0) =~= Seq::<char>::empty());
    }
    while i < s.len()
        invariant
            i <= s@.len(),
            res@ == join(words(s@.take(i as int)), seq![' ']),
            have_word == (words(s@.take(i as int)).len() > 0),
            in_word == (i > 0 && !is_ws(s@[i - 1])),
        decreases s@.len() - i,
    {
        let c = s[i];
        let ghost t = s@.take(i as int);
        let ghost t1 = s@.take(i + 1);
        proof {
            assert(t1.drop_last() =~= t);
            assert(t1.last() == c);
            if i > 0 {
                assert(t1[t1.len() - 2] == s@[i - 1]);
            }
        }
        if is_whitespace(c) {
            in_word = false;
        } else if in_word {
            proof {
                let rest = words(t);
                assert(rest.len() > 0);
                let p = rest.drop_last();
                lemma_join_push(p, seq![' '], rest.last());
                lemma_join_push(p, seq![' '], rest.last().push(c));
                assert(p.push(rest.last()) =~= rest);
                assert(join(p.push(rest.last().push(c)), seq![' ']) =~= res@.push(c));
            }
            res.push(c);
        } else {
            proof {
                lemma_join_push(words(t), seq![' '], seq![c]);
            }
            if have_word {
                res.push(' ');
            }
            res.push(c);
            proof {
                if words(t).len() > 0 {
                    assert(res@ =~= join(words(t), seq![' ']) + seq![' '] + seq![c]);
                } else {
                    assert(res@ =~= seq![c]);
                }
            }
            have_word = true;
            in_word = true;
        }
        i = i + 1;
    }
    assert(s@.take(i as int) =~= s@);
    res
}

/// Strip all HTML tags, leaving only the text content.
pub fn strip_html_tags(html: &str) -> (res: String)
    ensures
        res@ == html_text(html@),
{
    let chars = to_chars(html);
    let text = untag(chars.as_slice());
    let collapsed = collapse_whitespace(text.as_slice());
    from_chars(collapsed.as_slice())
}

/// Split HTML into the text of its paragraphs and headings, each with its
/// tags stripped and its whitespace collapsed into single spaces.
pub fn html_sections(html: &str) -> (res: Vec<String>)
    ensures
        strings_of(res@) == html_paragraphs(html@),
{
    let chars = to_chars(html);
    let (mut paras, cur) = scan_html(chars.as_slice());
    proof {
        assert(pieces_of(paras@.push(cur)) =~= pieces_of(paras@).push(cur@));
    }
    paras.push(cur);
    let kept = collapse_paragraphs(&paras);
    to_strings(&kept)
}

/// How many leading characters of `p` a cut may keep: those that fit in
/// `max` bytes, or the first character alone when not even it fits.
pub open spec fn hard_span(p: Seq<char>, max: nat) -> nat {
    let k = chars_within(p, max as int);
    if k == 0 && p.len() > 0 {
        1
    } else {
        k
    }
}

/// Where an oversized paragraph `p` is cut, always between characters:
/// after the last space among the characters that a cut may keep, or else
/// right after those characters.
pub open spec fn hard_cut(p: Seq<char>, max: nat) -> int {
    let k = hard_span(p, max);
    match last_index_of(p.take(k as int), ' ') {
        Some(j) => j + 1,
        None => k as int,
    }
}

/// A cut lies within the characters a cut may keep, and is past the start
/// of a non-empty paragraph.
pub proof fn lemma_hard_cut(p: Seq<char>, max: nat)
    ensures
        chars_within(p, max as int) <= p.len(),
        hard_span(p, max) <= p.len(),
        hard_cut(p, max) <= hard_span(p, max),
        p.len() > 0 ==> hard_cut(p, max) > 0,
        hard_cut(p, max) >= 0,
    decreases p.len(),
{
    let k = hard_span(p, max);
    lemma_chars_within_le(p, max as int);
    lemma_last_index_of_bound(p.take(k as int), ' ');
}

/// The pieces of a paragraph cut between characters into parts of at most
/// `max` bytes (a character wider than `max` makes a part of its own), each
/// trimmed: the paragraph is cut at `hard_cut` until what remains fits.
pub open spec fn hard_pieces(p: Seq<char>, max: nat) -> Seq<Seq<char>>
    decreases p.len(),
{
    if p.len() == 0 {
        seq![]
    } else if byte_len(p) <= max {
        seq![trim(p)]
    } else {
        let c = hard_cut(p, max);
        if 0 < c <= p.len() {
            seq![trim(p.take(c))] + hard_pieces(p.skip(c), max)
        } else {
            seq![]
        }
    }
}

/// Cuts `p` into parts of at most `max` bytes, trimmed, appended to `out`.
fn hard_split(p: &[char], max: usize, out: &mut Vec<Vec<char>>)
    ensures
        pieces_of(final(out)@) == pieces_of(old(out)@) + hard_pieces(p@, max as nat),
{
    let n = p.len();
    let mut start: usize = 0;
    assert(p@.skip(0) =~= p@);
    while start < n
        invariant
            n == p@.len(),
            start <= n,
            pieces_of(out@) + hard_pieces(p@.skip(start as int), max as nat) == pieces_of(
                old(out)@,
            ) + hard_pieces(p@, max as nat),
        decreases n - start,
    {
        let ghost q = p@.skip(start as int);
        let rest = byte_len_of(p, start, n);
        assert(p@.subrange(start as int, n as int) =~= q);
        if rest <= max as u128 {
            let t = trim_chars_range(p, start, n);
            proof {
                assert(hard_pieces(q, max as nat) == seq![trim(q)]);
                assert(p@.skip(n as int) =~= Seq::<char>::empty());
                assert(pieces_of(out@.push(t)) =~= pieces_of(out@).push(t@));
                assert(pieces_of(out@).push(t@) + hard_pieces(p@.skip(n as int), max as nat)
                    =~= pieces_of(out@) + hard_pieces(q, max as nat));
            }
            out.push(t);
            start = n;
        } else {
            let mut k: usize = start;
            let mut b: u128 = 0;
            proof {
                assert(q.take(0) =~= Seq::<char>::empty());
                assert(p@.subrange(start as int, start as int) =~= q.take(0));
            }
            while k < n && b + char_byte_width(p[k]) <= max as u128
                invariant
                    n == p@.len(),
                    start <= k <= n,
                    q == p@.skip(start as int),
                    b == byte_len(q.take(k - start)),
                    b <= max,
                decreases n - k,
            {
                proof {
                    lemma_byte_len_push(q.take(k - start), p@[k as int]);
                    assert(q.take(k - start).push(p@[k as int]) =~= q.take(k - start + 1));
                }
                b = b + char_byte_width(p[k]);
                k = k + 1;
            }
            proof {
                if k < n {
                    lemma_byte_len_push(q.take(k - start), p@[k as int]);
                    assert(q.take(k - start).push(p@[k as int]) =~= q.take(k - start + 1));
                }
                lemma_chars_within(q, max as int, k - start);
            }
            let k = if k == start {
                start + 1
            } else {
                k
            };
            let mut j: usize = k;
            while j > start && p[j - 1] != ' '
                invariant
                    start <= j <= k <= n,
                    n == p@.len(),
                    forall|m: int| j <= m < k ==> p@[m] != ' ',
                decreases j,
            {
                j = j - 1;
            }
            let cut = if j > start {
                j
            } else {
                k
            };
            proof {
                let qk = q.take(k - start);
                assert forall|m: int| j - start <= m < qk.len() implies qk[m] != ' ' by {
                    assert(qk[m] == p@[m + start]);
                }
                if j > start {
                    assert(qk[j - start - 1] == p@[j - 1]);
                }
                lemma_last_index_of(qk, ' ', j - start);
                lemma_hard_cut(q, max as nat);
                assert(hard_cut(q, max as nat) == cut - start);
                assert(q.skip(cut - start) =~= p@.skip(cut as int));
                assert(q.take(cut - start) =~= p@.subrange(start as int, cut as int));
            }
            let t = trim_chars_range(p, start, cut);
            proof {
                assert(hard_pieces(q, max as nat) == seq![trim(q.take(cut - start))] + hard_pieces(
                    q.skip(cut - start),
                    max as nat,
                ));
                assert(pieces_of(out@.push(t)) =~= pieces_of(out@).push(t@));
                assert(pieces_of(out@).push(t@) + hard_pieces(p@.skip(cut as int), max as nat)
                    =~= pieces_of(out@) + hard_pieces(q, max as nat));
            }
            out.push(t);
            start = cut;
        }
    }
    assert(p@.skip(n as int) =~= Seq::<char>::empty());
    assert(pieces_of(out@) + Seq::<Seq<char>>::empty() =~= pieces_of(out@));
}

/// `acc` and `part` joined by `sep`, or `part` alone when `acc` is empty.
pub open spec fn join_with(acc: Seq<char>, sep: Seq<char>, part: Seq<char>) -> Seq<char> {
    if acc.len() > 0 {
        acc + sep + part
    } else {
        part
    }
}

/// The separator of sentences.
pub open spec fn sentence_end() -> Seq<char> {
    seq!['.', ' ']
}

/// The pieces produced so far and the open piece after reading `parts` (the
/// pieces of a text between occurrences of `sep`) in order: parts are
/// gathered, joined by `sep`, while they fit in `max` bytes; a part that does
/// not fit closes the open piece and starts a new one, or, when it is itself
/// larger than `max`, is cut by `oversized`.
pub open spec fn gather_fold(
    parts: Seq<Seq<char>>,
    sep: Seq<char>,
    max: nat,
    oversized: spec_fn(Seq<char>) -> Seq<Seq<char>>,
) -> (Seq<Seq<char>>, Seq<char>)
    decreases parts.len(),
{
    if parts.len() == 0 {
        (seq![], seq![])
    } else {
        let (done, current) = gather_fold(parts.drop_last(), sep, max, oversized);
        let p = parts.last();
        if byte_len(current) + byte_len(p) + byte_len(sep) <= max {
            (done, join_with(current, sep, p))
        } else {
            let done = push_nonempty(done, current);
            if byte_len(p) <= max {
                (done, p)
            } else {
                (done + oversized(p), seq![])
            }
        }
    }
}

/// The gathered pieces, the open one last when it is not empty.
pub open spec fn gathered(
    parts: Seq<Seq<char>>,
    sep: Seq<char>,
    max: nat,
    oversized: spec_fn(Seq<char>) -> Seq<Seq<char>>,
) -> Seq<Seq<char>> {
    let (done, current) = gather_fold(parts, sep, max, oversized);
    push_nonempty(done, current)
}

/// The sentences of a paragraph: the pieces between occurrences of `". "`,
/// each but the last keeping its period.
pub open spec fn sentence_parts(p: Seq<char>) -> Seq<Seq<char>> {
    let ps = split(p, sentence_end());
    Seq::new(
        ps.len(),
        |i: int|
            if i + 1 < ps.len() {
                ps[i].push('.')
            } else {
                ps[i]
            },
    )
}

/// The pieces of an oversized paragraph: its sentences, regathered up to
/// `max` bytes with single spaces between them, sentences larger than `max`
/// cut by `hard_pieces`.
pub open spec fn sentence_pieces(p: Seq<char>, max: nat) -> Seq<Seq<char>> {
    gathered(sentence_parts(p), seq![' '], max, |q: Seq<char>| hard_pieces(q, max))
}

/// The pieces of an oversized section: its paragraphs (split on blank
/// lines), regathered up to `max` bytes, paragraphs larger than `max` cut by
/// `sentence_pieces`.
pub open spec fn forced_pieces(text: Seq<char>, max: nat) -> Seq<Seq<char>> {
    gathered(blocks(text), blank_line(), max, |q: Seq<char>| sentence_pieces(q, max))
}

/// A blank line takes two bytes.
pub proof fn lemma_blank_line_len()
    ensures
        byte_len(blank_line()) == 2,
{
    lemma_separator_len('\n', '\n');
}

/// A two-character separator takes two bytes.
proof fn lemma_separator_len(a: char, b: char)
    requires
        (a as u32) < 0x80,
        (b as u32) < 0x80,
    ensures
        byte_len(seq![a, b]) == 2,
{
    lemma_byte_len_push(Seq::<char>::empty(), a);
    lemma_byte_len_push(seq![a], b);
    assert(Seq::<char>::empty().push(a) =~= seq![a]);
    assert(seq![a].push(b) =~= seq![a, b]);
    assert(encode_utf8(Seq::<char>::empty()) =~= Seq::<u8>::empty());
}

/// Appends `part` to `acc` after `sep`, or sets `acc` to `part` when `acc`
/// is empty.
fn append_with(acc: &mut Vec<char>, sep: &[char], part: &[char])
    ensures
        final(acc)@ == join_with(old(acc)@, sep@, part@),
{
    if acc.len() > 0 {
        append_chars(acc, sep);
    }
    append_chars(acc, part);
}

/// The separator that gathered parts are joined with at the given level:
/// a space between sentences, a blank line between paragraphs.
pub open spec fn level_sep(sentences: bool) -> Seq<char> {
    if sentences {
        seq![' ']
    } else {
        blank_line()
    }
}

/// The parts of a text at the given level: sentences or paragraphs.
pub open spec fn level_parts(text: Seq<char>, sentences: bool) -> Seq<Seq<char>> {
    if sentences {
        sentence_parts(text)
    } else {
        blocks(text)
    }
}

/// The parts of `text` at the given level.
fn level_parts_exec(text: &[char], sentences: bool) -> (res: Vec<Vec<char>>)
    ensures
        pieces_of(res@) == level_parts(text@, sentences),
{
    if sentences {
        let sep = vec!['.', ' '];
        assert(sep@ =~= sentence_end());
        let mut parts = split_chars(text, sep.as_slice());
        let ghost ps = pieces_of(parts@);
        let n = parts.len();
        let mut res: Vec<Vec<char>> = Vec::new();
        let mut i: usize = 0;
        while i < n
            invariant
                n == parts@.len(),
                ps == split(text@, sentence_end()),
                ps.len() == n,
                forall|k: int| 0 <= k < n ==> (#[trigger] parts@[k])@ == ps[k],
                i <= n,
                pieces_of(res@) == sentence_parts(text@).take(i as int),
            decreases n - i,
        {
            let mut part = copy_range(parts[i].as_slice(), 0, parts[i].len());
            assert(parts@[i as int]@.subrange(0, parts@[i as int]@.len() as int) =~= ps[i as int]);
            if i + 1 < n {
                part.push('.');
            }
            proof {
                assert(pieces_of(res@.push(part)) =~= pieces_of(res@).push(part@));
                assert(sentence_parts(text@).take(i + 1) =~= sentence_parts(text@).take(i as int).push(
                    part@,
                ));
            }
            res.push(part);
            i = i + 1;
        }
        assert(sentence_parts(text@).take(n as int) =~= sentence_parts(text@));
        res
    } else {
        let sep = vec!['\n', '\n'];
        assert(sep@ =~= blank_line());
        split_chars(text, sep.as_slice())
    }
}

/// What to do with a part larger than `max` at the given level.
pub open spec fn oversized_at(sentences: bool, max: nat) -> spec_fn(Seq<char>) -> Seq<Seq<char>> {
    if sentences {
        |q: Seq<char>| hard_pieces(q, max)
    } else {
        |q: Seq<char>| sentence_pieces(q, max)
    }
}

/// Gathers the pieces of `text` between occurrences of `sep` as `gathered`
/// says, appending them to `out`; at the sentence level oversized parts are
/// hard-split, at the paragraph level they are split into sentences.
fn gather(text: &[char], sentences: bool, max: usize, out: &mut Vec<Vec<char>>)
    ensures
        pieces_of(final(out)@) == pieces_of(old(out)@) + gathered(
            level_parts(text@, sentences),
            level_sep(sentences),
            max as nat,
            oversized_at(sentences, max as nat),
        ),
    decreases if sentences { 0int } else { 2int },
{
    let sep = if sentences {
        vec![' ']
    } else {
        vec!['\n', '\n']
    };
    let sep_len: u128 = if sentences {
        1
    } else {
        2
    };
    let ghost gsep = level_sep(sentences);
    let ghost f = oversized_at(sentences, max as nat);
    assert(sep@ =~= gsep);
    let parts = level_parts_exec(text, sentences);
    let ghost ps = pieces_of(parts@);
    let ghost base = pieces_of(out@);
    let mut current: Vec<char> = Vec::new();
    let mut cur_len: u128 = 0;
    let mut i: usize = 0;
    proof {
        if sentences {
            lemma_byte_len_push(Seq::<char>::empty(), ' ');
            assert(Seq::<char>::empty().push(' ') =~= gsep);
            assert(encode_utf8(Seq::<char>::empty()) =~= Seq::<u8>::empty());
        } else {
            lemma_separator_len('\n', '\n');
        }
        assert(ps.take(0) =~= Seq::<Seq<char>>::empty());
        assert(encode_utf8(Seq::<char>::empty()) =~= Seq::<u8>::empty());
    }
    while i < parts.len()
        invariant
            i <= parts@.len(),
            ps == pieces_of(parts@),
            ps == level_parts(text@, sentences),
            sep@ == gsep,
            gsep == level_sep(sentences),
            f == oversized_at(sentences, max as nat),
            byte_len(gsep) == sep_len,
            sep_len <= 2,
            pieces_of(out@) == base + gather_fold(ps.take(i as int), gsep, max as nat, f).0,
            current@ == gather_fold(ps.take(i as int), gsep, max as nat, f).1,
            cur_len == byte_len(current@),
            cur_len <= max,
        decreases parts@.len() - i,
    {
        let p = &parts[i];
        let p_len = byte_len_of(p.as_slice(), 0, p.len());
        proof {
            let pre = ps.take(i + 1);
            assert(pre.drop_last() =~= ps.take(i as int));
            assert(pre.last() == p@);
            assert(p@.subrange(0, p@.len() as int) =~= p@);
            lemma_byte_len_bounds(p@);
        }
        if cur_len + p_len + sep_len <= max as u128 {
            proof {
                if current@.len() > 0 {
                    lemma_byte_len_concat(current@, gsep);
                    lemma_byte_len_concat(current@ + gsep, p@);
                }
            }
            let was_empty = current.len() == 0;
            append_with(&mut current, sep.as_slice(), p.as_slice());
            cur_len = if was_empty {
                p_len
            } else {
                cur_len + sep_len + p_len
            };
        } else {
            if current.len() > 0 {
                proof {
                    assert(pieces_of(out@.push(current)) =~= pieces_of(out@).push(current@));
                }
                out.push(current);
                current = Vec::new();
            }
            if p_len <= max as u128 {
                current = copy_range(p.as_slice(), 0, p.len());
                cur_len = p_len;
            } else {
                if sentences {
                    hard_split(p.as_slice(), max, out);
                } else {
                    split_sentences(p.as_slice(), max, out);
                }
                current = Vec::new();
                cur_len = 0;
                proof {
                    assert(encode_utf8(Seq::<char>::empty()) =~= Seq::<u8>::empty());
                }
            }
        }
        proof {
            assert(pieces_of(out@) =~= base + gather_fold(ps.take(i + 1), gsep, max as nat, f).0);
        }
        i = i + 1;
    }
    assert(ps.take(i as int) =~= ps);
    if current.len() > 0 {
        proof {
            assert(pieces_of(out@.push(current)) =~= pieces_of(out@).push(current@));
        }
        out.push(current);
    }
    proof {
        assert(pieces_of(out@) =~= base + gathered(ps, gsep, max as nat, f));
    }
}

/// Cuts the oversized paragraph `p` as `sentence_pieces` says, appending
/// the pieces to `out`.
fn split_sentences(p: &[char], max: usize, out: &mut Vec<Vec<char>>)
    ensures
        pieces_of(final(out)@) == pieces_of(old(out)@) + sentence_pieces(p@, max as nat),
    decreases 1int,
{
    gather(p, true, max, out);
}

/// Cuts `text` (in characters) as `forced_pieces` says, appending the
/// pieces to `out`.
fn force_split_chars(text: &[char], max: usize, out: &mut Vec<Vec<char>>)
    ensures
        pieces_of(final(out)@) == pieces_of(old(out)@) + forced_pieces(text@, max as nat),
{
    gather(text, false, max, out);
}

/// Force-split an oversized section: first by `\n\n`, then by `. `, then hard-split.
pub fn force_split(text: &str, max: usize) -> (res: Vec<String>)
    ensures
        strings_of(res@) == forced_pieces(text@, max as nat),
{
    let chars = to_chars(text);
    let mut out: Vec<Vec<char>> = Vec::new();
    force_split_chars(chars.as_slice(), max, &mut out);
    assert(pieces_of(Seq::<Vec<char>>::empty()) + forced_pieces(text@, max as nat) =~= forced_pieces(
        text@,
        max as nat,
    ));
    to_strings(&out)
}

/// The merged sections and the open buffer after reading `sections` in
/// order: sections are gathered in the buffer while they fit in a quarter of
/// `max` bytes; one that does not fit closes the buffer and is kept whole
/// when it fits in `max` bytes, or else cut by `forced_pieces`.
pub open spec fn merge_fold(sections: Seq<Seq<char>>, max: nat) -> (Seq<Seq<char>>, Seq<char>)
    decreases sections.len(),
{
    if sections.len() == 0 {
        (seq![], seq![])
    } else {
        let (merged, buffer) = merge_fold(sections.drop_last(), max);
        let s = sections.last();
        if byte_len(buffer) + byte_len(s) + 1 <= max / 4 {
            (merged, join_with(buffer, blank_line(), s))
        } else {
            let merged = push_nonempty(merged, buffer);
            if byte_len(s) <= max {
                (merged.push(s), seq![])
            } else {
                (merged + forced_pieces(s, max), seq![])
            }
        }
    }
}

/// Sections after merging the small ones and splitting the oversized ones.
pub open spec fn merged_sections(sections: Seq<Seq<char>>, max: nat) -> Seq<Seq<char>> {
    let (merged, buffer) = merge_fold(sections, max);
    push_nonempty(merged, buffer)
}

/// Merges and splits sections given as characters, as `merged_sections` says.
fn merge_and_split_chars(sections: &Vec<Vec<char>>, max: usize) -> (res: Vec<Vec<char>>)
    ensures
        pieces_of(res@) == merged_sections(pieces_of(sections@), max as nat),
{
    let ghost ss = pieces_of(sections@);
    let threshold = max / 4;
    let mut merged: Vec<Vec<char>> = Vec::new();
    let mut buffer: Vec<char> = Vec::new();
    let mut buf_len: u128 = 0;
    let mut i: usize = 0;
    proof {
        lemma_separator_len('\n', '\n');
        assert(ss.take(0) =~= Seq::<Seq<char>>::empty());
        assert(encode_utf8(Seq::<char>::empty()) =~= Seq::<u8>::empty());
    }
    while i < sections.len()
        invariant
            i <= sections@.len(),
            ss == pieces_of(sections@),
            threshold == max / 4,
            byte_len(seq!['\n', '\n']) == 2,
            pieces_of(merged@) == merge_fold(ss.take(i as int), max as nat).0,
            buffer@ == merge_fold(ss.take(i as int), max as nat).1,
            buf_len == byte_len(buffer@),
            buf_len <= max,
        decreases sections@.len() - i,
    {
        let sec = &sections[i];
        let s_len = byte_len_of(sec.as_slice(), 0, sec.len());
        proof {
            let pre = ss.take(i + 1);
            assert(pre.drop_last() =~= ss.take(i as int));
            assert(pre.last() == sec@);
            assert(sec@.subrange(0, sec@.len() as int) =~= sec@);
            lemma_byte_len_bounds(sec@);
        }
        if buf_len + s_len + 1 <= threshold as u128 {
            proof {
                if buffer@.len() > 0 {
                    lemma_byte_len_concat(buffer@, seq!['\n', '\n']);
                    lemma_byte_len_concat(buffer@ + seq!['\n', '\n'], sec@);
                }
            }
            let was_empty = buffer.len() == 0;
            let blank = vec!['\n', '\n'];
            append_with(&mut buffer, blank.as_slice(), sec.as_slice());
            buf_len = if was_empty {
                s_len
            } else {
                buf_len + 2 + s_len
            };
        } else {
            if buffer.len() > 0 {
                proof {
                    assert(pieces_of(merged@.push(buffer)) =~= pieces_of(merged@).push(buffer@));
                }
                merged.push(buffer);
                buffer = Vec::new();
            }
            if s_len <= max as u128 {
                let whole = copy_range(sec.as_slice(), 0, sec.len());
                proof {
                    assert(pieces_of(merged@.push(whole)) =~= pieces_of(merged@).push(whole@));
                }
                merged.push(whole);
            } else {
                force_split_chars(sec.as_slice(), max, &mut merged);
            }
            buffer = Vec::new();
            buf_len = 0;
            proof {
                assert(encode_utf8(Seq::<char>::empty()) =~= Seq::<u8>::empty());
            }
        }
        proof {
            assert(pieces_of(merged@) =~= merge_fold(ss.take(i + 1), max as nat).0);
        }
        i = i + 1;
    }
    assert(ss.take(i as int) =~= ss);
    if buffer.len() > 0 {
        proof {
            assert(pieces_of(merged@.push(buffer)) =~= pieces_of(merged@).push(buffer@));
        }
        merged.push(buffer);
    }
    merged
}

/// Converts strings into character vectors.
fn to_char_vecs(v: &Vec<String>) -> (res: Vec<Vec<char>>)
    ensures
        pieces_of(res@) == strings_of(v@),
{
    let mut res: Vec<Vec<char>> = Vec::new();
    let mut i: usize = 0;
    while i < v.len()
        invariant
            i <= v@.len(),
            pieces_of(res@) == strings_of(v@).take(i as int),
        decreases v@.len() - i,
    {
        let c = to_chars(v[i].as_str());
        proof {
            assert(pieces_of(res@.push(c)) =~= pieces_of(res@).push(c@));
            assert(strings_of(v@).take(i + 1) =~= strings_of(v@).take(i as int).push(v@[i as int]@));
        }
        res.push(c);
        i = i + 1;
    }
    assert(strings_of(v@).take(i as int) =~= strings_of(v@));
    res
}

/// Merge small consecutive sections and split oversized ones.
///
/// 1. Consecutive sections smaller than `max / 4` are merged.
/// 2. Sections exceeding `max` are split on `\n\n`, then `. `, then hard-split.
pub fn merge_and_split(sections: Vec<String>, max_chunk_chars: usize) -> (res: Vec<String>)
    ensures
        strings_of(res@) == merged_sections(strings_of(sections@), max_chunk_chars as nat),
{
    let chars = to_char_vecs(&sections);
    let merged = merge_and_split_chars(&chars, max_chunk_chars);
    to_strings(&merged)
}

/// The kinds of file that are read differently.
#[derive(Debug, Clone, Copy, PartialEq, Eq, Structural)]
pub enum FileKind {
    Pdf,
    Markdown,
    Html,
    Plain,
}

/// The kind of a file by its lowercased extension.
pub open spec fn kind_for(lower_ext: Seq<char>) -> FileKind {
    if lower_ext == seq!['p', 'd', 'f'] {
        FileKind::Pdf
    } else if lower_ext == seq!['m', 'd'] {
        FileKind::Markdown
    } else if lower_ext == seq!['h', 't', 'm', 'l'] || lower_ext == seq!['h', 't', 'm'] {
        FileKind::Html
    } else {
        FileKind::Plain
    }
}

/// Names what `str::to_lowercase` returns for a text.
pub uninterp spec fn lowercase(s: Seq<char>) -> Seq<char>;

/// All characters of `s` are ASCII.
pub open spec fn is_ascii_text(s: Seq<char>) -> bool {
    forall|i: int| 0 <= i < s.len() ==> (#[trigger] s[i] as u32) < 0x80
}

/// `c` with `A`..`Z` mapped to `a`..`z`.
pub open spec fn ascii_lower_char(c: char) -> char {
    if 'A' <= c && c <= 'Z' {
        ((c as u32) + 32) as char
    } else {
        c
    }
}

/// `s` with ASCII capitals made lowercase.
pub open spec fn ascii_lower(s: Seq<char>) -> Seq<char> {
    s.map_values(|c: char| ascii_lower_char(c))
}

/// `str::to_lowercase`; its result is named by `lowercase`. On ASCII text
/// Unicode lowercasing maps `A`..`Z` to `a`..`z` and keeps every other
/// character.
#[verifier::external_body]
fn to_lowercase(s: &str) -> (res: String)
    ensures
        res@ == lowercase(s@),
        is_ascii_text(s@) ==> res@ == ascii_lower(s@),
{
    s.to_lowercase()
}

/// The kind of the file at `path`, by its lowercased extension.
pub open spec fn kind_of(path: Seq<char>) -> FileKind {
    kind_for(lowercase(extension_or_empty(path)))
}

/// The kind of a file by its lowercased extension.
pub fn file_kind(lower_ext: &str) -> (k: FileKind)
    ensures
        k == kind_for(lower_ext@),
{
    let e = to_chars(lower_ext);
    let pdf = vec!['p', 'd', 'f'];
    let md = vec!['m', 'd'];
    let html = vec!['h', 't', 'm', 'l'];
    let htm = vec!['h', 't', 'm'];
    assert(pdf@ =~= seq!['p', 'd', 'f']);
    assert(md@ =~= seq!['m', 'd']);
    assert(html@ =~= seq!['h', 't', 'm', 'l']);
    assert(htm@ =~= seq!['h', 't', 'm']);
    if chars_eq(e.as_slice(), pdf.as_slice()) {
        FileKind::Pdf
    } else if chars_eq(e.as_slice(), md.as_slice()) {
        FileKind::Markdown
    } else if chars_eq(e.as_slice(), html.as_slice()) || chars_eq(e.as_slice(), htm.as_slice()) {
        FileKind::Html
    } else {
        FileKind::Plain
    }
}

/// The kind of the file at `path`.
pub fn path_kind(path: &str) -> (k: FileKind)
    ensures
        k == kind_of(path@),
        is_ascii_text(extension_or_empty(path@)) ==> k == kind_for(
            ascii_lower(extension_or_empty(path@)),
        ),
{
    let chars = to_chars(path);
    let e = match extension_of(chars.as_slice()) {
        Some(e) => e,
        None => Vec::new(),
    };
    assert(e@ == extension_or_empty(path@));
    let e = from_chars(e.as_slice());
    let lower = to_lowercase(e.as_str());
    file_kind(lower.as_str())
}

/// Why a file could not be read into text.
#[derive(Debug)]
pub enum ChunkError {
    /// The file is not valid UTF-8 text.
    InvalidUtf8,
    /// Text could not be extracted from the PDF; the extractor's message.
    PdfExtraction(String),
}

/// What the caller obtained for a file: its bytes, or, for a PDF, what text
/// extraction gave.
pub enum FileSource {
    /// The bytes of the file.
    Bytes(Vec<u8>),
    /// The text extracted from a PDF, or the extractor's message when it
    /// failed.
    PdfText(Result<String, String>),
}

/// `std::str::from_utf8`: the text encoded by `bytes`, when they are valid
/// UTF-8.
#[verifier::external_body]
fn utf8_str(bytes: &[u8]) -> (res: Option<&str>)
    ensures
        res is Some <==> valid_utf8(bytes@),
        res matches Some(s) ==> encode_utf8(s@) == bytes@,
{
    std::str::from_utf8(bytes).ok()
}

/// The text read from a file: the decoded bytes, or the extracted text of
/// a PDF; `None` when the bytes are not UTF-8 or extraction failed.
pub open spec fn extracted_text(source: FileSource) -> Option<Seq<char>> {
    match source {
        FileSource::Bytes(b) => if valid_utf8(b@) {
            Some(decode_utf8(b@))
        } else {
            None
        },
        FileSource::PdfText(Ok(t)) => Some(t@),
        FileSource::PdfText(Err(_)) => None,
    }
}


/// The error of a source whose text cannot be had: invalid UTF-8 for bytes,
/// the extractor's message for a PDF.
pub open spec fn source_error(source: FileSource, e: ChunkError) -> bool {
    match source {
        FileSource::Bytes(_) => e is InvalidUtf8,
        FileSource::PdfText(r) => r matches Err(m) && e matches ChunkError::PdfExtraction(
            m2,
        ) && m2@ == m@,
    }
}

/// Reads the text of a file of the given kind from what the caller obtained.
pub fn extract_text(source: &FileSource) -> (res: Result<String, ChunkError>)
    ensures
        res is Ok <==> extracted_text(*source) is Some,
        res matches Ok(t) ==> extracted_text(*source) == Some(t@),
        res matches Err(e) ==> source_error(*source, e),
{
    let text = match source {
        FileSource::PdfText(Ok(t)) => t.clone(),
        FileSource::PdfText(Err(m)) => {
            return Err(ChunkError::PdfExtraction(m.clone()));
        },
        FileSource::Bytes(b) => match utf8_str(b.as_slice()) {
            None => {
                return Err(ChunkError::InvalidUtf8);
            },
            Some(s) => {
                proof {
                    encode_utf8_decode_utf8(s@);
                }
                s.to_owned()
            },
        },
    };
    Ok(text)
}

/// The sections of text of the given kind: pages for PDF, heading sections
/// for Markdown, the text of paragraphs and headings for HTML, paragraphs
/// for anything else.
pub open spec fn sections_of(kind: FileKind, text: Seq<char>) -> Seq<Seq<char>> {
    match kind {
        FileKind::Pdf => pdf_pages(text),
        FileKind::Markdown => markdown_sections(text),
        FileKind::Html => html_paragraphs(text),
        FileKind::Plain => paragraphs(text),
    }
}

/// Splits text of the given kind into its raw sections.
pub fn split_sections(kind: FileKind, text: &str) -> (res: Vec<String>)
    ensures
        strings_of(res@) == sections_of(kind, text@),
{
    match kind {
        FileKind::Pdf => split_pdf_pages(text),
        FileKind::Markdown => split_markdown_headings(text),
        FileKind::Html => html_sections(text),
        FileKind::Plain => split_paragraphs(text),
    }
}

impl View for Chunk {
    type V = (Seq<char>, nat);

    open spec fn view(&self) -> (Seq<char>, nat) {
        (self.text@, self.chunk_index as nat)
    }
}

/// What a vector of chunks holds.
pub open spec fn chunk_views(v: Seq<Chunk>) -> Seq<(Seq<char>, nat)> {
    v.map_values(|c: Chunk| c@)
}

/// The chunks kept from the final sections: those of at least 50 bytes,
/// each with its position among all final sections.
pub open spec fn numbered_chunks(sections: Seq<Seq<char>>) -> Seq<(Seq<char>, nat)>
    decreases sections.len(),
{
    if sections.len() == 0 {
        seq![]
    } else {
        let rest = numbered_chunks(sections.drop_last());
        if byte_len(sections.last()) >= 50 {
            rest.push((sections.last(), (sections.len() - 1) as nat))
        } else {
            rest
        }
    }
}

/// Numbers the final sections and keeps those of at least 50 bytes.
pub fn number_chunks(sections: Vec<String>) -> (res: Vec<Chunk>)
    ensures
        chunk_views(res@) == numbered_chunks(strings_of(sections@)),
{
    let ghost ss = strings_of(sections@);
    let mut res: Vec<Chunk> = Vec::new();
    let mut i: usize = 0;
    while i < sections.len()
        invariant
            i <= sections@.len(),
            ss == strings_of(sections@),
            chunk_views(res@) == numbered_chunks(ss.take(i as int)),
        decreases sections@.len() - i,
    {
        let text = sections[i].clone();
        proof {
            let pre = ss.take(i + 1);
            assert(pre.drop_last() =~= ss.take(i as int));
            assert(pre.last() == text@);
        }
        let chars = to_chars(text.as_str());
        let n = byte_len_of(chars.as_slice(), 0, chars.len());
        assert(chars@.subrange(0, chars@.len() as int) =~= chars@);
        if n >= 50 {
            let c = Chunk { text, chunk_index: i };
            proof {
                assert(chunk_views(res@.push(c)) =~= chunk_views(res@).push(c@));
            }
            res.push(c);
        }
        i = i + 1;
    }
    assert(ss.take(i as int) =~= ss);
    res
}

/// The chunks of text of the given kind: its sections merged and split to
/// at most `max` bytes, then numbered and filtered.
pub open spec fn text_chunks(kind: FileKind, text: Seq<char>, max: nat) -> Seq<(Seq<char>, nat)> {
    numbered_chunks(merged_sections(sections_of(kind, text), max))
}

/// Splits text of the given kind into chunks.
pub fn chunk_text(kind: FileKind, text: &str, max_chunk_chars: usize) -> (res: Vec<Chunk>)
    ensures
        chunk_views(res@) == text_chunks(kind, text@, max_chunk_chars as nat),
{
    let raw = split_sections(kind, text);
    let merged = merge_and_split(raw, max_chunk_chars);
    number_chunks(merged)
}

/// Read a file and split it into embeddable chunks based on its type.
///
/// - `.pdf` → extract text, split on page breaks
/// - `.md`  → split on heading boundaries
/// - `.html` → strip tags, split on heading/paragraph boundaries
/// - anything else → split on paragraph boundaries
///
/// The caller reads the file (and extracts the text of a PDF) and passes
/// what it obtained as `source`.
pub fn chunk_file(path: &str, source: &FileSource, max_chunk_chars: usize) -> (res: Result<
    Vec<Chunk>,
    ChunkError,
>)
    ensures
        res is Ok <==> extracted_text(*source) is Some,
        res matches Ok(v) ==> chunk_views(v@) == text_chunks(
            kind_of(path@),
            extracted_text(*source).unwrap(),
            max_chunk_chars as nat,
        ),
        res matches Err(e) ==> source_error(*source, e),
{
    let kind = path_kind(path);
    let text = extract_text(source)?;
    Ok(chunk_text(kind, text.as_str(), max_chunk_chars))
}

} // verus!
