//! What chunking promises of every input: no piece is larger than the
//! limit unless it is a single character wider than the limit, no text
//! other than whitespace is lost, and the kept chunks are numbered in order.

use vstd::prelude::*;

use crate::chunker::{
    blank_line, blocks, collapsed_paragraphs, forced_pieces, gather_fold, gathered, hard_cut,
    hard_pieces, html_paragraphs, html_text, untagged, is_heading, join, lemma_hard_cut, markdown_fold,
    merge_fold, merged_sections, nonempty_trimmed, numbered_chunks, push_nonempty, sections_of,
    sentence_end, sentence_parts, sentence_pieces, text_chunks, words, FileKind,
};
use crate::text::{
    byte_len, chars_within, find_from, is_ws, lemma_byte_len_concat, lemma_byte_len_push, matches_at,
    lemma_byte_len_take_mono, lemma_find_from, lemma_split_from_nonempty, split, split_from, trim,
    trim_end, trim_start,
};

verus! {

/// Every piece takes at most `max` bytes, or is a single character that
/// alone takes more.
pub open spec fn all_within(pieces: Seq<Seq<char>>, max: nat) -> bool {
    forall|i: int|
        0 <= i < pieces.len() ==> byte_len(#[trigger] pieces[i]) <= max || pieces[i].len() <= 1
}

/// Trimming never adds characters.
proof fn lemma_trim_len(s: Seq<char>)
    ensures
        trim(s).len() <= s.len(),
{
    lemma_trim_start_len(s);
    lemma_trim_end_len(trim_start(s));
}

proof fn lemma_trim_start_len(s: Seq<char>)
    ensures
        trim_start(s).len() <= s.len(),
    decreases s.len(),
{
    if s.len() > 0 && crate::text::is_ws(s[0]) {
        lemma_trim_start_len(s.drop_first());
    }
}

proof fn lemma_trim_end_len(s: Seq<char>)
    ensures
        trim_end(s).len() <= s.len(),
    decreases s.len(),
{
    if s.len() > 0 && crate::text::is_ws(s.last()) {
        lemma_trim_end_len(s.drop_last());
    }
}

/// Dropping the first character never adds bytes.
proof fn lemma_byte_len_drop_first(s: Seq<char>)
    requires
        s.len() > 0,
    ensures
        byte_len(s.drop_first()) <= byte_len(s),
{
    lemma_byte_len_concat(seq![s[0]], s.drop_first());
    assert(seq![s[0]] + s.drop_first() =~= s);
}

/// Dropping the last character never adds bytes.
proof fn lemma_byte_len_drop_last(s: Seq<char>)
    requires
        s.len() > 0,
    ensures
        byte_len(s.drop_last()) <= byte_len(s),
{
    lemma_byte_len_push(s.drop_last(), s.last());
    assert(s.drop_last().push(s.last()) =~= s);
}

/// Trimming never adds bytes.
pub proof fn lemma_trim_byte_len(s: Seq<char>)
    ensures
        byte_len(trim(s)) <= byte_len(s),
{
    lemma_trim_start_byte_len(s);
    lemma_trim_end_byte_len(trim_start(s));
}

proof fn lemma_trim_start_byte_len(s: Seq<char>)
    ensures
        byte_len(trim_start(s)) <= byte_len(s),
    decreases s.len(),
{
    if s.len() > 0 && crate::text::is_ws(s[0]) {
        lemma_byte_len_drop_first(s);
        lemma_trim_start_byte_len(s.drop_first());
    }
}

proof fn lemma_trim_end_byte_len(s: Seq<char>)
    ensures
        byte_len(trim_end(s)) <= byte_len(s),
    decreases s.len(),
{
    if s.len() > 0 && crate::text::is_ws(s.last()) {
        lemma_byte_len_drop_last(s);
        lemma_trim_end_byte_len(s.drop_last());
    }
}

/// The characters that `chars_within` counts fit in the limit.
proof fn lemma_chars_within_fits(s: Seq<char>, limit: int)
    requires
        limit >= 0,
    ensures
        byte_len(s.take(chars_within(s, limit) as int)) <= limit,
    decreases s.len(),
{
    if s.len() == 0 {
        assert(s.take(0) =~= s);
    } else if byte_len(s) <= limit {
        assert(s.take(s.len() as int) =~= s);
    } else {
        let t = s.drop_last();
        lemma_chars_within_fits(t, limit);
        crate::text::lemma_chars_within_le(t, limit);
        assert(t.take(chars_within(t, limit) as int) =~= s.take(chars_within(t, limit) as int));
    }
}

/// Appending one piece within the limit keeps all pieces within it.
proof fn lemma_all_within_push(ps: Seq<Seq<char>>, x: Seq<char>, max: nat)
    requires
        all_within(ps, max),
        byte_len(x) <= max || x.len() <= 1,
    ensures
        all_within(ps.push(x), max),
{
    assert forall|i: int| 0 <= i < ps.push(x).len() implies byte_len(#[trigger] ps.push(x)[i])
        <= max || ps.push(x)[i].len() <= 1 by {
        if i < ps.len() {
            assert(ps.push(x)[i] == ps[i]);
        }
    }
}

/// Concatenating pieces within the limit keeps all pieces within it.
proof fn lemma_all_within_concat(a: Seq<Seq<char>>, b: Seq<Seq<char>>, max: nat)
    requires
        all_within(a, max),
        all_within(b, max),
    ensures
        all_within(a + b, max),
{
    assert forall|i: int| 0 <= i < (a + b).len() implies byte_len(#[trigger] (a + b)[i]) <= max
        || (a + b)[i].len() <= 1 by {
        if i < a.len() {
            assert((a + b)[i] == a[i]);
        } else {
            assert((a + b)[i] == b[i - a.len()]);
        }
    }
}

/// A hard split yields pieces of at most `max` bytes, or of one character.
pub proof fn lemma_hard_pieces_within(p: Seq<char>, max: nat)
    ensures
        all_within(hard_pieces(p, max), max),
    decreases p.len(),
{
    if p.len() == 0 {
    } else if byte_len(p) <= max {
        lemma_trim_byte_len(p);
        lemma_all_within_push(Seq::<Seq<char>>::empty(), trim(p), max);
        assert(Seq::<Seq<char>>::empty().push(trim(p)) =~= seq![trim(p)]);
    } else {
        let c = hard_cut(p, max);
        if 0 < c <= p.len() {
            let k = chars_within(p, max as int);
            lemma_hard_cut(p, max);
            lemma_chars_within_fits(p, max as int);
            if k > 0 {
                lemma_byte_len_take_mono(p, c, k as int);
            } else {
                lemma_trim_len(p.take(c));
            }
            lemma_trim_byte_len(p.take(c));
            lemma_hard_pieces_within(p.skip(c), max);
            lemma_all_within_push(Seq::<Seq<char>>::empty(), trim(p.take(c)), max);
            assert(Seq::<Seq<char>>::empty().push(trim(p.take(c))) =~= seq![trim(p.take(c))]);
            lemma_all_within_concat(seq![trim(p.take(c))], hard_pieces(p.skip(c), max), max);
        }
    }
}

/// Gathering keeps every piece within `max` bytes when cutting the oversized
/// parts does.
proof fn lemma_gather_fold_within(
    parts: Seq<Seq<char>>,
    sep: Seq<char>,
    max: nat,
    oversized: spec_fn(Seq<char>) -> Seq<Seq<char>>,
)
    requires
        forall|q: Seq<char>| byte_len(q) > max ==> all_within(#[trigger] oversized(q), max),
    ensures
        all_within(gather_fold(parts, sep, max, oversized).0, max),
        byte_len(gather_fold(parts, sep, max, oversized).1) <= max,
    decreases parts.len(),
{
    if parts.len() == 0 {
        assert(byte_len(Seq::<char>::empty()) == 0) by {
            assert(vstd::utf8::encode_utf8(Seq::<char>::empty()) =~= Seq::<u8>::empty());
        }
    } else {
        lemma_gather_fold_within(parts.drop_last(), sep, max, oversized);
        let (done, current) = gather_fold(parts.drop_last(), sep, max, oversized);
        let p = parts.last();
        if byte_len(current) + byte_len(p) + byte_len(sep) <= max {
            if current.len() > 0 {
                lemma_byte_len_concat(current, sep);
                lemma_byte_len_concat(current + sep, p);
            }
        } else {
            if current.len() > 0 {
                lemma_all_within_push(done, current, max);
            }
            let done2 = push_nonempty(done, current);
            if byte_len(p) > max {
                lemma_all_within_concat(done2, oversized(p), max);
                assert(byte_len(Seq::<char>::empty()) == 0) by {
                    assert(vstd::utf8::encode_utf8(Seq::<char>::empty()) =~= Seq::<u8>::empty());
                }
            }
        }
    }
}

/// Gathered pieces are within `max` bytes when cutting the oversized parts
/// yields pieces within it.
proof fn lemma_gathered_within(
    parts: Seq<Seq<char>>,
    sep: Seq<char>,
    max: nat,
    oversized: spec_fn(Seq<char>) -> Seq<Seq<char>>,
)
    requires
        forall|q: Seq<char>| byte_len(q) > max ==> all_within(#[trigger] oversized(q), max),
    ensures
        all_within(gathered(parts, sep, max, oversized), max),
{
    lemma_gather_fold_within(parts, sep, max, oversized);
    let (done, current) = gather_fold(parts, sep, max, oversized);
    if current.len() > 0 {
        lemma_all_within_push(done, current, max);
    }
}

/// The pieces of an oversized paragraph are within `max` bytes.
pub proof fn lemma_sentence_pieces_within(p: Seq<char>, max: nat)
    ensures
        all_within(sentence_pieces(p, max), max),
{
    let f = |q: Seq<char>| hard_pieces(q, max);
    assert forall|q: Seq<char>| byte_len(q) > max implies all_within(#[trigger] f(q), max) by {
        lemma_hard_pieces_within(q, max);
    }
    lemma_gathered_within(crate::chunker::sentence_parts(p), seq![' '], max, f);
}

/// Force-splitting a section yields pieces of at most `max` bytes, or of
/// one character.
pub proof fn lemma_forced_pieces_within(text: Seq<char>, max: nat)
    ensures
        all_within(forced_pieces(text, max), max),
{
    let f = |q: Seq<char>| sentence_pieces(q, max);
    assert forall|q: Seq<char>| byte_len(q) > max implies all_within(#[trigger] f(q), max) by {
        lemma_sentence_pieces_within(q, max);
    }
    lemma_gathered_within(crate::chunker::blocks(text), crate::chunker::blank_line(), max, f);
}

/// Merging and splitting yields sections of at most `max` bytes, or of a
/// single character wider than `max`: sections exceeding `max` are split,
/// and merged ones stay within it.
pub proof fn lemma_merged_sections_within(sections: Seq<Seq<char>>, max: nat)
    ensures
        all_within(merged_sections(sections, max), max),
{
    lemma_merge_fold_within(sections, max);
    let (merged, buffer) = merge_fold(sections, max);
    if buffer.len() > 0 {
        lemma_all_within_push(merged, buffer, max);
    }
}

/// With room for any character (`max` of at least four bytes), every
/// merged section takes at most `max` bytes.
pub proof fn lemma_merged_sections_bounded(sections: Seq<Seq<char>>, max: nat)
    requires
        max >= 4,
    ensures
        forall|i: int|
            0 <= i < merged_sections(sections, max).len() ==> byte_len(
                #[trigger] merged_sections(sections, max)[i],
            ) <= max,
{
    lemma_merged_sections_within(sections, max);
    assert forall|i: int| 0 <= i < merged_sections(sections, max).len() implies byte_len(
        #[trigger] merged_sections(sections, max)[i],
    ) <= max by {
        crate::text::lemma_byte_len_bounds(merged_sections(sections, max)[i]);
    }
}

proof fn lemma_merge_fold_within(sections: Seq<Seq<char>>, max: nat)
    ensures
        all_within(merge_fold(sections, max).0, max),
        byte_len(merge_fold(sections, max).1) <= max / 4 + 1,
        byte_len(merge_fold(sections, max).1) <= max,
    decreases sections.len(),
{
    assert(byte_len(Seq::<char>::empty()) == 0) by {
        assert(vstd::utf8::encode_utf8(Seq::<char>::empty()) =~= Seq::<u8>::empty());
    }
    if sections.len() > 0 {
        lemma_merge_fold_within(sections.drop_last(), max);
        let (merged, buffer) = merge_fold(sections.drop_last(), max);
        let s = sections.last();
        if byte_len(buffer) + byte_len(s) + 1 <= max / 4 {
            if buffer.len() > 0 {
                lemma_byte_len_concat(buffer, crate::chunker::blank_line());
                lemma_byte_len_concat(buffer + crate::chunker::blank_line(), s);
                crate::chunker::lemma_blank_line_len();
            }
        } else {
            if buffer.len() > 0 {
                lemma_all_within_push(merged, buffer, max);
            }
            let m2 = push_nonempty(merged, buffer);
            if byte_len(s) <= max {
                lemma_all_within_push(m2, s, max);
            } else {
                lemma_forced_pieces_within(s, max);
                lemma_all_within_concat(m2, forced_pieces(s, max), max);
            }
        }
    }
}

/// The kept chunks are the final sections of at least 50 bytes, each
/// numbered by its position among the final sections, in increasing order.
pub proof fn lemma_numbered_chunks(sections: Seq<Seq<char>>)
    ensures
        forall|j: int|
            0 <= j < numbered_chunks(sections).len() ==> {
                let c = #[trigger] numbered_chunks(sections)[j];
                &&& 0 <= c.1 < sections.len()
                &&& sections[c.1 as int] == c.0
                &&& byte_len(c.0) >= 50
            },
        forall|j: int, k: int|
            0 <= j < k < numbered_chunks(sections).len() ==> (#[trigger] numbered_chunks(
                sections,
            )[j]).1 < (#[trigger] numbered_chunks(sections)[k]).1,
        forall|i: int|
            0 <= i < sections.len() && byte_len(#[trigger] sections[i]) >= 50 ==> exists|j: int|
                0 <= j < numbered_chunks(sections).len() && (#[trigger] numbered_chunks(
                    sections,
                )[j]).1 == i,
    decreases sections.len(),
{
    if sections.len() > 0 {
        let t = sections.drop_last();
        lemma_numbered_chunks(t);
        let rest = numbered_chunks(t);
        let n = numbered_chunks(sections);
        let last = sections.last();
        if byte_len(last) >= 50 {
            assert(n == rest.push((last, (sections.len() - 1) as nat)));
        } else {
            assert(n == rest);
        }
        assert forall|j: int| 0 <= j < n.len() implies {
            let c = #[trigger] n[j];
            &&& 0 <= c.1 < sections.len()
            &&& sections[c.1 as int] == c.0
            &&& byte_len(c.0) >= 50
        } by {
            if j < rest.len() {
                assert(n[j] == rest[j]);
                assert(sections[rest[j].1 as int] == t[rest[j].1 as int]);
            } else {
                assert(n[j] == (last, (sections.len() - 1) as nat));
            }
        }
        assert forall|j: int, k: int| 0 <= j < k < n.len() implies (#[trigger] n[j]).1 < (
        #[trigger] n[k]).1 by {
            assert(n[j] == rest[j]);
            assert(0 <= rest[j].1 < t.len());
            if k < rest.len() {
                assert(n[k] == rest[k]);
            } else {
                assert(n[k] == (last, (sections.len() - 1) as nat));
            }
        }
        assert forall|i: int|
            0 <= i < sections.len() && byte_len(#[trigger] sections[i]) >= 50 implies exists|j: int|
            0 <= j < n.len() && (#[trigger] n[j]).1 == i by {
            if i < t.len() {
                assert(t[i] == sections[i]);
                let j = choose|j: int| 0 <= j < rest.len() && (#[trigger] rest[j]).1 == i;
                assert(n[j] == rest[j]);
            } else {
                assert(n[n.len() - 1].1 == i);
            }
        }
    }
}

/// Every chunk of a file's text takes between 50 and `max` bytes, and the
/// chunks come in the order of their numbers.
pub proof fn lemma_text_chunks_sizes(kind: FileKind, text: Seq<char>, max: nat)
    ensures
        forall|j: int|
            0 <= j < text_chunks(kind, text, max).len() ==> 50 <= byte_len(
                (#[trigger] text_chunks(kind, text, max)[j]).0,
            ) <= max,
        forall|j: int, k: int|
            0 <= j < k < text_chunks(kind, text, max).len() ==> (#[trigger] text_chunks(
                kind,
                text,
                max,
            )[j]).1 < (#[trigger] text_chunks(kind, text, max)[k]).1,
{
    let ms = merged_sections(sections_of(kind, text), max);
    lemma_merged_sections_within(sections_of(kind, text), max);
    lemma_numbered_chunks(ms);
    assert forall|j: int| 0 <= j < text_chunks(kind, text, max).len() implies 50 <= byte_len(
        (#[trigger] text_chunks(kind, text, max)[j]).0,
    ) <= max by {
        let c = numbered_chunks(ms)[j];
        assert(ms[c.1 as int] == c.0);
        crate::text::lemma_byte_len_bounds(c.0);
    }
}

/// The characters of `s` that are not whitespace, in order.
pub open spec fn visible(s: Seq<char>) -> Seq<char>
    decreases s.len(),
{
    if s.len() == 0 {
        seq![]
    } else if is_ws(s.last()) {
        visible(s.drop_last())
    } else {
        visible(s.drop_last()).push(s.last())
    }
}

/// The pieces one after another.
pub open spec fn flatten(ps: Seq<Seq<char>>) -> Seq<char>
    decreases ps.len(),
{
    if ps.len() == 0 {
        seq![]
    } else {
        flatten(ps.drop_last()) + ps.last()
    }
}

/// `visible` distributes over concatenation.
pub proof fn lemma_visible_concat(a: Seq<char>, b: Seq<char>)
    ensures
        visible(a + b) == visible(a) + visible(b),
    decreases b.len(),
{
    if b.len() == 0 {
        assert(a + b =~= a);
        assert(visible(a) + visible(b) =~= visible(a));
    } else {
        lemma_visible_concat(a, b.drop_last());
        assert((a + b).drop_last() =~= a + b.drop_last());
        assert((a + b).last() == b.last());
        if is_ws(b.last()) {
        } else {
            assert(visible(a + b) =~= visible(a) + visible(b));
        }
    }
}

/// Whitespace alone has nothing visible.
proof fn lemma_visible_ws(c: char)
    requires
        is_ws(c),
    ensures
        visible(seq![c]) == Seq::<char>::empty(),
{
    assert(seq![c].drop_last() =~= Seq::<char>::empty());
    assert(seq![c].last() == c);
    assert(visible(seq![c].drop_last()) == visible(Seq::<char>::empty()));
}

/// Trimming only removes whitespace.
pub proof fn lemma_visible_trim(s: Seq<char>)
    ensures
        visible(trim(s)) == visible(s),
{
    lemma_visible_trim_start(s);
    lemma_visible_trim_end(trim_start(s));
}

proof fn lemma_visible_trim_start(s: Seq<char>)
    ensures
        visible(trim_start(s)) == visible(s),
    decreases s.len(),
{
    if s.len() > 0 && is_ws(s[0]) {
        lemma_visible_trim_start(s.drop_first());
        lemma_visible_concat(seq![s[0]], s.drop_first());
        assert(seq![s[0]] + s.drop_first() =~= s);
        lemma_visible_ws(s[0]);
        assert(Seq::<char>::empty() + visible(s.drop_first()) =~= visible(s.drop_first()));
    }
}

proof fn lemma_visible_trim_end(s: Seq<char>)
    ensures
        visible(trim_end(s)) == visible(s),
    decreases s.len(),
{
    if s.len() > 0 && is_ws(s.last()) {
        lemma_visible_trim_end(s.drop_last());
    }
}

/// `flatten` distributes over concatenation of piece lists.
pub proof fn lemma_flatten_concat(a: Seq<Seq<char>>, b: Seq<Seq<char>>)
    ensures
        flatten(a + b) == flatten(a) + flatten(b),
    decreases b.len(),
{
    if b.len() == 0 {
        assert(a + b =~= a);
        assert(flatten(a) + flatten(b) =~= flatten(a));
    } else {
        lemma_flatten_concat(a, b.drop_last());
        assert((a + b).drop_last() =~= a + b.drop_last());
        assert((a + b).last() == b.last());
        assert(flatten(a + b) =~= flatten(a) + flatten(b));
    }
}

/// One piece flattens to itself.
proof fn lemma_flatten_one(x: Seq<char>)
    ensures
        flatten(seq![x]) == x,
{
    assert(seq![x].drop_last() =~= Seq::<Seq<char>>::empty());
    assert(seq![x].last() == x);
    assert(flatten(seq![x].drop_last()) == flatten(Seq::<Seq<char>>::empty()));
    assert(Seq::<char>::empty() + x =~= x);
}

/// Flattening one more piece appends it.
proof fn lemma_flatten_push(ps: Seq<Seq<char>>, x: Seq<char>)
    ensures
        flatten(ps.push(x)) == flatten(ps) + x,
{
    assert(ps.push(x).drop_last() =~= ps);
    assert(ps.push(x).last() == x);
}

/// Cutting a paragraph only removes whitespace at the cuts.
pub proof fn lemma_hard_pieces_visible(p: Seq<char>, max: nat)
    ensures
        visible(flatten(hard_pieces(p, max))) == visible(p),
    decreases p.len(),
{
    if p.len() == 0 {
    } else if byte_len(p) <= max {
        lemma_flatten_one(trim(p));
        lemma_visible_trim(p);
    } else {
        let c = hard_cut(p, max);
        lemma_hard_cut(p, max);
        lemma_hard_pieces_visible(p.skip(c), max);
        lemma_flatten_concat(seq![trim(p.take(c))], hard_pieces(p.skip(c), max));
        lemma_flatten_one(trim(p.take(c)));
        lemma_visible_concat(trim(p.take(c)), flatten(hard_pieces(p.skip(c), max)));
        lemma_visible_trim(p.take(c));
        lemma_visible_concat(p.take(c), p.skip(c));
        assert(p.take(c) + p.skip(c) =~= p);
    }
}

/// Gathering parts joined by an invisible separator keeps the visible text
/// of the parts when cutting the oversized ones does.
proof fn lemma_gather_fold_visible(
    parts: Seq<Seq<char>>,
    sep: Seq<char>,
    max: nat,
    oversized: spec_fn(Seq<char>) -> Seq<Seq<char>>,
)
    requires
        visible(sep) == Seq::<char>::empty(),
        forall|i: int|
            0 <= i < parts.len() && byte_len(#[trigger] parts[i]) > max ==> visible(
                flatten(oversized(parts[i])),
            ) == visible(parts[i]),
    ensures
        visible(flatten(gather_fold(parts, sep, max, oversized).0)) + visible(
            gather_fold(parts, sep, max, oversized).1,
        ) == visible(flatten(parts)),
    decreases parts.len(),
{
    if parts.len() == 0 {
        assert(Seq::<char>::empty() + Seq::<char>::empty() =~= Seq::<char>::empty());
    } else {
        let q = parts.drop_last();
        assert forall|i: int|
            0 <= i < q.len() && byte_len(#[trigger] q[i]) > max implies visible(
            flatten(oversized(q[i])),
        ) == visible(q[i]) by {
            assert(q[i] == parts[i]);
        }
        lemma_gather_fold_visible(q, sep, max, oversized);
        let (done, current) = gather_fold(q, sep, max, oversized);
        let p = parts.last();
        assert(parts[parts.len() - 1] == p);
        lemma_visible_concat(flatten(q), p);
        if byte_len(current) + byte_len(p) + byte_len(sep) <= max {
            if current.len() > 0 {
                lemma_visible_concat(current + sep, p);
                lemma_visible_concat(current, sep);
                assert(current + sep + Seq::<char>::empty() =~= current + sep);
                assert(visible(current) + Seq::<char>::empty() =~= visible(current));
            }
        } else {
            let done2 = push_nonempty(done, current);
            assert(visible(flatten(done2)) == visible(flatten(done)) + visible(current)) by {
                if current.len() > 0 {
                    lemma_flatten_push(done, current);
                    lemma_visible_concat(flatten(done), current);
                } else {
                    assert(visible(current) =~= Seq::<char>::empty());
                    assert(visible(flatten(done)) + visible(current) =~= visible(flatten(done)));
                }
            }
            if byte_len(p) > max {
                lemma_flatten_concat(done2, oversized(p));
                lemma_visible_concat(flatten(done2), flatten(oversized(p)));
                assert(visible(Seq::<char>::empty()) =~= Seq::<char>::empty());
            }
        }
        assert(visible(flatten(gather_fold(parts, sep, max, oversized).0)) + visible(
            gather_fold(parts, sep, max, oversized).1,
        ) =~= visible(flatten(parts)));
    }
}

/// Gathered pieces keep the visible text of the parts.
proof fn lemma_gathered_visible(
    parts: Seq<Seq<char>>,
    sep: Seq<char>,
    max: nat,
    oversized: spec_fn(Seq<char>) -> Seq<Seq<char>>,
)
    requires
        visible(sep) == Seq::<char>::empty(),
        forall|i: int|
            0 <= i < parts.len() && byte_len(#[trigger] parts[i]) > max ==> visible(
                flatten(oversized(parts[i])),
            ) == visible(parts[i]),
    ensures
        visible(flatten(gathered(parts, sep, max, oversized))) == visible(flatten(parts)),
{
    lemma_gather_fold_visible(parts, sep, max, oversized);
    let (done, current) = gather_fold(parts, sep, max, oversized);
    if current.len() > 0 {
        lemma_flatten_push(done, current);
        lemma_visible_concat(flatten(done), current);
    } else {
        assert(visible(current) =~= Seq::<char>::empty());
        assert(visible(flatten(done)) + visible(current) =~= visible(flatten(done)));
    }
}

/// Joining a first part before a non-empty list puts the separator after it.
pub proof fn lemma_join_cons(x: Seq<char>, rest: Seq<Seq<char>>, sep: Seq<char>)
    requires
        rest.len() > 0,
    ensures
        join(seq![x] + rest, sep) == x + sep + join(rest, sep),
    decreases rest.len(),
{
    let all = seq![x] + rest;
    assert(all.drop_last() =~= seq![x] + rest.drop_last());
    assert(all.last() == rest.last());
    if rest.len() == 1 {
        assert(rest.drop_last() =~= Seq::<Seq<char>>::empty());
        assert(seq![x] + rest.drop_last() =~= seq![x]);
        assert(join(seq![x], sep) == x);
        assert(join(rest, sep) == rest[0]);
    } else {
        lemma_join_cons(x, rest.drop_last(), sep);
        assert(join(all, sep) =~= x + sep + join(rest, sep));
    }
}

/// Splitting on a separator and joining with it gives back the text.
pub proof fn lemma_split_join(s: Seq<char>, sep: Seq<char>, start: int)
    requires
        0 <= start <= s.len(),
        sep.len() > 0,
    ensures
        join(split_from(s, sep, start), sep) == s.subrange(start, s.len() as int),
    decreases s.len() - start,
{
    lemma_find_from(s, sep, start);
    match find_from(s, sep, start) {
        None => {
            assert(join(seq![s.subrange(start, s.len() as int)], sep) == s.subrange(
                start,
                s.len() as int,
            ));
        },
        Some(j) => {
            let k = sep.len();
            lemma_split_from_nonempty(s, sep, j + k);
            lemma_split_join(s, sep, j + k);
            lemma_join_cons(s.subrange(start, j), split_from(s, sep, j + k), sep);
            assert(s.subrange(start, j) + sep + s.subrange(j + k, s.len() as int) =~= s.subrange(
                start,
                s.len() as int,
            ));
        },
    }
}

/// Joining with an invisible separator shows the same as the pieces.
proof fn lemma_visible_join(ps: Seq<Seq<char>>, sep: Seq<char>)
    requires
        visible(sep) == Seq::<char>::empty(),
    ensures
        visible(join(ps, sep)) == visible(flatten(ps)),
    decreases ps.len(),
{
    if ps.len() == 1 {
        lemma_flatten_one(ps[0]);
        assert(ps =~= seq![ps[0]]);
    } else if ps.len() > 1 {
        lemma_visible_join(ps.drop_last(), sep);
        lemma_visible_concat(join(ps.drop_last(), sep) + sep, ps.last());
        lemma_visible_concat(join(ps.drop_last(), sep), sep);
        lemma_visible_concat(flatten(ps.drop_last()), ps.last());
        assert(visible(join(ps.drop_last(), sep)) + Seq::<char>::empty() =~= visible(
            join(ps.drop_last(), sep),
        ));
    }
}

/// Separators that show the same make joins that show the same.
proof fn lemma_visible_join_sep(ps: Seq<Seq<char>>, a: Seq<char>, b: Seq<char>)
    requires
        visible(a) == visible(b),
    ensures
        visible(join(ps, a)) == visible(join(ps, b)),
    decreases ps.len(),
{
    if ps.len() > 1 {
        lemma_visible_join_sep(ps.drop_last(), a, b);
        lemma_visible_concat(join(ps.drop_last(), a) + a, ps.last());
        lemma_visible_concat(join(ps.drop_last(), a), a);
        lemma_visible_concat(join(ps.drop_last(), b) + b, ps.last());
        lemma_visible_concat(join(ps.drop_last(), b), b);
    }
}

/// Every piece with a period after it.
pub open spec fn dotted(q: Seq<Seq<char>>) -> Seq<Seq<char>> {
    Seq::new(q.len(), |i: int| q[i].push('.'))
}

/// Pieces each followed by a period flatten to their join by periods,
/// plus a final period.
proof fn lemma_flatten_dotted(q: Seq<Seq<char>>)
    requires
        q.len() > 0,
    ensures
        flatten(dotted(q)) == join(q, seq!['.']) + seq!['.'],
    decreases q.len(),
{
    assert(dotted(q).drop_last() =~= dotted(q.drop_last()));
    assert(dotted(q).last() == q.last().push('.'));
    if q.len() == 1 {
        assert(dotted(q.drop_last()) =~= Seq::<Seq<char>>::empty());
        assert(flatten(dotted(q).drop_last()) == flatten(Seq::<Seq<char>>::empty()));
        assert(join(q, seq!['.']) == q[0]);
        assert(q.last() == q[0]);
        assert(flatten(dotted(q)) =~= join(q, seq!['.']) + seq!['.']);
    } else {
        lemma_flatten_dotted(q.drop_last());
        assert(flatten(dotted(q)) =~= join(q, seq!['.']) + seq!['.']);
    }
}

/// The sentences of a paragraph show the same as the paragraph.
pub proof fn lemma_sentence_parts_visible(p: Seq<char>)
    ensures
        visible(flatten(sentence_parts(p))) == visible(p),
{
    let sep = sentence_end();
    let ps = split(p, sep);
    lemma_split_from_nonempty(p, sep, 0);
    lemma_split_join(p, sep, 0);
    assert(p.subrange(0, p.len() as int) =~= p);
    let q = ps.drop_last();
    assert(sentence_parts(p) =~= dotted(q).push(ps.last()));
    lemma_flatten_push(dotted(q), ps.last());
    assert(ps =~= q.push(ps.last()));
    if q.len() == 0 {
        assert(flatten(dotted(q)) =~= Seq::<char>::empty());
        assert(join(ps, seq!['.']) == ps[0]);
        assert(flatten(sentence_parts(p)) =~= join(ps, seq!['.']));
    } else {
        lemma_flatten_dotted(q);
        assert(join(ps, seq!['.']) == join(q, seq!['.']) + seq!['.'] + ps.last());
        assert(flatten(sentence_parts(p)) =~= join(ps, seq!['.']));
    }
    // ". " shows as "."
    lemma_visible_concat(seq!['.'], seq![' ']);
    assert(seq!['.'] + seq![' '] =~= sep);
    lemma_visible_ws(' ');
    assert(visible(seq!['.']) =~= seq!['.']) by {
        assert(seq!['.'].drop_last() =~= Seq::<char>::empty());
        assert(seq!['.'].last() == '.');
        assert(visible(seq!['.'].drop_last()) == visible(Seq::<char>::empty()));
    }
    assert(visible(sep) =~= visible(seq!['.']));
    lemma_visible_join_sep(ps, seq!['.'], sep);
}

/// The paragraphs of a text show the same as the text.
pub proof fn lemma_blocks_visible(s: Seq<char>)
    ensures
        visible(flatten(blocks(s))) == visible(s),
{
    lemma_split_join(s, blank_line(), 0);
    assert(s.subrange(0, s.len() as int) =~= s);
    lemma_visible_concat(seq!['\n'], seq!['\n']);
    assert(seq!['\n'] + seq!['\n'] =~= blank_line());
    lemma_visible_ws('\n');
    assert(visible(blank_line()) =~= Seq::<char>::empty());
    lemma_visible_join(blocks(s), blank_line());
}

/// Cutting an oversized paragraph into sentences and pieces only removes
/// whitespace.
pub proof fn lemma_sentence_pieces_visible(p: Seq<char>, max: nat)
    ensures
        visible(flatten(sentence_pieces(p, max))) == visible(p),
{
    let parts = sentence_parts(p);
    let f = |q: Seq<char>| hard_pieces(q, max);
    assert forall|i: int|
        0 <= i < parts.len() && byte_len(#[trigger] parts[i]) > max implies visible(
        flatten(f(parts[i])),
    ) == visible(parts[i]) by {
        lemma_hard_pieces_visible(parts[i], max);
    }
    lemma_visible_ws(' ');
    lemma_gathered_visible(parts, seq![' '], max, f);
    lemma_sentence_parts_visible(p);
}

/// Force-splitting a section only removes whitespace.
pub proof fn lemma_forced_pieces_visible(text: Seq<char>, max: nat)
    ensures
        visible(flatten(forced_pieces(text, max))) == visible(text),
{
    let parts = blocks(text);
    let f = |q: Seq<char>| sentence_pieces(q, max);
    assert forall|i: int|
        0 <= i < parts.len() && byte_len(#[trigger] parts[i]) > max implies visible(
        flatten(f(parts[i])),
    ) == visible(parts[i]) by {
        lemma_sentence_pieces_visible(parts[i], max);
    }
    lemma_visible_concat(seq!['\n'], seq!['\n']);
    assert(seq!['\n'] + seq!['\n'] =~= blank_line());
    lemma_visible_ws('\n');
    assert(visible(blank_line()) =~= Seq::<char>::empty());
    lemma_gathered_visible(parts, blank_line(), max, f);
    lemma_blocks_visible(text);
}

proof fn lemma_merge_fold_visible(sections: Seq<Seq<char>>, max: nat)
    ensures
        visible(flatten(merge_fold(sections, max).0)) + visible(merge_fold(sections, max).1)
            == visible(flatten(sections)),
    decreases sections.len(),
{
    if sections.len() == 0 {
        assert(Seq::<char>::empty() + Seq::<char>::empty() =~= Seq::<char>::empty());
    } else {
        let q = sections.drop_last();
        lemma_merge_fold_visible(q, max);
        let (merged, buffer) = merge_fold(q, max);
        let s = sections.last();
        assert(sections[sections.len() - 1] == s);
        lemma_visible_concat(flatten(q), s);
        lemma_visible_concat(seq!['\n'], seq!['\n']);
        assert(seq!['\n'] + seq!['\n'] =~= blank_line());
        lemma_visible_ws('\n');
        assert(visible(blank_line()) =~= Seq::<char>::empty());
        if byte_len(buffer) + byte_len(s) + 1 <= max / 4 {
            if buffer.len() > 0 {
                lemma_visible_concat(buffer + blank_line(), s);
                lemma_visible_concat(buffer, blank_line());
                assert(visible(buffer) + Seq::<char>::empty() =~= visible(buffer));
            }
        } else {
            let m2 = push_nonempty(merged, buffer);
            assert(visible(flatten(m2)) == visible(flatten(merged)) + visible(buffer)) by {
                if buffer.len() > 0 {
                    lemma_flatten_push(merged, buffer);
                    lemma_visible_concat(flatten(merged), buffer);
                } else {
                    assert(visible(buffer) =~= Seq::<char>::empty());
                    assert(visible(flatten(merged)) + visible(buffer) =~= visible(flatten(merged)));
                }
            }
            assert(visible(Seq::<char>::empty()) =~= Seq::<char>::empty());
            if byte_len(s) <= max {
                lemma_flatten_push(m2, s);
                lemma_visible_concat(flatten(m2), s);
            } else {
                lemma_forced_pieces_visible(s, max);
                lemma_flatten_concat(m2, forced_pieces(s, max));
                lemma_visible_concat(flatten(m2), flatten(forced_pieces(s, max)));
            }
        }
        assert(visible(flatten(merge_fold(sections, max).0)) + visible(merge_fold(sections, max).1)
            =~= visible(flatten(sections)));
    }
}

/// Merging and splitting loses no text but whitespace: the non-whitespace
/// characters of the resulting sections, in order, are those of the input
/// sections.
pub proof fn lemma_merged_sections_visible(sections: Seq<Seq<char>>, max: nat)
    ensures
        visible(flatten(merged_sections(sections, max))) == visible(flatten(sections)),
{
    lemma_merge_fold_visible(sections, max);
    let (merged, buffer) = merge_fold(sections, max);
    if buffer.len() > 0 {
        lemma_flatten_push(merged, buffer);
        lemma_visible_concat(flatten(merged), buffer);
    } else {
        assert(visible(buffer) =~= Seq::<char>::empty());
        assert(visible(flatten(merged)) + visible(buffer) =~= visible(flatten(merged)));
    }
}

/// `s` is not empty and neither starts nor ends with whitespace.
pub open spec fn clean(s: Seq<char>) -> bool {
    s.len() > 0 && !is_ws(s[0]) && !is_ws(s.last())
}

proof fn lemma_trim_start_first(s: Seq<char>)
    ensures
        trim_start(s).len() > 0 ==> !is_ws(trim_start(s)[0]),
    decreases s.len(),
{
    if s.len() > 0 && is_ws(s[0]) {
        lemma_trim_start_first(s.drop_first());
    }
}

proof fn lemma_trim_end_prefix(t: Seq<char>)
    ensures
        trim_end(t).len() <= t.len(),
        trim_end(t) == t.take(trim_end(t).len() as int),
        trim_end(t).len() > 0 ==> !is_ws(trim_end(t).last()),
    decreases t.len(),
{
    if t.len() > 0 && is_ws(t.last()) {
        lemma_trim_end_prefix(t.drop_last());
        let r = trim_end(t.drop_last());
        assert(t.drop_last().take(r.len() as int) =~= t.take(r.len() as int));
    } else {
        assert(t.take(t.len() as int) =~= t);
    }
}

/// What trimming leaves, when anything, is clean.
pub proof fn lemma_trim_clean(s: Seq<char>)
    ensures
        trim(s).len() > 0 ==> clean(trim(s)),
{
    lemma_trim_start_first(s);
    lemma_trim_end_prefix(trim_start(s));
    if trim(s).len() > 0 {
        assert(trim(s)[0] == trim_start(s)[0]);
    }
}

/// Every piece kept by `nonempty_trimmed` is clean.
proof fn lemma_nonempty_trimmed_clean(ps: Seq<Seq<char>>)
    ensures
        forall|i: int|
            0 <= i < nonempty_trimmed(ps).len() ==> clean(#[trigger] nonempty_trimmed(ps)[i]),
    decreases ps.len(),
{
    if ps.len() > 0 {
        lemma_nonempty_trimmed_clean(ps.drop_last());
        lemma_trim_clean(ps.last());
        let rest = nonempty_trimmed(ps.drop_last());
        assert forall|i: int| 0 <= i < nonempty_trimmed(ps).len() implies clean(
            #[trigger] nonempty_trimmed(ps)[i],
        ) by {
            if i < rest.len() {
                assert(nonempty_trimmed(ps)[i] == rest[i]);
            }
        }
    }
}

/// Appending a trimmed text when it is not empty keeps every section clean.
proof fn lemma_push_trimmed_clean(ss: Seq<Seq<char>>, t: Seq<char>)
    requires
        forall|i: int| 0 <= i < ss.len() ==> clean(#[trigger] ss[i]),
    ensures
        forall|i: int|
            0 <= i < push_nonempty(ss, trim(t)).len() ==> clean(
                #[trigger] push_nonempty(ss, trim(t))[i],
            ),
{
    lemma_trim_clean(t);
    assert forall|i: int| 0 <= i < push_nonempty(ss, trim(t)).len() implies clean(
        #[trigger] push_nonempty(ss, trim(t))[i],
    ) by {
        if i < ss.len() {
            assert(push_nonempty(ss, trim(t))[i] == ss[i]);
        }
    }
}

proof fn lemma_markdown_fold_clean(lines: Seq<Seq<char>>)
    ensures
        forall|i: int|
            0 <= i < markdown_fold(lines).0.len() ==> clean(#[trigger] markdown_fold(lines).0[i]),
    decreases lines.len(),
{
    if lines.len() > 0 {
        lemma_markdown_fold_clean(lines.drop_last());
        let (sections, current) = markdown_fold(lines.drop_last());
        if is_heading(lines.last()) {
            lemma_push_trimmed_clean(sections, current);
        }
    }
}

/// Every section that a file's text is first split into (a PDF page, a
/// Markdown section, a paragraph) is non-empty and trimmed.
pub proof fn lemma_sections_clean(kind: FileKind, text: Seq<char>)
    ensures
        forall|i: int|
            0 <= i < sections_of(kind, text).len() ==> clean(#[trigger] sections_of(kind, text)[i]),
{
    match kind {
        FileKind::Pdf => lemma_nonempty_trimmed_clean(split(text, seq!['\x0c'])),
        FileKind::Markdown => {
            let lines = crate::text::lines(text);
            lemma_markdown_fold_clean(lines);
            let (sections, current) = markdown_fold(lines);
            lemma_push_trimmed_clean(sections, current);
        },
        FileKind::Html => {
            let (done, cur, inside, tag) = crate::chunker::html_scan(text);
            lemma_collapsed_paragraphs(done.push(cur));
        },
        FileKind::Plain => lemma_nonempty_trimmed_clean(split(text, seq!['\n', '\n'])),
    }
}

/// Every word is non-empty and holds no whitespace.
pub open spec fn proper_words(ws: Seq<Seq<char>>) -> bool {
    forall|i: int|
        0 <= i < ws.len() ==> (#[trigger] ws[i]).len() > 0 && forall|j: int|
            0 <= j < ws[i].len() ==> !is_ws(#[trigger] ws[i][j])
}

/// The words of a text are proper, and there is one when the text ends in
/// a non-whitespace character.
proof fn lemma_words_proper(s: Seq<char>)
    ensures
        proper_words(words(s)),
        s.len() > 0 && !is_ws(s.last()) ==> words(s).len() > 0,
    decreases s.len(),
{
    if s.len() > 0 {
        let t = s.drop_last();
        lemma_words_proper(t);
        let rest = words(t);
        let c = s.last();
        if is_ws(c) {
        } else if s.len() >= 2 && !is_ws(s[s.len() - 2]) {
            assert(t.last() == s[s.len() - 2]);
            let w = rest.last().push(c);
            let n = rest.drop_last().push(w);
            assert forall|i: int| 0 <= i < n.len() implies (#[trigger] n[i]).len() > 0 && forall|j: int|
                0 <= j < n[i].len() ==> !is_ws(#[trigger] n[i][j]) by {
                if i < n.len() - 1 {
                    assert(n[i] == rest[i]);
                } else {
                    assert(n[i] == w);
                    assert forall|j: int| 0 <= j < w.len() implies !is_ws(#[trigger] w[j]) by {
                        if j < rest.last().len() {
                            assert(w[j] == rest[rest.len() - 1][j]);
                        }
                    }
                }
            }
        } else {
            let n = rest.push(seq![c]);
            assert forall|i: int| 0 <= i < n.len() implies (#[trigger] n[i]).len() > 0 && forall|j: int|
                0 <= j < n[i].len() ==> !is_ws(#[trigger] n[i][j]) by {
                if i < rest.len() {
                    assert(n[i] == rest[i]);
                } else {
                    assert(n[i] == seq![c]);
                }
            }
        }
    }
}

/// Whitespace occurs only as single spaces between non-whitespace
/// characters, and the text is empty or clean.
pub open spec fn single_spaced(x: Seq<char>) -> bool {
    &&& (x.len() == 0 || clean(x))
    &&& forall|i: int|
        0 <= i < x.len() && is_ws(#[trigger] x[i]) ==> {
            &&& x[i] == ' '
            &&& 0 < i < x.len() - 1
            &&& !is_ws(x[i - 1])
            &&& !is_ws(x[i + 1])
        }
}

/// Proper words joined by single spaces are single-spaced.
proof fn lemma_join_single_spaced(ps: Seq<Seq<char>>)
    requires
        proper_words(ps),
    ensures
        single_spaced(join(ps, seq![' '])),
    decreases ps.len(),
{
    if ps.len() == 1 {
        let w = ps[0];
        assert(join(ps, seq![' ']) == w);
        assert(w[0] == ps[0][0]);
        assert(w.last() == ps[0][w.len() - 1]);
        assert forall|i: int| 0 <= i < w.len() && is_ws(#[trigger] w[i]) implies false by {
            assert(w[i] == ps[0][i]);
        }
    } else if ps.len() > 1 {
        let q = ps.drop_last();
        assert forall|i: int| 0 <= i < q.len() implies (#[trigger] q[i]).len() > 0 && forall|j: int|
            0 <= j < q[i].len() ==> !is_ws(#[trigger] q[i][j]) by {
            assert(q[i] == ps[i]);
        }
        lemma_join_single_spaced(q);
        let jq = join(q, seq![' ']);
        let w = ps.last();
        assert(w == ps[ps.len() - 1]);
        let x = join(ps, seq![' ']);
        assert(x == jq + seq![' '] + w);
        assert(jq.len() > 0) by {
            lemma_join_nonempty(q);
        }
        assert(x[0] == jq[0]);
        assert(x.last() == w[w.len() - 1]);
        assert forall|i: int| 0 <= i < x.len() && is_ws(#[trigger] x[i]) implies {
            &&& x[i] == ' '
            &&& 0 < i < x.len() - 1
            &&& !is_ws(x[i - 1])
            &&& !is_ws(x[i + 1])
        } by {
            if i < jq.len() {
                assert(x[i] == jq[i]);
                assert(is_ws(jq[i]));
                assert(x[i - 1] == jq[i - 1]);
                assert(x[i + 1] == jq[i + 1]);
            } else if i == jq.len() {
                assert(x[i - 1] == jq.last());
                assert(x[i + 1] == w[0]);
            } else {
                assert(x[i] == w[i - jq.len() - 1]);
            }
        }
    }
}

/// Joining a non-empty list of non-empty parts is not empty.
proof fn lemma_join_nonempty(ps: Seq<Seq<char>>)
    requires
        ps.len() > 0,
        forall|i: int| 0 <= i < ps.len() ==> (#[trigger] ps[i]).len() > 0,
    ensures
        join(ps, seq![' ']).len() > 0,
{
    if ps.len() > 1 {
        assert(ps.last() == ps[ps.len() - 1]);
    }
}

/// Collapsed paragraphs are non-empty and single-spaced.
proof fn lemma_collapsed_paragraphs(ps: Seq<Seq<char>>)
    ensures
        forall|i: int|
            0 <= i < collapsed_paragraphs(ps).len() ==> (#[trigger] collapsed_paragraphs(ps)[i]).len()
                > 0 && single_spaced(collapsed_paragraphs(ps)[i]),
    decreases ps.len(),
{
    if ps.len() > 0 {
        lemma_collapsed_paragraphs(ps.drop_last());
        let rest = collapsed_paragraphs(ps.drop_last());
        let x = crate::chunker::collapse(ps.last());
        lemma_words_proper(ps.last());
        lemma_join_single_spaced(words(ps.last()));
        if x.len() > 0 {
            assert forall|i: int| 0 <= i < rest.push(x).len() implies (#[trigger] rest.push(x)[i]).len()
                > 0 && single_spaced(rest.push(x)[i]) by {
                if i < rest.len() {
                    assert(rest.push(x)[i] == rest[i]);
                }
            }
        }
    }
}

/// Trimming each piece and dropping the empty ones keeps the visible text.
proof fn lemma_nonempty_trimmed_visible(ps: Seq<Seq<char>>)
    ensures
        visible(flatten(nonempty_trimmed(ps))) == visible(flatten(ps)),
    decreases ps.len(),
{
    if ps.len() > 0 {
        let q = ps.drop_last();
        lemma_nonempty_trimmed_visible(q);
        let rest = nonempty_trimmed(q);
        let t = trim(ps.last());
        lemma_visible_trim(ps.last());
        lemma_flatten_push(q, ps.last());
        assert(q.push(ps.last()) =~= ps);
        lemma_visible_concat(flatten(q), ps.last());
        if t.len() > 0 {
            lemma_flatten_push(rest, t);
            lemma_visible_concat(flatten(rest), t);
        } else {
            assert(visible(t) =~= Seq::<char>::empty());
            assert(visible(flatten(rest)) + visible(t) =~= visible(flatten(rest)));
        }
    }
}

/// A text split on a one-character whitespace separator keeps its visible
/// text in its pieces.
proof fn lemma_split_visible(s: Seq<char>, c: char)
    requires
        is_ws(c),
    ensures
        visible(flatten(split(s, seq![c]))) == visible(s),
{
    lemma_split_join(s, seq![c], 0);
    assert(s.subrange(0, s.len() as int) =~= s);
    lemma_visible_ws(c);
    lemma_visible_join(split(s, seq![c]), seq![c]);
}

/// Where `find_from` finds nothing, `sep` occurs at no later position.
proof fn lemma_find_from_none(s: Seq<char>, sep: Seq<char>, i: int, j: int)
    requires
        0 <= i <= j,
        find_from(s, sep, i) is None,
    ensures
        !matches_at(s, sep, j),
    decreases j - i,
{
    if i + sep.len() <= s.len() && i < j {
        lemma_find_from_none(s, sep, i + 1, j);
    }
}

/// Splitting a text that ends with the separator character leaves an
/// empty last piece.
proof fn lemma_split_last_empty(s: Seq<char>, c: char, start: int)
    requires
        0 <= start <= s.len(),
        s.len() > 0,
        s.last() == c,
    ensures
        split_from(s, seq![c], start).last().len() == 0,
    decreases s.len() - start,
{
    let sep = seq![c];
    lemma_find_from(s, sep, start);
    match find_from(s, sep, start) {
        None => {
            if start < s.len() {
                assert(s.subrange(s.len() - 1, s.len() as int) =~= sep);
                lemma_find_from_none(s, sep, start, s.len() - 1);
            }
        },
        Some(j) => {
            lemma_split_from_nonempty(s, sep, j + 1);
            lemma_split_last_empty(s, c, j + 1);
            let tail = split_from(s, sep, j + 1);
            assert((seq![s.subrange(start, j)] + tail).last() == tail.last());
        },
    }
}

/// Pieces with the same visible text one by one have the same visible text
/// together.
proof fn lemma_flatten_visible_pointwise(a: Seq<Seq<char>>, b: Seq<Seq<char>>)
    requires
        a.len() == b.len(),
        forall|i: int| 0 <= i < a.len() ==> visible(#[trigger] a[i]) == visible(b[i]),
    ensures
        visible(flatten(a)) == visible(flatten(b)),
    decreases a.len(),
{
    if a.len() > 0 {
        let (a1, b1) = (a.drop_last(), b.drop_last());
        assert forall|i: int| 0 <= i < a1.len() implies visible(#[trigger] a1[i]) == visible(b1[i]) by {
            assert(a1[i] == a[i] && b1[i] == b[i]);
        }
        lemma_flatten_visible_pointwise(a1, b1);
        assert(visible(a[a.len() - 1]) == visible(b[b.len() - 1]));
        lemma_flatten_push(a1, a.last());
        lemma_flatten_push(b1, b.last());
        assert(a1.push(a.last()) =~= a);
        assert(b1.push(b.last()) =~= b);
        lemma_visible_concat(flatten(a1), a.last());
        lemma_visible_concat(flatten(b1), b.last());
    }
}

/// The lines of a text hold its visible text.
proof fn lemma_lines_visible(s: Seq<char>)
    ensures
        visible(flatten(crate::text::lines(s))) == visible(s),
{
    if s.len() > 0 {
        let pieces = split(s, seq!['\n']);
        lemma_split_visible(s, '\n');
        let kept = crate::text::line_pieces(s);
        assert(visible(flatten(kept)) == visible(s)) by {
            if s.last() == '\n' {
                lemma_split_from_nonempty(s, seq!['\n'], 0);
                lemma_split_last_empty(s, '\n', 0);
                lemma_flatten_push(kept, pieces.last());
                assert(kept.push(pieces.last()) =~= pieces);
                lemma_visible_concat(flatten(kept), pieces.last());
                assert(visible(pieces.last()) =~= Seq::<char>::empty());
                assert(visible(flatten(kept)) + Seq::<char>::empty() =~= visible(flatten(kept)));
            }
        }
        let ls = crate::text::lines(s);
        assert forall|i: int| 0 <= i < ls.len() implies visible(#[trigger] ls[i]) == visible(
            kept[i],
        ) by {
            let p = kept[i];
            if ls[i] != p {
                assert(ls[i] == crate::text::strip_cr(p));
                assert(p.len() > 0 && p.last() == '\r');
                assert(is_ws('\r'));
            }
        }
        lemma_flatten_visible_pointwise(ls, kept);
    }
}

/// The Markdown sections read so far and the open one hold the visible text
/// of the lines read.
proof fn lemma_markdown_fold_visible(lines: Seq<Seq<char>>)
    ensures
        visible(flatten(markdown_fold(lines).0)) + visible(markdown_fold(lines).1) == visible(
            flatten(lines),
        ),
    decreases lines.len(),
{
    if lines.len() == 0 {
        assert(Seq::<char>::empty() + Seq::<char>::empty() =~= Seq::<char>::empty());
    } else {
        let q = lines.drop_last();
        lemma_markdown_fold_visible(q);
        let (sections, current) = markdown_fold(q);
        let line = lines.last();
        lemma_flatten_push(q, line);
        assert(q.push(line) =~= lines);
        lemma_visible_concat(flatten(q), line);
        lemma_visible_ws('\n');
        let (s2, c2) = if is_heading(line) {
            (push_nonempty(sections, trim(current)), Seq::<char>::empty())
        } else {
            (sections, current)
        };
        assert(visible(flatten(s2)) + visible(c2) == visible(flatten(sections)) + visible(current))
            by {
            if is_heading(line) {
                lemma_visible_trim(current);
                if trim(current).len() > 0 {
                    lemma_flatten_push(sections, trim(current));
                    lemma_visible_concat(flatten(sections), trim(current));
                } else {
                    assert(visible(trim(current)) =~= Seq::<char>::empty());
                }
                assert(visible(c2) =~= Seq::<char>::empty());
                assert(visible(flatten(s2)) + Seq::<char>::empty() =~= visible(flatten(s2)));
                assert(visible(flatten(sections)) + Seq::<char>::empty() =~= visible(
                    flatten(sections),
                ));
            }
        }
        lemma_visible_concat(c2 + line, seq!['\n']);
        lemma_visible_concat(c2, line);
        assert(visible(c2 + line) + Seq::<char>::empty() =~= visible(c2 + line));
        assert(visible(flatten(s2)) + visible(c2 + line + seq!['\n']) =~= visible(flatten(q))
            + visible(line));
    }
}

/// Splitting text into sections (other than HTML, whose tags are dropped)
/// loses no text but whitespace: the non-whitespace characters of the
/// sections, in order, are those of the text.
pub proof fn lemma_sections_visible(kind: FileKind, text: Seq<char>)
    requires
        kind != FileKind::Html,
    ensures
        visible(flatten(sections_of(kind, text))) == visible(text),
{
    match kind {
        FileKind::Pdf => {
            lemma_nonempty_trimmed_visible(split(text, seq!['\x0c']));
            lemma_split_visible(text, '\x0c');
        },
        FileKind::Markdown => {
            let ls = crate::text::lines(text);
            lemma_markdown_fold_visible(ls);
            lemma_lines_visible(text);
            let (sections, current) = markdown_fold(ls);
            lemma_visible_trim(current);
            if trim(current).len() > 0 {
                lemma_flatten_push(sections, trim(current));
                lemma_visible_concat(flatten(sections), trim(current));
            } else {
                assert(visible(trim(current)) =~= Seq::<char>::empty());
                assert(visible(flatten(sections)) + Seq::<char>::empty() =~= visible(
                    flatten(sections),
                ));
            }
        },
        _ => {
            lemma_nonempty_trimmed_visible(split(text, seq!['\n', '\n']));
            lemma_blocks_visible(text);
        },
    }
}

/// The paragraphs of HTML are non-empty, with their whitespace collapsed
/// into single spaces and trimmed.
pub proof fn lemma_html_paragraphs_single_spaced(html: Seq<char>)
    ensures
        forall|i: int|
            0 <= i < html_paragraphs(html).len() ==> (#[trigger] html_paragraphs(html)[i]).len() > 0
                && single_spaced(html_paragraphs(html)[i]),
{
    let (done, cur, inside, tag) = crate::chunker::html_scan(html);
    lemma_collapsed_paragraphs(done.push(cur));
}

/// The text content of HTML has its whitespace collapsed into single
/// spaces and trimmed.
pub proof fn lemma_html_text_single_spaced(html: Seq<char>)
    ensures
        single_spaced(html_text(html)),
{
    lemma_words_proper(untagged(html, false));
    lemma_join_single_spaced(words(untagged(html, false)));
}

/// No `<` or `>` occurs in `s`.
pub open spec fn tag_free(s: Seq<char>) -> bool {
    forall|i: int| 0 <= i < s.len() ==> #[trigger] s[i] != '<' && s[i] != '>'
}

/// The text outside tags holds no `<` or `>`.
proof fn lemma_untagged_tag_free(s: Seq<char>, inside: bool)
    ensures
        tag_free(untagged(s, inside)),
    decreases s.len(),
{
    if s.len() > 0 {
        let t = s.drop_first();
        lemma_untagged_tag_free(t, true);
        lemma_untagged_tag_free(t, false);
        lemma_untagged_tag_free(t, inside);
        if s[0] != '<' {
            let head = if s[0] == '>' {
                seq![' ']
            } else {
                seq![s[0]]
            };
            let rest = if s[0] == '>' {
                untagged(t, false)
            } else {
                untagged(t, inside)
            };
            if s[0] == '>' || !inside {
                assert forall|i: int| 0 <= i < (head + rest).len() implies #[trigger] (head
                    + rest)[i] != '<' && (head + rest)[i] != '>' by {
                    if i > 0 {
                        assert((head + rest)[i] == rest[i - 1]);
                    }
                }
            }
        }
    }
}

/// Text without `<` or `>` is its own text outside tags.
proof fn lemma_untagged_plain(s: Seq<char>)
    requires
        tag_free(s),
    ensures
        untagged(s, false) == s,
    decreases s.len(),
{
    if s.len() > 0 {
        let t = s.drop_first();
        assert(tag_free(t)) by {
            assert forall|i: int| 0 <= i < t.len() implies #[trigger] t[i] != '<' && t[i] != '>' by {
                assert(t[i] == s[i + 1]);
            }
        }
        assert(s[0] != '<' && s[0] != '>');
        lemma_untagged_plain(t);
        assert(seq![s[0]] + t =~= s);
    }
}

/// The words of a text without `<` or `>` hold none either.
proof fn lemma_words_tag_free(s: Seq<char>)
    requires
        tag_free(s),
    ensures
        forall|i: int| 0 <= i < words(s).len() ==> tag_free(#[trigger] words(s)[i]),
    decreases s.len(),
{
    if s.len() > 0 {
        let t = s.drop_last();
        assert(tag_free(t)) by {
            assert forall|i: int| 0 <= i < t.len() implies #[trigger] t[i] != '<' && t[i] != '>' by {
                assert(t[i] == s[i]);
            }
        }
        lemma_words_tag_free(t);
        let rest = words(t);
        let c = s.last();
        assert(c == s[s.len() - 1]);
        if is_ws(c) {
        } else if s.len() >= 2 && !is_ws(s[s.len() - 2]) {
            assert(t.last() == s[s.len() - 2]);
            lemma_words_proper(t);
            let w = rest.last().push(c);
            let n = rest.drop_last().push(w);
            assert(tag_free(rest[rest.len() - 1]));
            assert forall|i: int| 0 <= i < n.len() implies tag_free(#[trigger] n[i]) by {
                if i < n.len() - 1 {
                    assert(n[i] == rest[i]);
                } else {
                    assert forall|j: int| 0 <= j < w.len() implies #[trigger] w[j] != '<' && w[j]
                        != '>' by {
                        if j < rest.last().len() {
                            assert(w[j] == rest[rest.len() - 1][j]);
                        }
                    }
                }
            }
        } else {
            let n = rest.push(seq![c]);
            assert forall|i: int| 0 <= i < n.len() implies tag_free(#[trigger] n[i]) by {
                if i < rest.len() {
                    assert(n[i] == rest[i]);
                } else {
                    assert(n[i] == seq![c]);
                }
            }
        }
    }
}

/// Parts without `<` or `>` joined by spaces hold none either.
proof fn lemma_join_tag_free(ps: Seq<Seq<char>>)
    requires
        forall|i: int| 0 <= i < ps.len() ==> tag_free(#[trigger] ps[i]),
    ensures
        tag_free(join(ps, seq![' '])),
    decreases ps.len(),
{
    if ps.len() == 1 {
        assert(tag_free(ps[0]));
    } else if ps.len() > 1 {
        let q = ps.drop_last();
        assert forall|i: int| 0 <= i < q.len() implies tag_free(#[trigger] q[i]) by {
            assert(q[i] == ps[i]);
        }
        lemma_join_tag_free(q);
        let jq = join(q, seq![' ']);
        let w = ps.last();
        assert(tag_free(ps[ps.len() - 1]));
        let x = join(ps, seq![' ']);
        assert(x == jq + seq![' '] + w);
        assert forall|i: int| 0 <= i < x.len() implies #[trigger] x[i] != '<' && x[i] != '>' by {
            if i < jq.len() {
                assert(x[i] == jq[i]);
            } else if i > jq.len() {
                assert(x[i] == w[i - jq.len() - 1]);
            }
        }
    }
}

/// Whitespace occurs only as single spaces after non-whitespace characters.
pub open spec fn spaced(x: Seq<char>) -> bool {
    forall|i: int|
        0 <= i < x.len() && is_ws(#[trigger] x[i]) ==> x[i] == ' ' && i > 0 && !is_ws(x[i - 1])
}

/// Collapsing the whitespace of such text changes nothing but dropping a
/// final space.
proof fn lemma_collapse_spaced(x: Seq<char>)
    requires
        spaced(x),
    ensures
        join(words(x), seq![' ']) == if x.len() > 0 && is_ws(x.last()) {
            x.drop_last()
        } else {
            x
        },
    decreases x.len(),
{
    if x.len() > 0 {
        let t = x.drop_last();
        assert(spaced(t)) by {
            assert forall|i: int| 0 <= i < t.len() && is_ws(#[trigger] t[i]) implies t[i] == ' '
                && i > 0 && !is_ws(t[i - 1]) by {
                assert(t[i] == x[i]);
                assert(x[i] == t[i]);
                if i > 0 {
                    assert(t[i - 1] == x[i - 1]);
                }
            }
        }
        lemma_collapse_spaced(t);
        let rest = words(t);
        let c = x.last();
        assert(c == x[x.len() - 1]);
        if is_ws(c) {
            assert(t.len() > 0 && !is_ws(t.last())) by {
                assert(t.last() == x[x.len() - 2]);
            }
        } else if x.len() >= 2 && !is_ws(x[x.len() - 2]) {
            assert(t.last() == x[x.len() - 2]);
            lemma_words_proper(t);
            let r = rest.drop_last();
            let w = rest.last();
            assert(r.push(w) =~= rest);
            crate::chunker::lemma_join_push(r, seq![' '], w);
            crate::chunker::lemma_join_push(r, seq![' '], w.push(c));
            assert(join(words(x), seq![' ']) =~= t.push(c));
            assert(t.push(c) =~= x);
        } else if x.len() == 1 {
            assert(t =~= Seq::<char>::empty());
            assert(words(t) =~= Seq::<Seq<char>>::empty());
            crate::chunker::lemma_join_push(rest, seq![' '], seq![c]);
            assert(seq![c] =~= x);
        } else {
            let k = x.len() - 2;
            assert(is_ws(x[k]));
            assert(x[k] == ' ' && k > 0 && !is_ws(x[k - 1]));
            assert(t.last() == x[k]);
            let u = t.drop_last();
            assert(u.last() == x[k - 1]);
            assert(words(t) == words(u));
            lemma_words_proper(u);
            crate::chunker::lemma_join_push(rest, seq![' '], seq![c]);
            assert(u + seq![' '] + seq![c] =~= x);
        }
    }
}

/// Stripping tags from text whose tags are already stripped changes
/// nothing: the text content holds no `<` or `>` and is single-spaced.
pub proof fn lemma_html_text_idempotent(html: Seq<char>)
    ensures
        tag_free(html_text(html)),
        html_text(html_text(html)) == html_text(html),
{
    let u = untagged(html, false);
    lemma_untagged_tag_free(html, false);
    lemma_words_tag_free(u);
    lemma_join_tag_free(words(u));
    let x = html_text(html);
    lemma_untagged_plain(x);
    lemma_html_text_single_spaced(html);
    assert(spaced(x));
    lemma_collapse_spaced(x);
    if x.len() > 0 {
        assert(clean(x));
    }
}

/// A hard cut never splits a word when a space fits: with `k` the number
/// of leading characters of an oversized paragraph that fit in `max` bytes,
/// the first piece ends right after the last space among them; only a run
/// without a space is cut at the byte limit, and a first character wider
/// than `max` is cut off alone.
pub proof fn lemma_hard_cut_at_last_space(p: Seq<char>, max: nat, k: int)
    requires
        byte_len(p) > max,
        0 <= k < p.len(),
        byte_len(p.take(k)) <= max,
        byte_len(p.take(k + 1)) > max,
    ensures
        forall|j: int|
            0 <= j < k && #[trigger] p[j] == ' ' && (forall|m: int| j < m < k ==> p[m] != ' ')
                ==> hard_pieces(p, max) == seq![trim(p.take(j + 1))] + hard_pieces(
                p.skip(j + 1),
                max,
            ),
        k > 0 && (forall|m: int| 0 <= m < k ==> p[m] != ' ') ==> hard_pieces(p, max) == seq![
            trim(p.take(k)),
        ] + hard_pieces(p.skip(k), max),
        k == 0 ==> hard_pieces(p, max) == seq![trim(p.take(1))] + hard_pieces(p.skip(1), max),
{
    crate::text::lemma_chars_within(p, max as int, k);
    lemma_hard_cut(p, max);
    let span = crate::chunker::hard_span(p, max);
    assert forall|j: int|
        0 <= j < k && #[trigger] p[j] == ' ' && (forall|m: int| j < m < k ==> p[m] != ' ')
            implies hard_pieces(p, max) == seq![trim(p.take(j + 1))] + hard_pieces(
            p.skip(j + 1),
            max,
        ) by {
        let pk = p.take(k);
        assert forall|m: int| j + 1 <= m < pk.len() implies pk[m] != ' ' by {
            assert(pk[m] == p[m]);
        }
        assert(pk[j] == p[j]);
        crate::text::lemma_last_index_of(pk, ' ', j + 1);
        assert(hard_cut(p, max) == j + 1);
    }
    if k > 0 && (forall|m: int| 0 <= m < k ==> p[m] != ' ') {
        let pk = p.take(k);
        assert forall|m: int| 0 <= m < pk.len() implies pk[m] != ' ' by {
            assert(pk[m] == p[m]);
        }
        crate::text::lemma_last_index_of(pk, ' ', 0);
        assert(hard_cut(p, max) == k);
    }
    if k == 0 {
        let p1 = p.take(1);
        crate::text::lemma_last_index_of_bound(p1, ' ');
        assert(hard_cut(p, max) == 1);
    }
}

/// A paragraph that fits in `max` bytes is not cut: it stays one piece,
/// trimmed.
pub proof fn lemma_fitting_paragraph_whole(p: Seq<char>, max: nat)
    requires
        p.len() > 0,
        byte_len(p) <= max,
    ensures
        hard_pieces(p, max) == seq![trim(p)],
{
}

/// A line of one or more `#` followed by a space is a heading, whatever the
/// number of `#`: it closes the open section (kept trimmed when not empty)
/// and starts a new one with itself.
pub proof fn lemma_heading_starts_section(lines: Seq<Seq<char>>, line: Seq<char>, n: int)
    requires
        1 <= n < line.len(),
        line[n] == ' ',
        forall|j: int| 0 <= j < n ==> line[j] == '#',
    ensures
        markdown_fold(lines.push(line)) == (
            push_nonempty(markdown_fold(lines).0, trim(markdown_fold(lines).1)),
            line + seq!['\n'],
        ),
{
    assert(lines.push(line).drop_last() =~= lines);
    assert(is_heading(line));
    assert(Seq::<char>::empty() + line + seq!['\n'] =~= line + seq!['\n']);
}

/// A line that does not start with one or more `#` followed by a space
/// joins the open section.
pub proof fn lemma_other_line_joins_section(lines: Seq<Seq<char>>, line: Seq<char>)
    requires
        forall|n: int|
            1 <= n < line.len() && #[trigger] line[n] == ' ' ==> exists|j: int|
                0 <= j < n && line[j] != '#',
    ensures
        markdown_fold(lines.push(line)) == (
            markdown_fold(lines).0,
            markdown_fold(lines).1 + line + seq!['\n'],
        ),
{
    assert(lines.push(line).drop_last() =~= lines);
    assert(!is_heading(line));
}

/// The tags that split HTML into sections: `p` and `h1` to `h6`, opening
/// or closing, in either case, alone or before attributes; tags whose name
/// merely starts like them (`pre`, `hr`, `h7`) do not.
pub proof fn lemma_break_tags(c: char, rest: Seq<char>)
    ensures
        is_ws(c) || c == '/' ==> {
            &&& crate::chunker::is_break_tag(seq!['p'] + seq![c] + rest)
            &&& crate::chunker::is_break_tag(seq!['/', 'P'] + seq![c] + rest)
        },
        crate::chunker::is_break_tag(seq!['p']),
        crate::chunker::is_break_tag(seq!['/', 'p']),
        forall|d: char|
            #![trigger crate::chunker::heading_digit(d)]
            crate::chunker::heading_digit(d) ==> crate::chunker::is_break_tag(seq!['h', d])
                && crate::chunker::is_break_tag(seq!['/', 'H', d]),
        !crate::chunker::is_break_tag(seq!['p', 'r', 'e']),
        !crate::chunker::is_break_tag(seq!['h', 'r']),
        !crate::chunker::is_break_tag(seq!['h', '7']),
        !crate::chunker::is_break_tag(seq!['b']),
{
    assert((seq!['p'] + seq![c] + rest)[0] == 'p');
    assert((seq!['p'] + seq![c] + rest)[1] == c);
    let t = (seq!['/', 'P'] + seq![c] + rest).drop_first();
    assert(t =~= seq!['P'] + seq![c] + rest);
    assert(t[0] == 'P' && t[1] == c);
    assert(seq!['/', 'p'].drop_first() =~= seq!['p']);
    assert forall|d: char| crate::chunker::heading_digit(d) implies crate::chunker::is_break_tag(
        seq!['h', d],
    ) && crate::chunker::is_break_tag(seq!['/', 'H', d]) by {
        assert(seq!['/', 'H', d].drop_first() =~= seq!['H', d]);
    }
}

} // verus!
