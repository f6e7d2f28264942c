//! The parts of the vector store that decide what is asked of the database.

use vstd::prelude::*;

use crate::text::{from_chars, to_chars};

verus! {

/// Dimensionality of the embedding vectors (Nomic Embed Text v1.5).
pub const VECTOR_DIM: i32 = 768;

/// The name of the table that holds the document chunks.
pub open spec fn table_name() -> Seq<char> {
    seq!['d', 'o', 'c', 'u', 'm', 'e', 'n', 't', 's']
}

/// The name of the table that holds the document chunks.
pub fn documents_table() -> (res: String)
    ensures
        res@ == table_name(),
{
    let v = vec!['d', 'o', 'c', 'u', 'm', 'e', 'n', 't', 's'];
    assert(v@ =~= table_name());
    from_chars(v.as_slice())
}

/// `s` as the body of a single-quoted SQL literal: every `'` doubled.
pub open spec fn escape_quotes(s: Seq<char>) -> Seq<char>
    decreases s.len(),
{
    if s.len() == 0 {
        seq![]
    } else if s.last() == '\'' {
        escape_quotes(s.drop_last()) + seq!['\'', '\'']
    } else {
        escape_quotes(s.drop_last()).push(s.last())
    }
}

/// The text that a single-quoted SQL literal body stands for: every `''`
/// read as one `'`.
pub open spec fn unescape_quotes(s: Seq<char>) -> Seq<char>
    decreases s.len(),
{
    if s.len() == 0 {
        seq![]
    } else if s.len() >= 2 && s[0] == '\'' && s[1] == '\'' {
        seq!['\''] + unescape_quotes(s.skip(2))
    } else {
        seq![s[0]] + unescape_quotes(s.drop_first())
    }
}

/// Escaping distributes over concatenation.
proof fn lemma_escape_concat(a: Seq<char>, b: Seq<char>)
    ensures
        escape_quotes(a + b) == escape_quotes(a) + escape_quotes(b),
    decreases b.len(),
{
    if b.len() == 0 {
        assert(a + b =~= a);
        assert(escape_quotes(a) + escape_quotes(b) =~= escape_quotes(a));
    } else {
        lemma_escape_concat(a, b.drop_last());
        assert((a + b).drop_last() =~= a + b.drop_last());
        assert((a + b).last() == b.last());
        if b.last() == '\'' {
            assert(escape_quotes(a + b) =~= escape_quotes(a) + escape_quotes(b));
        } else {
            assert(escape_quotes(a + b) =~= escape_quotes(a) + escape_quotes(b));
        }
    }
}

/// A quoted path reads back as the same path: the literal in the delete
/// filter stands for exactly the file path it was made from.
pub proof fn lemma_quote_roundtrip(s: Seq<char>)
    ensures
        unescape_quotes(escape_quotes(s)) == s,
    decreases s.len(),
{
    if s.len() > 0 {
        let c = s[0];
        let t = s.drop_first();
        assert(s =~= seq![c] + t);
        lemma_escape_concat(seq![c], t);
        assert(seq![c].drop_last() =~= Seq::<char>::empty());
        assert(escape_quotes(Seq::<char>::empty()) =~= Seq::<char>::empty());
        assert(escape_quotes(seq![c].drop_last()) =~= Seq::<char>::empty());
        assert(seq![c].last() == c);
        lemma_quote_roundtrip(t);
        let e = escape_quotes(s);
        if c == '\'' {
            assert(escape_quotes(seq![c]) =~= seq!['\'', '\'']);
            assert(e.skip(2) =~= escape_quotes(t));
            assert(unescape_quotes(e) =~= seq!['\''] + unescape_quotes(escape_quotes(t)));
        } else {
            assert(escape_quotes(seq![c]) =~= seq![c]);
            assert(e.drop_first() =~= escape_quotes(t));
            assert(unescape_quotes(e) =~= seq![c] + unescape_quotes(escape_quotes(t)));
        }
        assert(seq![c] + t =~= s);
    }
}

/// The filter that selects the rows of a file: `file_path = '<path>'`.
pub open spec fn path_predicate(file_path: Seq<char>) -> Seq<char> {
    seq!['f', 'i', 'l', 'e', '_', 'p', 'a', 't', 'h', ' ', '=', ' ', '\'']
        + escape_quotes(file_path) + seq!['\'']
}

/// The filter that selects all chunks of `file_path`, the path quoted as a
/// SQL literal.
pub fn delete_predicate(file_path: &str) -> (res: String)
    ensures
        res@ == path_predicate(file_path@),
{
    let path = to_chars(file_path);
    let mut out: Vec<char> = vec!['f', 'i', 'l', 'e', '_', 'p', 'a', 't', 'h', ' ', '=', ' ', '\''];
    let ghost prefix = out@;
    assert(prefix =~= seq!['f', 'i', 'l', 'e', '_', 'p', 'a', 't', 'h', ' ', '=', ' ', '\'']);
    let mut i: usize = 0;
    assert(path@.take(0) =~= Seq::<char>::empty());
    while i < path.len()
        invariant
            i <= path@.len(),
            out@ == prefix + escape_quotes(path@.take(i as int)),
        decreases path@.len() - i,
    {
        let c = path[i];
        proof {
            let pre = path@.take(i + 1);
            assert(pre.drop_last() =~= path@.take(i as int));
            assert(pre.last() == c);
        }
        if c == '\'' {
            out.push('\'');
            out.push('\'');
            assert(out@ =~= prefix + escape_quotes(path@.take(i + 1)));
        } else {
            out.push(c);
            assert(out@ =~= prefix + escape_quotes(path@.take(i + 1)));
        }
        i = i + 1;
    }
    assert(path@.take(i as int) =~= path@);
    out.push('\'');
    assert(out@ =~= path_predicate(file_path@));
    from_chars(out.as_slice())
}

} // verus!
