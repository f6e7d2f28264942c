//! Which files are indexed, and the events that the directory scan and the
//! file-system watcher hand to the indexer.

use vstd::prelude::*;

use crate::paths::{extension_of, extension_or_empty};
use crate::text::{chars_eq, to_chars};

verus! {

/// Represents an actionable filesystem event.
#[derive(Debug)]
pub enum FileEvent {
    Upsert(String),
    Remove(String),
}

/// What a `FileEvent` says, on character sequences.
pub enum FileEventView {
    Upsert(Seq<char>),
    Remove(Seq<char>),
}

impl View for FileEvent {
    type V = FileEventView;

    open spec fn view(&self) -> FileEventView {
        match self {
            FileEvent::Upsert(p) => FileEventView::Upsert(p@),
            FileEvent::Remove(p) => FileEventView::Remove(p@),
        }
    }
}

/// The kinds of file-system change that the watcher reports.
#[derive(Debug, Clone, Copy, PartialEq, Eq, Structural)]
pub enum ChangeKind {
    Create,
    Modify,
    Remove,
    Other,
}

/// The extensions of the plaintext and code files that are indexed.
pub open spec fn supported_ext(e: Seq<char>) -> bool {
    ||| e == seq!['t', 'x', 't']
    ||| e == seq!['m', 'd']
    ||| e == seq!['r', 's']
    ||| e == seq!['p', 'y']
    ||| e == seq!['c', 's', 'v']
    ||| e == seq!['j', 's', 'o', 'n']
    ||| e == seq!['t', 'o', 'm', 'l']
}

/// Basic filter to only process plaintext and code files.
pub fn is_supported(path: &str) -> (b: bool)
    ensures
        b == supported_ext(extension_or_empty(path@)),
{
    let chars = to_chars(path);
    let e = match extension_of(chars.as_slice()) {
        Some(e) => e,
        None => Vec::new(),
    };
    assert(e@ == extension_or_empty(path@));
    let txt = vec!['t', 'x', 't'];
    let md = vec!['m', 'd'];
    let rs = vec!['r', 's'];
    let py = vec!['p', 'y'];
    let csv = vec!['c', 's', 'v'];
    let json = vec!['j', 's', 'o', 'n'];
    let toml = vec!['t', 'o', 'm', 'l'];
    assert(txt@ =~= seq!['t', 'x', 't']);
    assert(md@ =~= seq!['m', 'd']);
    assert(rs@ =~= seq!['r', 's']);
    assert(py@ =~= seq!['p', 'y']);
    assert(csv@ =~= seq!['c', 's', 'v']);
    assert(json@ =~= seq!['j', 's', 'o', 'n']);
    assert(toml@ =~= seq!['t', 'o', 'm', 'l']);
    let e = e.as_slice();
    chars_eq(e, txt.as_slice()) || chars_eq(e, md.as_slice()) || chars_eq(e, rs.as_slice())
        || chars_eq(e, py.as_slice()) || chars_eq(e, csv.as_slice()) || chars_eq(
        e,
        json.as_slice(),
    ) || chars_eq(e, toml.as_slice())
}

/// The paths among `paths` whose extension is supported, in order.
pub open spec fn supported_paths(paths: Seq<Seq<char>>) -> Seq<Seq<char>>
    decreases paths.len(),
{
    if paths.len() == 0 {
        seq![]
    } else {
        let rest = supported_paths(paths.drop_last());
        if supported_ext(extension_or_empty(paths.last())) {
            rest.push(paths.last())
        } else {
            rest
        }
    }
}

/// The events that a change of `kind` to `paths` calls for: created and
/// modified supported files are upserted, removed ones removed, and other
/// changes (reads, metadata) ignored.
pub open spec fn change_events(kind: ChangeKind, paths: Seq<Seq<char>>) -> Seq<FileEventView> {
    match kind {
        ChangeKind::Create | ChangeKind::Modify => supported_paths(paths).map_values(
            |p: Seq<char>| FileEventView::Upsert(p),
        ),
        ChangeKind::Remove => supported_paths(paths).map_values(
            |p: Seq<char>| FileEventView::Remove(p),
        ),
        ChangeKind::Other => seq![],
    }
}

/// What a vector of events says.
pub open spec fn events_of(v: Seq<FileEvent>) -> Seq<FileEventView> {
    v.map_values(|e: FileEvent| e@)
}

/// The texts held by a vector of strings.
pub open spec fn texts_of(v: Seq<String>) -> Seq<Seq<char>> {
    v.map_values(|s: String| s@)
}

/// The events for a change of `kind` to the files at `paths`.
pub fn file_events(kind: ChangeKind, paths: &Vec<String>) -> (res: Vec<FileEvent>)
    ensures
        events_of(res@) == change_events(kind, texts_of(paths@)),
{
    let mut res: Vec<FileEvent> = Vec::new();
    if kind == ChangeKind::Other {
        assert(events_of(res@) =~= change_events(kind, texts_of(paths@)));
        return res;
    }
    let ghost ps = texts_of(paths@);
    let ghost mk = if kind == ChangeKind::Remove {
        |p: Seq<char>| FileEventView::Remove(p)
    } else {
        |p: Seq<char>| FileEventView::Upsert(p)
    };
    let mut i: usize = 0;
    while i < paths.len()
        invariant
            kind != ChangeKind::Other,
            i <= paths@.len(),
            ps == texts_of(paths@),
            mk == if kind == ChangeKind::Remove {
                |p: Seq<char>| FileEventView::Remove(p)
            } else {
                |p: Seq<char>| FileEventView::Upsert(p)
            },
            events_of(res@) == supported_paths(ps.take(i as int)).map_values(mk),
        decreases paths@.len() - i,
    {
        let p = &paths[i];
        proof {
            let pre = ps.take(i + 1);
            assert(pre.drop_last() =~= ps.take(i as int));
            assert(pre.last() == p@);
        }
        if is_supported(p.as_str()) {
            let path = p.clone();
            let ev = if kind == ChangeKind::Remove {
                FileEvent::Remove(path)
            } else {
                FileEvent::Upsert(path)
            };
            proof {
                assert(events_of(res@.push(ev)) =~= events_of(res@).push(ev@));
                assert(supported_paths(ps.take(i + 1)) == supported_paths(ps.take(i as int)).push(
                    p@,
                ));
                assert(supported_paths(ps.take(i + 1)).map_values(mk) =~= supported_paths(
                    ps.take(i as int),
                ).map_values(mk).push(mk(p@)));
            }
            res.push(ev);
        }
        i = i + 1;
    }
    assert(ps.take(i as int) =~= ps);
    res
}

/// The events for the files found by scanning a directory: every
/// supported file is upserted.
pub fn scan_events(files: &Vec<String>) -> (res: Vec<FileEvent>)
    ensures
        events_of(res@) == change_events(ChangeKind::Create, texts_of(files@)),
{
    file_events(ChangeKind::Create, files)
}

/// A created file is treated as a modified one: both give one upsert per
/// supported path, in order; a removal gives one removal for each of the
/// same paths; other changes give nothing. Every path kept is supported,
/// and a single path is kept exactly when it is supported.
pub proof fn lemma_change_events(paths: Seq<Seq<char>>, p: Seq<char>)
    ensures
        change_events(ChangeKind::Create, paths) == change_events(ChangeKind::Modify, paths),
        change_events(ChangeKind::Create, paths).len() == supported_paths(paths).len(),
        change_events(ChangeKind::Remove, paths).len() == supported_paths(paths).len(),
        forall|i: int|
            0 <= i < supported_paths(paths).len() ==> #[trigger] change_events(
                ChangeKind::Create,
                paths,
            )[i] == FileEventView::Upsert(supported_paths(paths)[i]) && change_events(
                ChangeKind::Remove,
                paths,
            )[i] == FileEventView::Remove(supported_paths(paths)[i]) && supported_ext(
                extension_or_empty(supported_paths(paths)[i]),
            ),
        change_events(ChangeKind::Other, paths).len() == 0,
        supported_paths(seq![p]) == if supported_ext(extension_or_empty(p)) {
            seq![p]
        } else {
            Seq::<Seq<char>>::empty()
        },
{
    lemma_supported_paths_supported(paths);
    assert(seq![p].drop_last() =~= Seq::<Seq<char>>::empty());
    assert(seq![p].last() == p);
    assert(Seq::<Seq<char>>::empty().push(p) =~= seq![p]);
    assert(supported_paths(Seq::<Seq<char>>::empty()) == Seq::<Seq<char>>::empty());
    assert(supported_paths(seq![p].drop_last()) == Seq::<Seq<char>>::empty());
    if supported_ext(extension_or_empty(p)) {
        assert(supported_paths(seq![p]) == Seq::<Seq<char>>::empty().push(p));
    } else {
        assert(supported_paths(seq![p]) == Seq::<Seq<char>>::empty());
    }
}

/// Every path that `supported_paths` keeps is supported.
proof fn lemma_supported_paths_supported(paths: Seq<Seq<char>>)
    ensures
        forall|i: int|
            0 <= i < supported_paths(paths).len() ==> supported_ext(
                extension_or_empty(#[trigger] supported_paths(paths)[i]),
            ),
    decreases paths.len(),
{
    if paths.len() > 0 {
        lemma_supported_paths_supported(paths.drop_last());
        let rest = supported_paths(paths.drop_last());
        assert forall|i: int| 0 <= i < supported_paths(paths).len() implies supported_ext(
            extension_or_empty(#[trigger] supported_paths(paths)[i]),
        ) by {
            if i < rest.len() {
                assert(supported_paths(paths)[i] == rest[i]);
            }
        }
    }
}

} // verus!
