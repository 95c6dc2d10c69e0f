//! An in-memory snapshot of the directory tree under the root, and the
//! selection semantics of one backup run: which files are archived, under
//! which root-relative names, and in which order.

use vstd::prelude::*;

verus! {

/// One name-to-node binding inside a directory, in listing order.
pub struct DirEntry {
    pub name: String,
    pub node: FsNode,
}

/// A snapshot of one filesystem node: a regular file with its
/// last-modification instant (seconds since the Unix epoch) and its byte
/// content, or a directory with its children in the order the directory
/// listing yielded them.
pub enum FsNode {
    File { mtime: i64, content: Vec<u8> },
    Dir { entries: Vec<DirEntry> },
}

/// Extends a relative path by one component, forward-slash separated; the
/// empty prefix denotes the root itself, so its children keep bare names.
pub open spec fn join(prefix: Seq<char>, name: Seq<char>) -> Seq<char> {
    if prefix.len() == 0 {
        name
    } else {
        prefix + seq!['/'] + name
    }
}

/// Every regular file under `n`, as (relative path, modification instant,
/// content), in depth-first traversal order; `path` is the relative path of
/// `n` itself.
pub open spec fn files_of_node(n: FsNode, path: Seq<char>) -> Seq<(Seq<char>, int, Seq<u8>)>
    decreases n,
{
    match n {
        FsNode::File { mtime, content } => seq![(path, mtime as int, content@)],
        FsNode::Dir { entries } => files_of_entries(entries@, path),
    }
}

/// The files under a directory's children, in listing order.
pub open spec fn files_of_entries(es: Seq<DirEntry>, prefix: Seq<char>) -> Seq<
    (Seq<char>, int, Seq<u8>),
>
    decreases es,
{
    if es.len() == 0 {
        Seq::empty()
    } else {
        files_of_node(es[0].node, join(prefix, es[0].name@)) + files_of_entries(
            es.drop_first(),
            prefix,
        )
    }
}

/// The modification-time filter plus the output-file exclusion: a file is
/// kept exactly when its instant is strictly newer than the cutoff and its
/// path is not the resolved output archive path.
pub open spec fn keeps(cutoff: int, out: Seq<char>, f: (Seq<char>, int, Seq<u8>)) -> bool {
    f.1 > cutoff && f.0 != out
}

/// The archive entries one run produces for node `n`: (relative path, byte
/// content) for each kept file, in depth-first traversal order.
pub open spec fn selected_of_node(n: FsNode, cutoff: int, out: Seq<char>, path: Seq<char>) -> Seq<
    (Seq<char>, Seq<u8>),
>
    decreases n,
{
    match n {
        FsNode::File { mtime, content } => if mtime > cutoff && path != out {
            seq![(path, content@)]
        } else {
            Seq::empty()
        },
        FsNode::Dir { entries } => selected_of_entries(entries@, cutoff, out, path),
    }
}

/// The archive entries produced under a directory's children, in listing
/// order.
pub open spec fn selected_of_entries(
    es: Seq<DirEntry>,
    cutoff: int,
    out: Seq<char>,
    prefix: Seq<char>,
) -> Seq<(Seq<char>, Seq<u8>)>
    decreases es,
{
    if es.len() == 0 {
        Seq::empty()
    } else {
        selected_of_node(es[0].node, cutoff, out, join(prefix, es[0].name@))
            + selected_of_entries(es.drop_first(), cutoff, out, prefix)
    }
}

/// A usable component name: nonempty and free of the separator.
pub open spec fn valid_name(s: Seq<char>) -> bool {
    s.len() > 0 && forall|i: int| 0 <= i < s.len() ==> s[i] != '/'
}

/// A well-formed snapshot, as a real filesystem listing yields it: within
/// each directory the names are valid and pairwise distinct, recursively.
pub open spec fn wf_node(n: FsNode) -> bool
    decreases n,
{
    match n {
        FsNode::File { .. } => true,
        FsNode::Dir { entries } => wf_entries(entries@),
    }
}

pub open spec fn wf_entries(es: Seq<DirEntry>) -> bool
    decreases es,
{
    &&& forall|i: int| 0 <= i < es.len() ==> valid_name(#[trigger] es[i].name@)
    &&& forall|i: int, j: int|
        0 <= i < j < es.len() ==> #[trigger] es[i].name@ != #[trigger] es[j].name@
    &&& forall|i: int| 0 <= i < es.len() ==> wf_node(#[trigger] es[i].node)
}

/// Splitting off the last child: the selection of `es.push(e)` is the
/// selection of `es` followed by the selection under `e`.
pub proof fn lemma_selected_of_entries_push(
    es: Seq<DirEntry>,
    e: DirEntry,
    cutoff: int,
    out: Seq<char>,
    prefix: Seq<char>,
)
    ensures
        selected_of_entries(es.push(e), cutoff, out, prefix) == selected_of_entries(
            es,
            cutoff,
            out,
            prefix,
        ) + selected_of_node(e.node, cutoff, out, join(prefix, e.name@)),
    decreases es,
{
    if es.len() == 0 {
        let tail = es.push(e).drop_first();
        assert(es.push(e)[0] == e);
        assert(tail.len() == 0);
        assert(selected_of_entries(tail, cutoff, out, prefix) == Seq::<
            (Seq<char>, Seq<u8>),
        >::empty());
        assert(selected_of_entries(es, cutoff, out, prefix) == Seq::<
            (Seq<char>, Seq<u8>),
        >::empty());
        assert(selected_of_entries(es.push(e), cutoff, out, prefix) =~= selected_of_entries(
            es,
            cutoff,
            out,
            prefix,
        ) + selected_of_node(e.node, cutoff, out, join(prefix, e.name@)));
    } else {
        assert(es.push(e).drop_first() =~= es.drop_first().push(e));
        assert(es.push(e)[0] == es[0]);
        lemma_selected_of_entries_push(es.drop_first(), e, cutoff, out, prefix);
        assert(selected_of_entries(es.push(e), cutoff, out, prefix) =~= selected_of_entries(
            es,
            cutoff,
            out,
            prefix,
        ) + selected_of_node(e.node, cutoff, out, join(prefix, e.name@)));
    }
}

/// Splitting at a child index: the selection of a directory is the
/// selection of the children before `i` followed by that of the children
/// from `i` on.
pub proof fn lemma_selected_entries_split(
    es: Seq<DirEntry>,
    cutoff: int,
    out: Seq<char>,
    prefix: Seq<char>,
    i: int,
)
    requires
        0 <= i <= es.len(),
    ensures
        selected_of_entries(es, cutoff, out, prefix) == selected_of_entries(
            es.take(i),
            cutoff,
            out,
            prefix,
        ) + selected_of_entries(es.skip(i), cutoff, out, prefix),
    decreases i,
{
    if i == 0 {
        assert(es.take(0) =~= Seq::<DirEntry>::empty());
        assert(es.skip(0) =~= es);
        assert(selected_of_entries(es.take(0), cutoff, out, prefix) =~= Seq::<
            (Seq<char>, Seq<u8>),
        >::empty());
        assert(selected_of_entries(es.take(0), cutoff, out, prefix) + selected_of_entries(
            es,
            cutoff,
            out,
            prefix,
        ) =~= selected_of_entries(es, cutoff, out, prefix));
    } else {
        lemma_selected_entries_split(es, cutoff, out, prefix, i - 1);
        lemma_selected_of_entries_push(es.take(i - 1), es[i - 1], cutoff, out, prefix);
        assert(es.take(i) =~= es.take(i - 1).push(es[i - 1]));
        let mid = selected_of_node(es[i - 1].node, cutoff, out, join(prefix, es[i - 1].name@));
        assert(es.skip(i - 1)[0] == es[i - 1]);
        assert(es.skip(i - 1).drop_first() =~= es.skip(i));
        assert(selected_of_entries(es.skip(i - 1), cutoff, out, prefix) == mid
            + selected_of_entries(es.skip(i), cutoff, out, prefix));
        assert(selected_of_entries(es.take(i - 1), cutoff, out, prefix) + (mid
            + selected_of_entries(es.skip(i), cutoff, out, prefix)) =~= (selected_of_entries(
            es.take(i - 1),
            cutoff,
            out,
            prefix,
        ) + mid) + selected_of_entries(es.skip(i), cutoff, out, prefix));
    }
}

/// A directory selects at least as much as any one of its children.
pub proof fn lemma_selected_entries_bound(
    es: Seq<DirEntry>,
    cutoff: int,
    out: Seq<char>,
    prefix: Seq<char>,
    j: int,
)
    requires
        0 <= j < es.len(),
    ensures
        selected_of_entries(es, cutoff, out, prefix).len() >= selected_of_node(
            es[j].node,
            cutoff,
            out,
            join(prefix, es[j].name@),
        ).len(),
    decreases es,
{
    if j == 0 {
    } else {
        lemma_selected_entries_bound(es.drop_first(), cutoff, out, prefix, j - 1);
        assert(es.drop_first()[j - 1] == es[j]);
    }
}

} // verus!
