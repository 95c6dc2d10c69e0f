//! The stated properties of one backup run, proved over the snapshot model:
//! the archive entries are exactly the filtered file listing, the output
//! archive never contains itself, files at or before the cutoff are absent,
//! and every kept file appears exactly once, at any nesting depth.

use vstd::prelude::*;

use crate::archive::{entry_fits, name_fresh};
use crate::fstree::{
    files_of_entries, files_of_node, join, keeps, selected_of_entries, selected_of_node, valid_name,
    wf_entries, wf_node, DirEntry, FsNode,
};
use crate::walker::addable;

verus! {

/// What one file contributes to the archive: its (path, content) entry when
/// it passes the time filter and the output exclusion, nothing otherwise.
pub open spec fn keep_entry(cutoff: int, out: Seq<char>) -> spec_fn(
    (Seq<char>, int, Seq<u8>),
) -> Option<(Seq<char>, Seq<u8>)> {
    |f: (Seq<char>, int, Seq<u8>)|
        if keeps(cutoff, out, f) {
            Option::Some((f.0, f.2))
        } else {
            Option::None
        }
}

proof fn lemma_filter_map_add<A, B>(a: Seq<A>, b: Seq<A>, f: spec_fn(A) -> Option<B>)
    ensures
        (a + b).filter_map(f) == a.filter_map(f) + b.filter_map(f),
    decreases b.len(),
{
    if b.len() == 0 {
        assert(a + b =~= a);
        assert(b.filter_map(f) =~= Seq::<B>::empty());
        assert(a.filter_map(f) + b.filter_map(f) =~= a.filter_map(f));
    } else {
        lemma_filter_map_add(a, b.drop_last(), f);
        assert((a + b).drop_last() =~= a + b.drop_last());
        assert((a + b).last() == b.last());
        match f(b.last()) {
            Option::Some(s) => {
                assert((a + b).filter_map(f) =~= a.filter_map(f) + b.filter_map(f));
            },
            Option::None => {
                assert((a + b).filter_map(f) =~= a.filter_map(f) + b.filter_map(f));
            },
        }
    }
}

/// The selection of a run is exactly the file listing filtered: each file
/// strictly newer than the cutoff whose path is not the output path
/// contributes its (relative path, content) entry, in traversal order, and
/// nothing else is selected.
pub proof fn lemma_selected_is_filtered(n: FsNode, cutoff: int, out: Seq<char>, path: Seq<char>)
    ensures
        selected_of_node(n, cutoff, out, path) == files_of_node(n, path).filter_map(
            keep_entry(cutoff, out),
        ),
    decreases n,
{
    let f = keep_entry(cutoff, out);
    match n {
        FsNode::File { mtime, content } => {
            let rec = (path, mtime as int, content@);
            Seq::<(Seq<char>, int, Seq<u8>)>::lemma_filter_map_singleton(rec, f);
            if mtime > cutoff && path != out {
                assert(f(rec) == Option::Some((path, content@)));
                assert(selected_of_node(n, cutoff, out, path) =~= files_of_node(
                    n,
                    path,
                ).filter_map(f));
            } else {
                assert(f(rec) is None);
                assert(selected_of_node(n, cutoff, out, path) =~= files_of_node(
                    n,
                    path,
                ).filter_map(f));
            }
        },
        FsNode::Dir { entries } => {
            lemma_selected_entries_is_filtered(entries@, cutoff, out, path);
        },
    }
}

/// The same statement under a directory's children.
pub proof fn lemma_selected_entries_is_filtered(
    es: Seq<DirEntry>,
    cutoff: int,
    out: Seq<char>,
    prefix: Seq<char>,
)
    ensures
        selected_of_entries(es, cutoff, out, prefix) == files_of_entries(es, prefix).filter_map(
            keep_entry(cutoff, out),
        ),
    decreases es,
{
    let f = keep_entry(cutoff, out);
    if es.len() == 0 {
        assert(files_of_entries(es, prefix).filter_map(f) =~= Seq::<(Seq<char>, Seq<u8>)>::empty());
    } else {
        lemma_selected_is_filtered(es[0].node, cutoff, out, join(prefix, es[0].name@));
        lemma_selected_entries_is_filtered(es.drop_first(), cutoff, out, prefix);
        lemma_filter_map_add(
            files_of_node(es[0].node, join(prefix, es[0].name@)),
            files_of_entries(es.drop_first(), prefix),
            f,
        );
    }
}

/// The resolved output archive path never appears as an entry inside the
/// archive, even if it lies under the root and would satisfy the time
/// filter.
pub proof fn lemma_output_excluded(n: FsNode, cutoff: int, out: Seq<char>, path: Seq<char>, k: int)
    requires
        0 <= k < selected_of_node(n, cutoff, out, path).len(),
    ensures
        selected_of_node(n, cutoff, out, path)[k].0 != out,
{
    let f = keep_entry(cutoff, out);
    let files = files_of_node(n, path);
    let sel = selected_of_node(n, cutoff, out, path);
    lemma_selected_is_filtered(n, cutoff, out, path);
    assert(sel.contains(sel[k]));
    files.lemma_filter_map_contains(f, sel[k]);
    let t = choose|t: (Seq<char>, int, Seq<u8>)|
        #[trigger] files.contains(t) && f(t) == Option::Some(sel[k]);
    assert(keeps(cutoff, out, t));
    assert(sel[k].0 == t.0);
}

/// Path `q` lies at or strictly below path `p`: it is `p` itself, or it
/// extends `p` and (unless `p` is the root) a separator follows the prefix.
pub open spec fn under(q: Seq<char>, p: Seq<char>) -> bool {
    q == p || (q.len() > p.len() && q.take(p.len() as int) == p && (p.len() == 0 || q[p.len() as int]
        == '/'))
}

proof fn lemma_file_under_node(n: FsNode, path: Seq<char>, k: int)
    requires
        0 <= k < files_of_node(n, path).len(),
    ensures
        under(files_of_node(n, path)[k].0, path),
    decreases n,
{
    match n {
        FsNode::File { .. } => {
        },
        FsNode::Dir { entries } => {
            lemma_file_under_entries(entries@, path, k);
            let q = files_of_node(n, path)[k].0;
            let j = choose|j: int|
                0 <= j < entries@.len() && under(q, join(path, #[trigger] entries@[j].name@));
            lemma_under_join(q, path, entries@[j].name@);
        },
    }
}

proof fn lemma_file_under_entries(es: Seq<DirEntry>, prefix: Seq<char>, k: int)
    requires
        0 <= k < files_of_entries(es, prefix).len(),
    ensures
        exists|j: int|
            0 <= j < es.len() && under(
                files_of_entries(es, prefix)[k].0,
                join(prefix, #[trigger] es[j].name@),
            ),
    decreases es,
{
    let f0 = files_of_node(es[0].node, join(prefix, es[0].name@));
    let rest = files_of_entries(es.drop_first(), prefix);
    let q = files_of_entries(es, prefix)[k].0;
    if k < f0.len() {
        lemma_file_under_node(es[0].node, join(prefix, es[0].name@), k);
        assert(files_of_entries(es, prefix)[k] == f0[k]);
        assert(under(q, join(prefix, es[0].name@)));
    } else {
        lemma_file_under_entries(es.drop_first(), prefix, k - f0.len());
        let tail = es.drop_first();
        let j = choose|j: int|
            0 <= j < tail.len() && under(
                rest[k - f0.len()].0,
                join(prefix, #[trigger] tail[j].name@),
            );
        assert(files_of_entries(es, prefix)[k] == rest[k - f0.len()]);
        assert(tail[j] == es[j + 1]);
        assert(under(q, join(prefix, es[j + 1].name@)));
    }
}

proof fn lemma_under_join(q: Seq<char>, p: Seq<char>, name: Seq<char>)
    requires
        under(q, join(p, name)),
    ensures
        under(q, p),
{
    if p.len() == 0 {
        if q.len() == 0 {
            assert(q =~= p);
        } else {
            assert(q.take(0) =~= p);
        }
    } else {
        let j = join(p, name);
        assert(j == p + seq!['/'] + name);
        assert(j.len() == p.len() + 1 + name.len());
        if q == j {
            assert(q.take(p.len() as int) =~= p);
            assert(q[p.len() as int] == '/');
        } else {
            assert(q.take(j.len() as int) == j);
            assert(q.take(p.len() as int) =~= q.take(j.len() as int).take(p.len() as int));
            assert(q.take(j.len() as int).take(p.len() as int) =~= p);
            assert(q[p.len() as int] == q.take(j.len() as int)[p.len() as int]);
            assert(j[p.len() as int] == '/');
        }
    }
}

proof fn lemma_names_same_le(p: Seq<char>, a: Seq<char>, b: Seq<char>, q: Seq<char>)
    requires
        valid_name(a),
        valid_name(b),
        a.len() <= b.len(),
        under(q, join(p, a)),
        under(q, join(p, b)),
    ensures
        a == b,
{
    let sep: int = if p.len() == 0 {
        0
    } else {
        p.len() as int + 1
    };
    let ja = join(p, a);
    let jb = join(p, b);
    assert(ja.len() == sep + a.len());
    assert(jb.len() == sep + b.len());
    assert(q.len() >= ja.len() && q.take(ja.len() as int) == ja) by {
        if q == ja {
            assert(q.take(ja.len() as int) =~= ja);
        }
    }
    assert(q.len() >= jb.len() && q.take(jb.len() as int) == jb) by {
        if q == jb {
            assert(q.take(jb.len() as int) =~= jb);
        }
    }
    if a.len() == b.len() {
        assert(ja == jb);
        assert(a =~= b) by {
            assert forall|i: int| 0 <= i < a.len() implies a[i] == b[i] by {
                assert(ja[sep + i] == a[i]);
                assert(jb[sep + i] == b[i]);
            }
        }
    } else {
        assert(q.len() > ja.len()) by {
            if q == ja {
                assert(q.len() < jb.len());
                assert(under(q, jb));
                assert(false);
            }
        }
        assert(q[ja.len() as int] == '/');
        assert(q.take(jb.len() as int)[ja.len() as int] == q[ja.len() as int]);
        assert(jb[ja.len() as int] == b[a.len() as int]);
        assert(b[a.len() as int] != '/');
    }
}

/// Two valid names whose subtrees share a path are the same name.
proof fn lemma_names_same(p: Seq<char>, a: Seq<char>, b: Seq<char>, q: Seq<char>)
    requires
        valid_name(a),
        valid_name(b),
        under(q, join(p, a)),
        under(q, join(p, b)),
    ensures
        a == b,
{
    if a.len() <= b.len() {
        lemma_names_same_le(p, a, b, q);
    } else {
        lemma_names_same_le(p, b, a, q);
    }
}

/// In a well formed snapshot — distinct, separator-free names within each
/// directory — every file bears a distinct relative path.
pub proof fn lemma_paths_distinct(n: FsNode, path: Seq<char>, i: int, k: int)
    requires
        wf_node(n),
        0 <= i < k < files_of_node(n, path).len(),
    ensures
        files_of_node(n, path)[i].0 != files_of_node(n, path)[k].0,
    decreases n,
{
    match n {
        FsNode::File { .. } => {
        },
        FsNode::Dir { entries } => {
            lemma_paths_distinct_entries(entries@, path, i, k);
        },
    }
}

proof fn lemma_paths_distinct_entries(es: Seq<DirEntry>, prefix: Seq<char>, i: int, k: int)
    requires
        wf_entries(es),
        0 <= i < k < files_of_entries(es, prefix).len(),
    ensures
        files_of_entries(es, prefix)[i].0 != files_of_entries(es, prefix)[k].0,
    decreases es,
{
    let tail = es.drop_first();
    let f0 = files_of_node(es[0].node, join(prefix, es[0].name@));
    let rest = files_of_entries(tail, prefix);
    assert(wf_entries(tail)) by {
        assert(forall|j: int| 0 <= j < tail.len() ==> #[trigger] tail[j] == es[j + 1]);
    }
    if k < f0.len() {
        assert(wf_node(es[0].node));
        lemma_paths_distinct(es[0].node, join(prefix, es[0].name@), i, k);
        assert(files_of_entries(es, prefix)[i] == f0[i]);
        assert(files_of_entries(es, prefix)[k] == f0[k]);
    } else if i >= f0.len() {
        lemma_paths_distinct_entries(tail, prefix, i - f0.len(), k - f0.len());
        assert(files_of_entries(es, prefix)[i] == rest[i - f0.len()]);
        assert(files_of_entries(es, prefix)[k] == rest[k - f0.len()]);
    } else {
        let q0 = f0[i].0;
        let q1 = rest[k - f0.len()].0;
        assert(files_of_entries(es, prefix)[i] == f0[i]);
        assert(files_of_entries(es, prefix)[k] == rest[k - f0.len()]);
        lemma_file_under_node(es[0].node, join(prefix, es[0].name@), i);
        lemma_file_under_entries(tail, prefix, k - f0.len());
        let j = choose|j: int|
            0 <= j < tail.len() && under(q1, join(prefix, #[trigger] tail[j].name@));
        assert(tail[j] == es[j + 1]);
        assert(es[0].name@ != es[j + 1].name@);
        if q0 == q1 {
            lemma_names_same(prefix, es[0].name@, es[j + 1].name@, q0);
        }
    }
}

proof fn lemma_filter_map_mem_fwd<A, B>(s: Seq<A>, f: spec_fn(A) -> Option<B>, i: int)
    requires
        0 <= i < s.len(),
        f(s[i]) is Some,
    ensures
        s.filter_map(f).contains(f(s[i])->Some_0),
    decreases s.len(),
{
    let out = s.filter_map(f);
    if i == s.len() - 1 {
        assert(s.last() == s[i]);
        assert(out.last() == f(s[i])->Some_0);
        assert(out.contains(f(s[i])->Some_0));
    } else {
        lemma_filter_map_mem_fwd(s.drop_last(), f, i);
        assert(s.drop_last()[i] == s[i]);
        let rest_out = s.drop_last().filter_map(f);
        let w = choose|w: int| 0 <= w < rest_out.len() && rest_out[w] == f(s[i])->Some_0;
        assert(out[w] == f(s[i])->Some_0);
    }
}

/// When the file listing bears pairwise distinct paths, so do the archive
/// entries it selects.
proof fn lemma_selected_paths_distinct_of(
    files: Seq<(Seq<char>, int, Seq<u8>)>,
    cutoff: int,
    out: Seq<char>,
)
    requires
        forall|i: int, k: int|
            0 <= i < k < files.len() ==> (#[trigger] files[i]).0 != (#[trigger] files[k]).0,
    ensures
        forall|k1: int, k2: int|
            0 <= k1 < k2 < files.filter_map(keep_entry(cutoff, out)).len() ==> (
            #[trigger] files.filter_map(keep_entry(cutoff, out))[k1]).0 != (
            #[trigger] files.filter_map(keep_entry(cutoff, out))[k2]).0,
    decreases files.len(),
{
    let f = keep_entry(cutoff, out);
    let sel = files.filter_map(f);
    if files.len() == 0 {
    } else {
        let rest = files.drop_last();
        let rest_out = rest.filter_map(f);
        lemma_selected_paths_distinct_of(rest, cutoff, out);
        match f(files.last()) {
            Option::Some(b) => {
                assert(sel =~= rest_out + seq![b]);
                assert forall|k1: int, k2: int|
                    0 <= k1 < k2 < sel.len() implies (#[trigger] sel[k1]).0 != (
                #[trigger] sel[k2]).0 by {
                    if k2 < rest_out.len() {
                        assert(sel[k1] == rest_out[k1]);
                        assert(sel[k2] == rest_out[k2]);
                    } else {
                        assert(sel[k2] == b);
                        assert(b.0 == files.last().0);
                        assert(sel[k1] == rest_out[k1]);
                        assert(rest_out.contains(rest_out[k1]));
                        rest.lemma_filter_map_contains(f, rest_out[k1]);
                        let t = choose|t: (Seq<char>, int, Seq<u8>)|
                            #[trigger] rest.contains(t) && f(t) == Option::Some(rest_out[k1]);
                        let w = choose|w: int| 0 <= w < rest.len() && rest[w] == t;
                        assert(files[w] == t);
                        assert(t.0 == rest_out[k1].0);
                        assert(files[w].0 != files.last().0);
                    }
                }
            },
            Option::None => {
                assert(sel =~= rest_out);
            },
        }
    }
}

/// In a well formed snapshot the selected entries bear pairwise distinct
/// names: the distinctness that `addable` asks of a selection.
pub proof fn lemma_selected_paths_distinct(n: FsNode, cutoff: int, out: Seq<char>, path: Seq<char>)
    requires
        wf_node(n),
    ensures
        forall|k1: int, k2: int|
            0 <= k1 < k2 < selected_of_node(n, cutoff, out, path).len() ==> (
            #[trigger] selected_of_node(n, cutoff, out, path)[k1]).0 != (
            #[trigger] selected_of_node(n, cutoff, out, path)[k2]).0,
{
    let files = files_of_node(n, path);
    lemma_selected_is_filtered(n, cutoff, out, path);
    assert forall|i1: int, k1: int|
        0 <= i1 < k1 < files.len() implies (#[trigger] files[i1]).0 != (#[trigger] files[k1]).0 by {
        lemma_paths_distinct(n, path, i1, k1);
    }
    lemma_selected_paths_distinct_of(files, cutoff, out);
}

/// A well formed snapshot owes the run success whenever each selected entry
/// is within the container's limits: against an empty archive nothing can
/// collide, and well-formedness gives the selected names' distinctness.
pub proof fn lemma_wf_selection_addable(n: FsNode, cutoff: int, out: Seq<char>, path: Seq<char>)
    requires
        wf_node(n),
        forall|k: int|
            0 <= k < selected_of_node(n, cutoff, out, path).len() ==> entry_fits(
                (#[trigger] selected_of_node(n, cutoff, out, path)[k]).0,
                selected_of_node(n, cutoff, out, path)[k].1,
            ),
    ensures
        addable(selected_of_node(n, cutoff, out, path), Seq::<(Seq<char>, Seq<u8>)>::empty()),
{
    let sel = selected_of_node(n, cutoff, out, path);
    lemma_selected_paths_distinct(n, cutoff, out, path);
    assert forall|k: int| 0 <= k < sel.len() implies name_fresh(
        (#[trigger] sel[k]).0,
        Seq::<(Seq<char>, Seq<u8>)>::empty(),
    ) by {}
}

/// Every file strictly newer than the cutoff whose path is not the resolved
/// output path appears exactly once among the archive entries of a well
/// formed snapshot, under its path relative to the root, with its content.
/// Depth plays no role: the statement holds of a file at any nesting depth.
pub proof fn lemma_newer_file_archived_once(
    n: FsNode,
    cutoff: int,
    out: Seq<char>,
    path: Seq<char>,
    i: int,
)
    requires
        wf_node(n),
        0 <= i < files_of_node(n, path).len(),
        files_of_node(n, path)[i].1 > cutoff,
        files_of_node(n, path)[i].0 != out,
    ensures
        selected_of_node(n, cutoff, out, path).contains(
            (files_of_node(n, path)[i].0, files_of_node(n, path)[i].2),
        ),
        forall|k1: int, k2: int|
            0 <= k1 < k2 < selected_of_node(n, cutoff, out, path).len() ==> (
            #[trigger] selected_of_node(n, cutoff, out, path)[k1]).0 != (
            #[trigger] selected_of_node(n, cutoff, out, path)[k2]).0,
{
    let f = keep_entry(cutoff, out);
    let files = files_of_node(n, path);
    lemma_selected_is_filtered(n, cutoff, out, path);
    assert(f(files[i]) == Option::Some((files[i].0, files[i].2)));
    lemma_filter_map_mem_fwd(files, f, i);
    lemma_selected_paths_distinct(n, cutoff, out, path);
}

/// A file whose modification instant is at or before the cutoff does not
/// appear in the archive of a well formed snapshot: no entry bears its
/// path.
pub proof fn lemma_old_file_absent(
    n: FsNode,
    cutoff: int,
    out: Seq<char>,
    path: Seq<char>,
    i: int,
    k: int,
)
    requires
        wf_node(n),
        0 <= i < files_of_node(n, path).len(),
        files_of_node(n, path)[i].1 <= cutoff,
        0 <= k < selected_of_node(n, cutoff, out, path).len(),
    ensures
        selected_of_node(n, cutoff, out, path)[k].0 != files_of_node(n, path)[i].0,
{
    let f = keep_entry(cutoff, out);
    let files = files_of_node(n, path);
    let sel = selected_of_node(n, cutoff, out, path);
    lemma_selected_is_filtered(n, cutoff, out, path);
    assert(sel.contains(sel[k]));
    files.lemma_filter_map_contains(f, sel[k]);
    let t = choose|t: (Seq<char>, int, Seq<u8>)|
        #[trigger] files.contains(t) && f(t) == Option::Some(sel[k]);
    assert(keeps(cutoff, out, t));
    let w = choose|w: int| 0 <= w < files.len() && files[w] == t;
    if sel[k].0 == files[i].0 {
        assert(files[w].0 == files[i].0);
        if w < i {
            lemma_paths_distinct(n, path, w, i);
        } else if i < w {
            lemma_paths_distinct(n, path, i, w);
        }
        assert(w == i);
        assert(files[i].1 > cutoff);
    }
}

} // verus!
