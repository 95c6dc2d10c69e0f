//! The walker: depth-first traversal of a snapshot tree, applying the
//! modification-time filter and the output-file exclusion, and driving the
//! archive writer one accepted file at a time.

use vstd::prelude::*;
use vstd::string::StringExecFns;

use crate::archive::{entry_fits, name_fresh, zip_bytes, ArchiveError, ArchiveWriter};
use crate::fstree::{
    join, lemma_selected_entries_bound, lemma_selected_entries_split,
    lemma_selected_of_entries_push, selected_of_entries, selected_of_node, FsNode,
};

verus! {

/// Every entry of `sel` can be added to an archive already holding
/// `existing`: each within the container's limits, the names pairwise
/// distinct, and none colliding with an existing entry. On such a
/// selection a run is owed success.
pub open spec fn addable(
    sel: Seq<(Seq<char>, Seq<u8>)>,
    existing: Seq<(Seq<char>, Seq<u8>)>,
) -> bool {
    &&& forall|k: int| 0 <= k < sel.len() ==> entry_fits((#[trigger] sel[k]).0, sel[k].1)
    &&& forall|k1: int, k2: int|
        0 <= k1 < k2 < sel.len() ==> (#[trigger] sel[k1]).0 != (#[trigger] sel[k2]).0
    &&& forall|k: int| 0 <= k < sel.len() ==> name_fresh((#[trigger] sel[k]).0, existing)
}

/// The state of one backup run: the immutable configuration (cutoff instant
/// and resolved output archive path) and the in-progress archive.
pub struct State {
    /// The cutoff instant, seconds since the Unix epoch: only files strictly
    /// newer are archived.
    pub floor_time: i64,
    /// The resolved output archive path, excluded from the candidate set for
    /// the entire run.
    pub output_file: String,
    /// The in-progress archive, owned exclusively by this run.
    pub zip: ArchiveWriter,
}

impl State {
    /// The (relative name, content) entries archived so far, in traversal
    /// order.
    pub closed spec fn archived(self) -> Seq<(Seq<char>, Seq<u8>)> {
        self.zip.entries()
    }

    pub fn new(floor_time: i64, output_file: String) -> (s: State)
        ensures
            s.floor_time == floor_time,
            s.output_file == output_file,
            s.archived() == Seq::<(Seq<char>, Seq<u8>)>::empty(),
    {
        State { floor_time, output_file, zip: ArchiveWriter::new() }
    }

    /// The modification-time filter: strictly newer than the cutoff; a file
    /// modified exactly at the cutoff is excluded.
    pub fn file_is_newer(&self, mtime: i64) -> (r: bool)
        ensures
            r == (mtime > self.floor_time),
    {
        self.floor_time < mtime
    }

    /// Streams one accepted file into the archive under its relative name.
    /// Success is owed whenever the name is fresh and the entry is within
    /// the container's limits.
    pub fn zip_file(&mut self, name: &str, content: &[u8]) -> (r: Result<(), ArchiveError>)
        ensures
            final(self).floor_time == old(self).floor_time,
            final(self).output_file == old(self).output_file,
            r is Ok ==> final(self).archived() == old(self).archived().push((name@, content@)),
            name_fresh(name@, old(self).archived()) && entry_fits(name@, content@) ==> r is Ok,
    {
        self.zip.add_entry(name, content)
    }

    /// Walks one directory: recurses into each subdirectory, applies the
    /// filter and the output exclusion to each file, and archives every
    /// accepted file under its path relative to the root. On success the
    /// archive has grown by exactly the selected entries of `dir`, in
    /// traversal order; the first failure aborts the walk. A failure can
    /// only come from the archive container refusing an entry, so success
    /// is owed whenever every selected entry is addable — in particular a
    /// walk that selects nothing always succeeds.
    pub fn walk_files(&mut self, dir: &FsNode, path: &String) -> (r: Result<(), ArchiveError>)
        requires
            dir is Dir,
        ensures
            final(self).floor_time == old(self).floor_time,
            final(self).output_file == old(self).output_file,
            r is Ok ==> final(self).archived() == old(self).archived() + selected_of_node(
                *dir,
                old(self).floor_time as int,
                old(self).output_file@,
                path@,
            ),
            r is Err ==> selected_of_node(
                *dir,
                old(self).floor_time as int,
                old(self).output_file@,
                path@,
            ).len() > 0,
            addable(
                selected_of_node(
                    *dir,
                    old(self).floor_time as int,
                    old(self).output_file@,
                    path@,
                ),
                old(self).archived(),
            ) ==> r is Ok,
        decreases *dir,
    {
        match dir {
            FsNode::File { .. } => {
                assert(false);
                Err(ArchiveError::EntryStart)
            },
            FsNode::Dir { entries } => {
                let ghost a0 = self.archived();
                let ghost cutoff = self.floor_time as int;
                let ghost out = self.output_file@;
                let ghost s_full = selected_of_entries(entries@, cutoff, out, path@);
                let mut i: usize = 0;
                while i < entries.len()
                    invariant
                        i <= entries@.len(),
                        dir is Dir,
                        entries@ == dir->Dir_entries@,
                        self.floor_time == old(self).floor_time,
                        self.output_file == old(self).output_file,
                        a0 == old(self).archived(),
                        cutoff == old(self).floor_time as int,
                        out == old(self).output_file@,
                        s_full == selected_of_entries(entries@, cutoff, out, path@),
                        self.archived() == a0 + selected_of_entries(
                            entries@.take(i as int),
                            cutoff,
                            out,
                            path@,
                        ),
                    decreases entries@.len() - i,
                {
                    let e = &entries[i];
                    let ghost s_pre = selected_of_entries(entries@.take(i as int), cutoff, out, path@);
                    let ghost n_i = selected_of_node(e.node, cutoff, out, join(path@, e.name@));
                    let ghost s_post = selected_of_entries(
                        entries@.skip(i as int + 1),
                        cutoff,
                        out,
                        path@,
                    );
                    proof {
                        assert(entries@[i as int] == *e);
                        lemma_selected_entries_split(entries@, cutoff, out, path@, i as int);
                        assert(entries@.skip(i as int)[0] == entries@[i as int]);
                        assert(entries@.skip(i as int).drop_first() =~= entries@.skip(i as int + 1));
                        assert(selected_of_entries(entries@.skip(i as int), cutoff, out, path@)
                            == n_i + s_post);
                        assert(s_full == s_pre + (n_i + s_post));
                    }
                    let mut child_path: String = path.clone();
                    if !child_path.as_str().is_empty() {
                        child_path.append("/");
                    }
                    child_path.append(e.name.as_str());
                    proof {
                        reveal_strlit("/");
                        assert("/"@ =~= seq!['/']);
                        assert(child_path@ == join(path@, e.name@));
                    }
                    let ghost a_before = self.archived();
                    match &e.node {
                        FsNode::Dir { .. } => {
                            proof {
                                assert(decreases_to!(*entries => entries@));
                                assert(decreases_to!(entries@ => entries@[i as int]));
                            }
                            match self.walk_files(&e.node, &child_path) {
                                Ok(()) => {},
                                Err(err) => {
                                    proof {
                                        lemma_selected_entries_bound(
                                            entries@,
                                            cutoff,
                                            out,
                                            path@,
                                            i as int,
                                        );
                                        if addable(s_full, a0) {
                                            lemma_addable_step(s_full, s_pre, n_i, s_post, a0);
                                            assert(false);
                                        }
                                    }
                                    return Err(err);
                                },
                            }
                            assert(self.archived() == a_before + selected_of_node(
                                e.node,
                                cutoff,
                                out,
                                join(path@, e.name@),
                            ));
                        },
                        FsNode::File { mtime, content } => {
                            if self.file_is_newer(*mtime) && child_path != self.output_file {
                                match self.zip_file(child_path.as_str(), content.as_slice()) {
                                    Ok(()) => {},
                                    Err(err) => {
                                        proof {
                                            assert(n_i.len() == 1);
                                            lemma_selected_entries_bound(
                                                entries@,
                                                cutoff,
                                                out,
                                                path@,
                                                i as int,
                                            );
                                            if addable(s_full, a0) {
                                                lemma_addable_step(s_full, s_pre, n_i, s_post, a0);
                                                assert(n_i[0] == (child_path@, content@));
                                                assert(entry_fits(child_path@, content@));
                                                assert(name_fresh(child_path@, a0 + s_pre));
                                                assert(false);
                                            }
                                        }
                                        return Err(err);
                                    },
                                }
                                proof {
                                    assert(a_before.push((child_path@, content@)) =~= a_before
                                        + selected_of_node(
                                        e.node,
                                        cutoff,
                                        out,
                                        join(path@, e.name@),
                                    ));
                                }
                            } else {
                                proof {
                                    assert(selected_of_node(
                                        e.node,
                                        cutoff,
                                        out,
                                        join(path@, e.name@),
                                    ) =~= Seq::<(Seq<char>, Seq<u8>)>::empty());
                                    assert(a_before + selected_of_node(
                                        e.node,
                                        cutoff,
                                        out,
                                        join(path@, e.name@),
                                    ) =~= a_before);
                                }
                            }
                        },
                    }
                    proof {
                        assert(entries@.take(i + 1) =~= entries@.take(i as int).push(
                            entries@[i as int],
                        ));
                        lemma_selected_of_entries_push(
                            entries@.take(i as int),
                            entries@[i as int],
                            cutoff,
                            out,
                            path@,
                        );
                        assert(a0 + (selected_of_entries(entries@.take(i as int), cutoff, out, path@)
                            + selected_of_node(e.node, cutoff, out, join(path@, e.name@))) =~= (a0
                            + selected_of_entries(entries@.take(i as int), cutoff, out, path@))
                            + selected_of_node(e.node, cutoff, out, join(path@, e.name@)));
                    }
                    i = i + 1;
                }
                proof {
                    assert(entries@.take(entries@.len() as int) =~= entries@);
                }
                Ok(())
            },
        }
    }

    /// Finalizes the run's archive; the returned bytes are a valid
    /// uncompressed zip container holding exactly the archived entries, in
    /// order. Over the in-memory container finalization always succeeds.
    pub fn finish(self) -> (r: Result<Vec<u8>, ArchiveError>)
        ensures
            r is Ok,
            r is Ok ==> r->Ok_0@ == zip_bytes(self.archived()),
    {
        self.zip.finish()
    }
}

/// Under an addable whole selection, the slice a single child contributes
/// is itself addable against the archive as it stands when that child is
/// reached.
proof fn lemma_addable_step(
    s_full: Seq<(Seq<char>, Seq<u8>)>,
    s_pre: Seq<(Seq<char>, Seq<u8>)>,
    n_i: Seq<(Seq<char>, Seq<u8>)>,
    s_post: Seq<(Seq<char>, Seq<u8>)>,
    a0: Seq<(Seq<char>, Seq<u8>)>,
)
    requires
        addable(s_full, a0),
        s_full == s_pre + (n_i + s_post),
    ensures
        addable(n_i, a0 + s_pre),
{
    assert forall|k: int| 0 <= k < n_i.len() implies entry_fits(
        (#[trigger] n_i[k]).0,
        n_i[k].1,
    ) by {
        assert(s_full[s_pre.len() + k] == (n_i + s_post)[k]);
        assert(s_full[s_pre.len() + k] == n_i[k]);
        assert(entry_fits((s_full[s_pre.len() + k]).0, s_full[s_pre.len() + k].1));
    }
    assert forall|k1: int, k2: int| 0 <= k1 < k2 < n_i.len() implies (#[trigger] n_i[k1]).0 != (
    #[trigger] n_i[k2]).0 by {
        assert(s_full[s_pre.len() + k1] == n_i[k1]);
        assert(s_full[s_pre.len() + k2] == n_i[k2]);
    }
    assert forall|k: int| 0 <= k < n_i.len() implies name_fresh(
        (#[trigger] n_i[k]).0,
        a0 + s_pre,
    ) by {
        assert(s_full[s_pre.len() + k] == n_i[k]);
        assert(name_fresh((s_full[s_pre.len() + k]).0, a0));
        assert forall|j: int| 0 <= j < (a0 + s_pre).len() implies ((a0 + s_pre)[j]).0 != n_i[k].0 by {
            if j < a0.len() {
                assert((a0 + s_pre)[j] == a0[j]);
            } else {
                assert((a0 + s_pre)[j] == s_pre[j - a0.len()]);
                assert(s_full[j - a0.len()] == s_pre[j - a0.len()]);
            }
        }
    }
}

/// The default output archive path, used when no output location is
/// supplied: `output.zip`, resolved against the working directory.
pub fn default_output_file() -> (r: String)
    ensures
        r@ == "output.zip"@,
{
    "output.zip".to_owned()
}

/// One whole backup run over a snapshot tree: walks the tree from the root,
/// archives every file strictly newer than `floor_time` other than the
/// output archive itself, and finalizes the container. On success the
/// returned bytes are the uncompressed archive holding exactly the selected
/// files, under root-relative forward-slash names, in traversal order; and
/// success is owed whenever the selection is addable — distinct names
/// within the container's limits, as a well formed tree of ordinary files
/// yields.
pub fn build_archive(root: &FsNode, floor_time: i64, output_file: String) -> (r: Result<
    Vec<u8>,
    ArchiveError,
>)
    requires
        root is Dir,
    ensures
        r is Ok ==> r->Ok_0@ == zip_bytes(
            selected_of_node(*root, floor_time as int, output_file@, Seq::<char>::empty()),
        ),
        addable(
            selected_of_node(*root, floor_time as int, output_file@, Seq::<char>::empty()),
            Seq::<(Seq<char>, Seq<u8>)>::empty(),
        ) ==> r is Ok,
{
    let mut st = State::new(floor_time, output_file);
    let empty_path = String::new();
    match st.walk_files(root, &empty_path) {
        Ok(()) => {},
        Err(e) => {
            return Err(e);
        },
    }
    proof {
        assert(Seq::<(Seq<char>, Seq<u8>)>::empty() + selected_of_node(
            *root,
            floor_time as int,
            st.output_file@,
            empty_path@,
        ) =~= selected_of_node(*root, floor_time as int, st.output_file@, empty_path@));
    }
    st.finish()
}

} // verus!
