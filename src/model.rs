//! A finite directory tree, and what a walk of it records.
use vstd::prelude::*;
use vstd::seq_lib::lemma_no_dup_in_concat;
use crate::exclude::path_excluded;
use crate::render::{separator_count, join_text, lemma_depth_is_separators_plus_one};
use crate::walk::{advance, remaining, EntryView, FrameView, PathView, lemma_no_patterns_exclude_nothing};

verus! {

/// A node of a directory tree: a file, or a directory with named entries.
pub enum FsNode {
    File,
    Dir(Seq<(Seq<char>, FsNode)>),
}

/// The named entries of a directory.
pub type FsEntries = Seq<(Seq<char>, FsNode)>;

/// The entries of a node (none for a file).
pub open spec fn children(n: FsNode) -> FsEntries {
    match n {
        FsNode::Dir(c) => c,
        FsNode::File => Seq::empty(),
    }
}

/// The listing a directory with entries `e` gives.
pub open spec fn listing_of(e: FsEntries) -> Seq<EntryView> {
    e.map_values(|x: (Seq<char>, FsNode)| (x.0, x.1 is Dir))
}

/// The entries of the first entry named `name` (none if there is none).
pub open spec fn lookup(e: FsEntries, name: Seq<char>) -> FsEntries
    decreases e.len(),
{
    if e.len() == 0 {
        Seq::empty()
    } else if e[0].0 == name {
        children(e[0].1)
    } else {
        lookup(e.drop_first(), name)
    }
}

/// The entries of the directory at `path` below a root with entries `root`.
pub open spec fn subtree(root: FsEntries, path: PathView) -> FsEntries
    decreases path.len(),
{
    if path.len() == 0 {
        root
    } else {
        lookup(subtree(root, path.drop_last()), path.last())
    }
}

/// No two entries of `e` share a name.
pub open spec fn unique_names(e: FsEntries) -> bool {
    forall|i: int, j: int| 0 <= i < j < e.len() ==> (#[trigger] e[i]).0 != (#[trigger] e[j]).0
}

/// Every directory of the tree has entries with distinct names.
pub open spec fn tree_unique(root: FsEntries) -> bool {
    forall|p: PathView| #[trigger] unique_names(subtree(root, p))
}

/// The paths of the entries of `e` from index `i` on and of everything below
/// them, in pre-order: each entry, then its descendants, then its later
/// siblings.
pub open spec fn preorder_from(dir: PathView, e: FsEntries, i: int) -> Seq<PathView>
    decreases e, e.len() - i,
{
    if i < 0 || i >= e.len() {
        Seq::empty()
    } else {
        let p = dir.push(e[i].0);
        let below = match e[i].1 {
            FsNode::Dir(c) => preorder_from(p, c, 0),
            FsNode::File => Seq::empty(),
        };
        seq![p] + below + preorder_from(dir, e, i + 1)
    }
}

/// The number of directories among the entries of `e` from index `i` on and
/// below them.
pub open spec fn dirs_from(e: FsEntries, i: int) -> nat
    decreases e, e.len() - i,
{
    if i < 0 || i >= e.len() {
        0
    } else {
        let below: nat = match e[i].1 {
            FsNode::Dir(c) => 1 + dirs_from(c, 0),
            FsNode::File => 0,
        };
        below + dirs_from(e, i + 1)
    }
}

/// The paths a walk with exclusion patterns records from the entries of `e`
/// from index `i` on: as `preorder_from`, except that an entry whose full path
/// (`root` followed by its components) has a component matched by a pattern is
/// left out together with everything below it.
pub open spec fn kept_from(
    root: Seq<Seq<char>>,
    patterns: Seq<Seq<char>>,
    dir: PathView,
    e: FsEntries,
    i: int,
) -> Seq<PathView>
    decreases e, e.len() - i,
{
    if i < 0 || i >= e.len() {
        Seq::empty()
    } else {
        let p = dir.push(e[i].0);
        if path_excluded(root + p, patterns) {
            kept_from(root, patterns, dir, e, i + 1)
        } else {
            let below = match e[i].1 {
                FsNode::Dir(c) => kept_from(root, patterns, p, c, 0),
                FsNode::File => Seq::empty(),
            };
            seq![p] + below + kept_from(root, patterns, dir, e, i + 1)
        }
    }
}

/// The number of directories that a walk with exclusion patterns asks for
/// among the entries of `e` from index `i` on and below them.
pub open spec fn kept_dirs_from(
    root: Seq<Seq<char>>,
    patterns: Seq<Seq<char>>,
    dir: PathView,
    e: FsEntries,
    i: int,
) -> nat
    decreases e, e.len() - i,
{
    if i < 0 || i >= e.len() {
        0
    } else {
        let p = dir.push(e[i].0);
        if path_excluded(root + p, patterns) {
            kept_dirs_from(root, patterns, dir, e, i + 1)
        } else {
            let below: nat = match e[i].1 {
                FsNode::Dir(c) => 1 + kept_dirs_from(root, patterns, p, c, 0),
                FsNode::File => 0,
            };
            below + kept_dirs_from(root, patterns, dir, e, i + 1)
        }
    }
}

/// Runs a walk against `tree`, answering each request with the listing of
/// the directory asked for, for at most `fuel` listings.
pub open spec fn drive(
    root: Seq<Seq<char>>,
    patterns: Seq<Seq<char>>,
    tree: FsEntries,
    frames: Seq<FrameView>,
    out: Seq<PathView>,
    pending: Option<PathView>,
    fuel: nat,
) -> Seq<PathView>
    decreases fuel,
{
    match pending {
        None => out,
        Some(p) => if fuel == 0 {
            out
        } else {
            let t = advance(root, patterns, frames.push((p, listing_of(subtree(tree, p)), 0)), out);
            drive(
                root,
                patterns,
                tree,
                t.0,
                t.1,
                if t.0.len() == 0 { None } else { Some(t.1.last()) },
                (fuel - 1) as nat,
            )
        },
    }
}

/// The frame `f` has handed out the directory `child` as its last entry.
spec fn linked(f: FrameView, child: PathView) -> bool {
    &&& 1 <= f.2 <= f.1.len()
    &&& f.1[f.2 - 1].1
    &&& child == f.0.push(f.1[f.2 - 1].0)
}

spec fn frames_ok(tree: FsEntries, frames: Seq<FrameView>) -> bool {
    &&& forall|j: int| 0 <= j < frames.len() ==> (#[trigger] frames[j]).1 == listing_of(subtree(tree, frames[j].0))
        && frames[j].2 <= frames[j].1.len()
    &&& forall|j: int| 0 <= j < frames.len() - 1 ==> linked(#[trigger] frames[j], frames[j + 1].0)
}

/// What the frames have still to record.
spec fn rest(root: Seq<Seq<char>>, patterns: Seq<Seq<char>>, tree: FsEntries, frames: Seq<FrameView>) -> Seq<PathView>
    decreases frames.len(),
{
    if frames.len() == 0 {
        Seq::empty()
    } else {
        kept_from(root, patterns, frames.last().0, subtree(tree, frames.last().0), frames.last().2 as int)
            + rest(root, patterns, tree, frames.drop_last())
    }
}

/// The directories the frames have still to hand out.
spec fn rest_dirs(root: Seq<Seq<char>>, patterns: Seq<Seq<char>>, tree: FsEntries, frames: Seq<FrameView>) -> nat
    decreases frames.len(),
{
    if frames.len() == 0 {
        0
    } else {
        kept_dirs_from(root, patterns, frames.last().0, subtree(tree, frames.last().0), frames.last().2 as int)
            + rest_dirs(root, patterns, tree, frames.drop_last())
    }
}

proof fn lemma_lookup_unique(e: FsEntries, k: int)
    requires
        unique_names(e),
        0 <= k < e.len(),
    ensures
        lookup(e, e[k].0) == children(e[k].1),
    decreases e.len(),
{
    if k > 0 {
        assert(e[0].0 != e[k].0);
        let t = e.drop_first();
        assert(t[k - 1] == e[k]);
        assert forall|i: int, j: int| 0 <= i < j < t.len() implies (#[trigger] t[i]).0 != (#[trigger] t[j]).0 by {
            assert(t[i] == e[i + 1] && t[j] == e[j + 1]);
        }
        lemma_lookup_unique(t, k - 1);
    }
}

proof fn lemma_subtree_child(tree: FsEntries, d: PathView, k: int)
    requires
        tree_unique(tree),
        0 <= k < subtree(tree, d).len(),
    ensures
        subtree(tree, d.push(subtree(tree, d)[k].0)) == children(subtree(tree, d)[k].1),
{
    let e = subtree(tree, d);
    let p = d.push(e[k].0);
    assert(p.drop_last() =~= d);
    assert(unique_names(subtree(tree, d)));
    lemma_lookup_unique(e, k);
}

/// One call of `advance` on frames that agree with `tree`.
proof fn lemma_advance_agrees(
    root: Seq<Seq<char>>,
    patterns: Seq<Seq<char>>,
    tree: FsEntries,
    frames: Seq<FrameView>,
    out: Seq<PathView>,
)
    requires
        tree_unique(tree),
        frames_ok(tree, frames),
    ensures
        ({
            let t = advance(root, patterns, frames, out);
            &&& frames_ok(tree, t.0)
            &&& t.0.len() == 0 ==> t.1 == out + rest(root, patterns, tree, frames)
                && rest_dirs(root, patterns, tree, frames) == 0
            &&& t.0.len() > 0 ==> {
                &&& t.1.len() > 0
                &&& linked(t.0.last(), t.1.last())
                &&& out + rest(root, patterns, tree, frames) == t.1
                    + kept_from(root, patterns, t.1.last(), subtree(tree, t.1.last()), 0)
                    + rest(root, patterns, tree, t.0)
                &&& rest_dirs(root, patterns, tree, frames) == 1
                    + kept_dirs_from(root, patterns, t.1.last(), subtree(tree, t.1.last()), 0)
                    + rest_dirs(root, patterns, tree, t.0)
            }
        }),
    decreases frames.len(), remaining(frames),
{
    if frames.len() == 0 {
        assert(out + rest(root, patterns, tree, frames) =~= out);
    } else {
        let top = frames.last();
        let e = subtree(tree, top.0);
        let n = top.2 as int;
        assert(frames[frames.len() - 1] == top);
        if top.2 >= top.1.len() {
            assert(kept_from(root, patterns, top.0, e, n) =~= Seq::<PathView>::empty());
            assert(frames_ok(tree, frames.drop_last()));
            lemma_advance_agrees(root, patterns, tree, frames.drop_last(), out);
        } else {
            let x = top.1[n];
            assert(x == (e[n].0, e[n].1 is Dir));
            let path = top.0.push(x.0);
            let upd = frames.update(frames.len() - 1, (top.0, top.1, top.2 + 1));
            assert(upd.drop_last() =~= frames.drop_last());
            assert(upd.last() == (top.0, top.1, top.2 + 1));
            assert(frames_ok(tree, upd)) by {
                assert forall|j: int| 0 <= j < upd.len() - 1 implies linked(#[trigger] upd[j], upd[j + 1].0) by {
                    assert(upd[j] == frames[j]);
                    assert(upd[j + 1].0 == frames[j + 1].0);
                }
            }
            assert(rest(root, patterns, tree, upd)
                == kept_from(root, patterns, top.0, e, n + 1) + rest(root, patterns, tree, frames.drop_last()));
            assert(rest_dirs(root, patterns, tree, upd)
                == kept_dirs_from(root, patterns, top.0, e, n + 1) + rest_dirs(root, patterns, tree, frames.drop_last()));
            if path_excluded(root + path, patterns) {
                lemma_advance_agrees(root, patterns, tree, upd, out);
                assert(out + rest(root, patterns, tree, frames) =~= out + rest(root, patterns, tree, upd));
            } else {
                lemma_subtree_child(tree, top.0, n);
                let below = match e[n].1 {
                    FsNode::Dir(c) => kept_from(root, patterns, path, c, 0),
                    FsNode::File => Seq::<PathView>::empty(),
                };
                assert(kept_from(root, patterns, top.0, e, n)
                    == seq![path] + below + kept_from(root, patterns, top.0, e, n + 1));
                if x.1 {
                    assert(linked(upd.last(), path));
                    assert(out + rest(root, patterns, tree, frames)
                        =~= out.push(path) + below + rest(root, patterns, tree, upd));
                } else {
                    assert(below =~= Seq::<PathView>::empty());
                    lemma_advance_agrees(root, patterns, tree, upd, out.push(path));
                    assert(out + rest(root, patterns, tree, frames) =~= out.push(path) + rest(root, patterns, tree, upd));
                }
            }
        }
    }
}

proof fn lemma_drive_agrees(
    root: Seq<Seq<char>>,
    patterns: Seq<Seq<char>>,
    tree: FsEntries,
    frames: Seq<FrameView>,
    out: Seq<PathView>,
    p: PathView,
    fuel: nat,
)
    requires
        tree_unique(tree),
        frames_ok(tree, frames),
        frames.len() > 0 ==> linked(frames.last(), p),
        fuel > kept_dirs_from(root, patterns, p, subtree(tree, p), 0) + rest_dirs(root, patterns, tree, frames),
    ensures
        drive(root, patterns, tree, frames, out, Some(p), fuel)
            == out + kept_from(root, patterns, p, subtree(tree, p), 0) + rest(root, patterns, tree, frames),
    decreases fuel,
{
    let g = frames.push((p, listing_of(subtree(tree, p)), 0));
    assert(g.drop_last() =~= frames);
    assert(frames_ok(tree, g)) by {
        assert forall|j: int| 0 <= j < g.len() - 1 implies linked(#[trigger] g[j], g[j + 1].0) by {
            assert(g[j] == frames[j]);
        }
        assert forall|j: int| 0 <= j < g.len() implies (#[trigger] g[j]).1 == listing_of(subtree(tree, g[j].0))
            && g[j].2 <= g[j].1.len() by {
            if j < frames.len() {
                assert(g[j] == frames[j]);
            }
        }
    }
    assert(rest(root, patterns, tree, g)
        == kept_from(root, patterns, p, subtree(tree, p), 0) + rest(root, patterns, tree, frames));
    assert(rest_dirs(root, patterns, tree, g)
        == kept_dirs_from(root, patterns, p, subtree(tree, p), 0) + rest_dirs(root, patterns, tree, frames));
    lemma_advance_agrees(root, patterns, tree, g, out);
    let t = advance(root, patterns, g, out);
    assert(drive(root, patterns, tree, frames, out, Some(p), fuel) == drive(
        root, patterns, tree, t.0, t.1,
        if t.0.len() == 0 { None } else { Some(t.1.last()) },
        (fuel - 1) as nat,
    ));
    if t.0.len() > 0 {
        lemma_drive_agrees(root, patterns, tree, t.0, t.1, t.1.last(), (fuel - 1) as nat);
    }
    assert(out + rest(root, patterns, tree, g)
        =~= out + kept_from(root, patterns, p, subtree(tree, p), 0) + rest(root, patterns, tree, frames));
}

/// A walk of a tree (whose directories hold entries with distinct names)
/// that is handed the listing of each directory it asks for records exactly
/// `kept_from`: the tree's entries in pre-order, without any entry whose path
/// has a component matched by a pattern and without anything below such an
/// entry. One listing per directory recorded, plus the root's, suffices.
pub proof fn lemma_walk_records_kept(
    root: Seq<Seq<char>>,
    patterns: Seq<Seq<char>>,
    tree: FsEntries,
    fuel: nat,
)
    requires
        tree_unique(tree),
        fuel > kept_dirs_from(root, patterns, Seq::empty(), tree, 0),
    ensures
        drive(root, patterns, tree, Seq::empty(), Seq::empty(), Some(Seq::empty()), fuel)
            == kept_from(root, patterns, Seq::empty(), tree, 0),
{
    assert(subtree(tree, Seq::<Seq<char>>::empty()) == tree);
    lemma_drive_agrees(root, patterns, tree, Seq::empty(), Seq::empty(), Seq::empty(), fuel);
    assert(Seq::<PathView>::empty() + kept_from(root, patterns, Seq::empty(), tree, 0)
        + rest(root, patterns, tree, Seq::empty()) =~= kept_from(root, patterns, Seq::empty(), tree, 0));
}

proof fn lemma_kept_without_patterns(root: Seq<Seq<char>>, dir: PathView, e: FsEntries, i: int)
    ensures
        kept_from(root, Seq::empty(), dir, e, i) == preorder_from(dir, e, i),
        kept_dirs_from(root, Seq::empty(), dir, e, i) == dirs_from(e, i),
    decreases e, e.len() - i,
{
    if 0 <= i < e.len() {
        let p = dir.push(e[i].0);
        lemma_no_patterns_exclude_nothing(root + p);
        lemma_kept_without_patterns(root, dir, e, i + 1);
        match e[i].1 {
            FsNode::Dir(c) => {
                lemma_kept_without_patterns(root, p, c, 0);
            },
            FsNode::File => {},
        }
    }
}

/// With no exclusion patterns, a walk of a tree (whose directories hold
/// entries with distinct names) that is handed the listing of each directory
/// it asks for records every file and directory exactly as the tree's
/// pre-order enumeration does: each once, each directory before its
/// descendants, in listing order.
pub proof fn lemma_walk_is_preorder(root: Seq<Seq<char>>, tree: FsEntries, fuel: nat)
    requires
        tree_unique(tree),
        fuel > dirs_from(tree, 0),
    ensures
        drive(root, Seq::empty(), tree, Seq::empty(), Seq::empty(), Some(Seq::empty()), fuel)
            == preorder_from(Seq::empty(), tree, 0),
{
    lemma_kept_without_patterns(root, Seq::empty(), tree, 0);
    lemma_walk_records_kept(root, Seq::empty(), tree, fuel);
}

/// Walking the same unchanged tree twice, with the same root and patterns,
/// records the same paths in the same order, however many listings each run
/// was allowed beyond those it needs.
pub proof fn lemma_walk_repeatable(
    root: Seq<Seq<char>>,
    patterns: Seq<Seq<char>>,
    tree: FsEntries,
    fuel1: nat,
    fuel2: nat,
)
    requires
        tree_unique(tree),
        fuel1 > kept_dirs_from(root, patterns, Seq::empty(), tree, 0),
        fuel2 > kept_dirs_from(root, patterns, Seq::empty(), tree, 0),
    ensures
        drive(root, patterns, tree, Seq::empty(), Seq::empty(), Some(Seq::empty()), fuel1)
            == drive(root, patterns, tree, Seq::empty(), Seq::empty(), Some(Seq::empty()), fuel2),
{
    lemma_walk_records_kept(root, patterns, tree, fuel1);
    lemma_walk_records_kept(root, patterns, tree, fuel2);
}

/// No entry name anywhere in the tree holds a separator.
pub open spec fn names_without_separator(tree: FsEntries) -> bool {
    forall|p: PathView, k: int| 0 <= k < subtree(tree, p).len()
        ==> separator_count(#[trigger] subtree(tree, p)[k].0) == 0
}

proof fn lemma_preorder_shape(tree: FsEntries, dir: PathView, i: int)
    requires
        tree_unique(tree),
    ensures
        forall|m: int| 0 <= m < preorder_from(dir, subtree(tree, dir), i).len() ==> {
            let q = #[trigger] preorder_from(dir, subtree(tree, dir), i)[m];
            &&& dir.len() < q.len()
            &&& q.subrange(0, dir.len() as int) == dir
            &&& exists|k: int| i <= k < subtree(tree, dir).len() && q[dir.len() as int] == (#[trigger] subtree(tree, dir)[k]).0
            &&& names_without_separator(tree) ==> forall|t: int| dir.len() <= t < q.len() ==> separator_count(#[trigger] q[t]) == 0
        },
    decreases subtree(tree, dir), subtree(tree, dir).len() - i,
{
    let e = subtree(tree, dir);
    if 0 <= i < e.len() {
        let p = dir.push(e[i].0);
        lemma_preorder_shape(tree, dir, i + 1);
        let below = match e[i].1 {
            FsNode::Dir(c) => preorder_from(p, c, 0),
            FsNode::File => Seq::<PathView>::empty(),
        };
        if e[i].1 is Dir {
            lemma_subtree_child(tree, dir, i);
            lemma_preorder_shape(tree, p, 0);
        }
        let whole = preorder_from(dir, e, i);
        assert(whole == seq![p] + below + preorder_from(dir, e, i + 1));
        assert forall|m: int| 0 <= m < whole.len() implies {
            let q = #[trigger] whole[m];
            &&& dir.len() < q.len()
            &&& q.subrange(0, dir.len() as int) == dir
            &&& exists|k: int| i <= k < e.len() && q[dir.len() as int] == (#[trigger] e[k]).0
            &&& names_without_separator(tree) ==> forall|t: int| dir.len() <= t < q.len() ==> separator_count(#[trigger] q[t]) == 0
        } by {
            let q = whole[m];
            if m == 0 {
                assert(q == p);
                assert(q.subrange(0, dir.len() as int) =~= dir);
                assert(q[dir.len() as int] == e[i].0);
                if names_without_separator(tree) {
                    assert(separator_count(subtree(tree, dir)[i].0) == 0);
                    assert forall|t: int| dir.len() <= t < q.len() implies separator_count(#[trigger] q[t]) == 0 by {
                        assert(t == dir.len());
                    }
                }
            } else if m < 1 + below.len() {
                assert(q == below[m - 1]);
                assert(q.subrange(0, p.len() as int) == p);
                assert(q.subrange(0, dir.len() as int) =~= q.subrange(0, p.len() as int).subrange(0, dir.len() as int));
                assert(q[dir.len() as int] == q.subrange(0, p.len() as int)[dir.len() as int]);
                if names_without_separator(tree) {
                    assert(separator_count(subtree(tree, dir)[i].0) == 0);
                    assert forall|t: int| dir.len() <= t < q.len() implies separator_count(#[trigger] q[t]) == 0 by {
                        if t == dir.len() {
                            assert(q[t] == e[i].0);
                        }
                    }
                }
            } else {
                assert(q == preorder_from(dir, e, i + 1)[m - 1 - below.len()]);
            }
        }
    }
}

proof fn lemma_preorder_no_duplicates(tree: FsEntries, dir: PathView, i: int)
    requires
        tree_unique(tree),
    ensures
        preorder_from(dir, subtree(tree, dir), i).no_duplicates(),
    decreases subtree(tree, dir), subtree(tree, dir).len() - i,
{
    let e = subtree(tree, dir);
    if 0 <= i < e.len() {
        let p = dir.push(e[i].0);
        let rest = preorder_from(dir, e, i + 1);
        lemma_preorder_no_duplicates(tree, dir, i + 1);
        lemma_preorder_shape(tree, dir, i + 1);
        let below = match e[i].1 {
            FsNode::Dir(c) => preorder_from(p, c, 0),
            FsNode::File => Seq::<PathView>::empty(),
        };
        if e[i].1 is Dir {
            lemma_subtree_child(tree, dir, i);
            lemma_preorder_no_duplicates(tree, p, 0);
            lemma_preorder_shape(tree, p, 0);
        }
        assert(below.no_duplicates());
        assert forall|a: int, b: int| 0 <= a < 1 && 0 <= b < below.len() implies seq![p][a] != below[b] by {
            assert(p.len() < below[b].len());
        }
        lemma_no_dup_in_concat(seq![p], below);
        let head = seq![p] + below;
        assert forall|a: int| 0 <= a < head.len() implies (#[trigger] head[a])[dir.len() as int] == e[i].0 by {
            if a > 0 {
                let q = below[a - 1];
                assert(head[a] == q);
                assert(q.subrange(0, p.len() as int) == p);
                assert(q[dir.len() as int] == q.subrange(0, p.len() as int)[dir.len() as int]);
            }
        }
        assert(unique_names(subtree(tree, dir)));
        assert forall|a: int, b: int| 0 <= a < head.len() && 0 <= b < rest.len() implies head[a] != rest[b] by {
            let q = rest[b];
            let k = choose|k: int| i + 1 <= k < e.len() && q[dir.len() as int] == (#[trigger] e[k]).0;
            assert(e[i].0 != e[k].0);
            assert(head[a][dir.len() as int] == e[i].0);
        }
        lemma_no_dup_in_concat(head, rest);
        assert(preorder_from(dir, e, i) == head + rest);
    }
}

/// With no exclusion patterns, a walk of a tree whose directories hold
/// entries with distinct names records no path twice.
pub proof fn lemma_walk_records_each_once(root: Seq<Seq<char>>, tree: FsEntries, fuel: nat)
    requires
        tree_unique(tree),
        fuel > dirs_from(tree, 0),
    ensures
        drive(root, Seq::empty(), tree, Seq::empty(), Seq::empty(), Some(Seq::empty()), fuel).no_duplicates(),
{
    lemma_walk_is_preorder(root, tree, fuel);
    lemma_preorder_no_duplicates(tree, Seq::empty(), 0);
    assert(subtree(tree, Seq::<Seq<char>>::empty()) == tree);
}

/// With no exclusion patterns, in a walk of a tree whose entry names hold no
/// separator, every recorded path has a depth (its number of components) of
/// at least one, and is written with one separator fewer than its depth.
pub proof fn lemma_walk_depth_is_separators(root: Seq<Seq<char>>, tree: FsEntries, fuel: nat, m: int)
    requires
        tree_unique(tree),
        names_without_separator(tree),
        fuel > dirs_from(tree, 0),
        0 <= m < drive(root, Seq::empty(), tree, Seq::empty(), Seq::empty(), Some(Seq::empty()), fuel).len(),
    ensures
        ({
            let q = drive(root, Seq::empty(), tree, Seq::empty(), Seq::empty(), Some(Seq::empty()), fuel)[m];
            q.len() >= 1 && separator_count(join_text(q)) + 1 == q.len()
        }),
{
    lemma_walk_is_preorder(root, tree, fuel);
    assert(subtree(tree, Seq::<Seq<char>>::empty()) == tree);
    lemma_preorder_shape(tree, Seq::empty(), 0);
    let q = preorder_from(Seq::empty(), tree, 0)[m];
    assert(forall|t: int| 0 <= t < q.len() ==> separator_count(#[trigger] q[t]) == 0);
    lemma_depth_is_separators_plus_one(q);
}

} // verus!
