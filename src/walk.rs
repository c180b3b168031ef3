//! Depth-first, pre-order traversal of a directory tree, driven by listings.
//!
//! The walker never reads the filesystem itself: it names the directory whose
//! listing it needs next, and its caller hands that listing over. Entries
//! matched by an exclusion pattern are skipped together with their subtree,
//! which is never asked for.
use vstd::prelude::*;
use crate::exclude::{
    ExclusionPattern, path_excluded, component_excluded, pattern_texts, texts, split_path,
    split_components, are_components_excluded,
};

verus! {

/// One entry of a directory listing.
pub struct DirEntry {
    pub name: String,
    pub is_dir: bool,
}

/// An entry as a name and whether it is a directory.
pub type EntryView = (Seq<char>, bool);

/// A directory being walked: its components relative to the root, its
/// entries, and the index of the next entry to look at.
pub type FrameView = (Seq<Seq<char>>, Seq<EntryView>, nat);

/// A path relative to the root, as its components.
pub type PathView = Seq<Seq<char>>;

pub open spec fn entry_views(v: Seq<DirEntry>) -> Seq<EntryView> {
    v.map_values(|e: DirEntry| (e.name@, e.is_dir))
}

/// The number of entries of the innermost directory still to be looked at.
pub open spec fn remaining(frames: Seq<FrameView>) -> nat {
    if frames.len() == 0 {
        0
    } else {
        let top = frames.last();
        if top.2 < top.1.len() {
            (top.1.len() - top.2) as nat
        } else {
            0
        }
    }
}

/// Continues a walk over `frames` with `out` recorded so far, until it either
/// records a directory (whose listing it then needs) or has no frame left.
/// Entries are looked at in listing order; a directory's descendants come
/// right after it; an entry whose full path (`root` followed by its relative
/// components) has a component matched by a pattern is skipped, and its
/// subtree with it.
pub open spec fn advance(
    root: Seq<Seq<char>>,
    patterns: Seq<Seq<char>>,
    frames: Seq<FrameView>,
    out: Seq<PathView>,
) -> (Seq<FrameView>, Seq<PathView>)
    decreases frames.len(), remaining(frames),
{
    if frames.len() == 0 {
        (frames, out)
    } else {
        let top = frames.last();
        if top.2 >= top.1.len() {
            advance(root, patterns, frames.drop_last(), out)
        } else {
            let e = top.1[top.2 as int];
            let path = top.0.push(e.0);
            let rest = frames.update(frames.len() - 1, (top.0, top.1, top.2 + 1));
            if path_excluded(root + path, patterns) {
                advance(root, patterns, rest, out)
            } else if e.1 {
                (rest, out.push(path))
            } else {
                advance(root, patterns, rest, out.push(path))
            }
        }
    }
}

struct Frame {
    dir: Vec<String>,
    entries: Vec<DirEntry>,
    next: usize,
}

spec fn frame_view(f: Frame) -> FrameView {
    (texts(f.dir@), entry_views(f.entries@), f.next as nat)
}

/// Why a walk could not go on.
pub enum WalkError {
    /// The root's listing could not be read.
    RootUnreadable,
}

/// The state of a walk.
pub struct TreeWalker {
    root: Vec<String>,
    patterns: Vec<ExclusionPattern>,
    frames: Vec<Frame>,
    results: Vec<Vec<String>>,
    pending: Option<Vec<String>>,
}

fn append_components(out: &mut Vec<String>, v: &Vec<String>)
    ensures
        texts(final(out)@) == texts(old(out)@) + texts(v@),
{
    let mut i: usize = 0;
    while i < v.len()
        invariant
            i <= v@.len(),
            texts(out@) == texts(old(out)@) + texts(v@.subrange(0, i as int)),
        decreases v@.len() - i,
    {
        let ghost before = out@;
        out.push(v[i].clone());
        assert(texts(v@.subrange(0, i + 1)) =~= texts(v@.subrange(0, i as int)).push(v@[i as int]@));
        assert(texts(out@) =~= texts(before).push(v@[i as int]@));
        i = i + 1;
    }
    assert(v@.subrange(0, v@.len() as int) == v@);
}

impl TreeWalker {
    /// The root's components.
    pub closed spec fn root_view(&self) -> Seq<Seq<char>> {
        texts(self.root@)
    }

    /// The regular expressions of the exclusion patterns.
    pub closed spec fn patterns_view(&self) -> Seq<Seq<char>> {
        pattern_texts(self.patterns@)
    }

    /// The directories being walked, outermost first.
    pub closed spec fn frames_view(&self) -> Seq<FrameView> {
        self.frames@.map_values(|f: Frame| frame_view(f))
    }

    /// The paths recorded so far, relative to the root, in pre-order.
    pub closed spec fn results_view(&self) -> Seq<PathView> {
        self.results@.map_values(|r: Vec<String>| texts(r@))
    }

    /// The directory whose listing the walk needs next, relative to the root;
    /// `None` once the walk is over.
    pub closed spec fn pending_view(&self) -> Option<PathView> {
        match self.pending {
            Some(d) => Some(texts(d@)),
            None => None,
        }
    }

    /// The walk's invariant: frames point inside their listings, a finished
    /// walk has no frame left, and no recorded path has an excluded component.
    pub closed spec fn wf(&self) -> bool {
        &&& forall|k: int| 0 <= k < self.frames@.len()
            ==> (#[trigger] self.frames@[k]).next <= self.frames@[k].entries@.len()
        &&& (self.pending is None ==> self.frames@.len() == 0)
        &&& forall|i: int| 0 <= i < self.results_view().len()
            ==> !path_excluded(self.root_view() + #[trigger] self.results_view()[i], self.patterns_view())
    }

    /// Starts a walk of `root` (a path written as text) that skips whatever
    /// `patterns` exclude. The first listing it needs is the root's.
    pub fn new(root: &str, patterns: Vec<ExclusionPattern>) -> (w: Self)
        ensures
            w.wf(),
            w.root_view() == split_path(root@),
            w.patterns_view() == pattern_texts(patterns@),
            w.frames_view() == Seq::<FrameView>::empty(),
            w.results_view() == Seq::<PathView>::empty(),
            w.pending_view() == Some(Seq::<Seq<char>>::empty()),
    {
        let w = TreeWalker {
            root: split_components(root),
            patterns,
            frames: Vec::new(),
            results: Vec::new(),
            pending: Some(Vec::new()),
        };
        assert(w.frames_view() =~= Seq::<FrameView>::empty());
        assert(w.results_view() =~= Seq::<PathView>::empty());
        assert(texts(Seq::<String>::empty()) =~= Seq::<Seq<char>>::empty());
        w
    }

    /// Whether the walk is over.
    pub fn is_done(&self) -> (r: bool)
        ensures
            r == (self.pending_view() is None),
    {
        self.pending.is_none()
    }

    /// The directory whose listing the walk needs next, relative to the root.
    pub fn pending_dir(&self) -> (r: Option<Vec<String>>)
        ensures
            r matches Some(d) ==> self.pending_view() == Some(texts(d@)),
            r is None ==> self.pending_view() is None,
    {
        match &self.pending {
            Some(d) => {
                let mut c: Vec<String> = Vec::new();
                append_components(&mut c, d);
                assert(texts(Seq::<String>::empty()) + texts(d@) =~= texts(d@));
                Some(c)
            },
            None => None,
        }
    }

    /// The paths recorded so far, relative to the root, in pre-order.
    pub fn results(&self) -> (r: &Vec<Vec<String>>)
        ensures
            r@.map_values(|p: Vec<String>| texts(p@)) == self.results_view(),
    {
        &self.results
    }

    /// Reports that the pending directory could not be read. For the root
    /// that is an error and ends the walk with nothing recorded; below the root
    /// the directory counts as empty and the walk goes on.
    pub fn listing_failed(&mut self) -> (r: Result<(), WalkError>)
        requires
            old(self).wf(),
            old(self).pending_view() is Some,
        ensures
            final(self).wf(),
            final(self).root_view() == old(self).root_view(),
            final(self).patterns_view() == old(self).patterns_view(),
            (r is Err) <==> old(self).frames_view().len() == 0,
            r is Err ==> final(self).pending_view() is None
                && final(self).frames_view() == old(self).frames_view()
                && final(self).results_view() == old(self).results_view(),
            r is Ok ==> ({
                let t = advance(
                    old(self).root_view(),
                    old(self).patterns_view(),
                    old(self).frames_view().push(
                        (old(self).pending_view().unwrap(), Seq::<EntryView>::empty(), 0),
                    ),
                    old(self).results_view(),
                );
                &&& final(self).frames_view() == t.0
                &&& final(self).results_view() == t.1
                &&& final(self).pending_view() == if t.0.len() == 0 {
                    None
                } else {
                    Some(t.1.last())
                }
            }),
    {
        if self.frames.len() == 0 {
            self.pending = None;
            assert(self.results_view() == old(self).results_view());
            assert(self.root_view() == old(self).root_view());
            assert(self.patterns_view() == old(self).patterns_view());
            Err(WalkError::RootUnreadable)
        } else {
            let empty: Vec<DirEntry> = Vec::new();
            assert(entry_views(empty@) =~= Seq::<EntryView>::empty());
            self.feed(empty);
            Ok(())
        }
    }

    /// Hands over the listing of the pending directory (empty where it could
    /// not be read) and walks on until the next directory is recorded or the
    /// walk is over.
    pub fn feed(&mut self, listing: Vec<DirEntry>)
        requires
            old(self).wf(),
            old(self).pending_view() is Some,
        ensures
            final(self).wf(),
            final(self).root_view() == old(self).root_view(),
            final(self).patterns_view() == old(self).patterns_view(),
            ({
                let t = advance(
                    old(self).root_view(),
                    old(self).patterns_view(),
                    old(self).frames_view().push(
                        (old(self).pending_view().unwrap(), entry_views(listing@), 0),
                    ),
                    old(self).results_view(),
                );
                &&& final(self).frames_view() == t.0
                &&& final(self).results_view() == t.1
                &&& final(self).pending_view() == if t.0.len() == 0 {
                    None
                } else {
                    Some(t.1.last())
                }
            }),
    {
        let ghost entries = entry_views(listing@);
        let ghost target = advance(
            old(self).root_view(),
            old(self).patterns_view(),
            old(self).frames_view().push((old(self).pending_view().unwrap(), entries, 0)),
            old(self).results_view(),
        );
        let dir = match self.pending.take() {
            Some(d) => d,
            None => Vec::new(),
        };
        let ghost frames_before = self.frames@;
        self.frames.push(Frame { dir, entries: listing, next: 0 });
        assert(self.frames_view() =~= old(self).frames_view().push(
            (old(self).pending_view().unwrap(), entries, 0),
        ));
        loop
            invariant
                entries == entry_views(listing@),
                target == advance(
                    old(self).root_view(),
                    old(self).patterns_view(),
                    old(self).frames_view().push((old(self).pending_view().unwrap(), entries, 0)),
                    old(self).results_view(),
                ),
                self.root == old(self).root,
                self.patterns == old(self).patterns,
                self.pending is None,
                forall|k: int| 0 <= k < self.frames@.len()
                    ==> (#[trigger] self.frames@[k]).next <= self.frames@[k].entries@.len(),
                forall|i: int| 0 <= i < self.results_view().len()
                    ==> !path_excluded(self.root_view() + #[trigger] self.results_view()[i], self.patterns_view()),
                advance(self.root_view(), self.patterns_view(), self.frames_view(), self.results_view()) == target,
            decreases self.frames@.len(), remaining(self.frames_view()),
        {
            let ghost fv = self.frames_view();
            if self.frames.len() == 0 {
                assert(fv =~= Seq::<FrameView>::empty());
                assert(target == (self.frames_view(), self.results_view()));
                return;
            }
            let mut top = self.frames.pop().unwrap();
            assert(fv.last() == frame_view(top));
            assert(fv.drop_last() =~= self.frames_view());
            if top.next >= top.entries.len() {
                continue;
            }
            let idx = top.next;
            let mut path: Vec<String> = Vec::new();
            append_components(&mut path, &top.dir);
            let ghost dir_texts = texts(path@);
            path.push(top.entries[idx].name.clone());
            let is_dir = top.entries[idx].is_dir;
            top.next = idx + 1;
            let mut full: Vec<String> = Vec::new();
            append_components(&mut full, &self.root);
            append_components(&mut full, &path);
            let excluded = are_components_excluded(&full, &self.patterns);
            self.frames.push(top);
            proof {
                assert(texts(Seq::<String>::empty()) =~= Seq::<Seq<char>>::empty());
                assert(texts(path@) =~= fv.last().0.push(fv.last().1[idx as int].0));
                assert(texts(full@) =~= self.root_view() + texts(path@));
                assert(self.frames_view() =~= fv.update(fv.len() - 1, (fv.last().0, fv.last().1, fv.last().2 + 1)));
            }
            let ghost before = self.results_view();
            if !excluded {
                self.results.push(path);
                assert(self.results_view() =~= before.push(texts(self.results@.last()@)));
                if is_dir {
                    let mut d: Vec<String> = Vec::new();
                    let last = self.results.len() - 1;
                    append_components(&mut d, &self.results[last]);
                    self.pending = Some(d);
                    assert(texts(d@) =~= self.results_view().last());
                    assert(target == advance(self.root_view(), self.patterns_view(), fv, before));
                    assert(target == (self.frames_view(), self.results_view()));
                    return;
                }
            }
        }
    }
}

/// Subtree suppression: when some component of a path (the root's
/// components followed by `prefix`) is matched by a pattern, no recorded path
/// is that path or lies below it.
pub proof fn lemma_excluded_subtree_absent(w: &TreeWalker, prefix: PathView, i: int)
    requires
        w.wf(),
        0 <= i < w.results_view().len(),
        path_excluded(w.root_view() + prefix, w.patterns_view()),
    ensures
        !(prefix.len() <= w.results_view()[i].len()
            && w.results_view()[i].subrange(0, prefix.len() as int) == prefix),
{
    let r = w.results_view()[i];
    let root = w.root_view();
    if prefix.len() <= r.len() && r.subrange(0, prefix.len() as int) == prefix {
        let k = choose|k: int| 0 <= k < (root + prefix).len()
            && component_excluded(#[trigger] (root + prefix)[k], w.patterns_view());
        assert((root + r)[k] == (root + prefix)[k]);
        assert(path_excluded(root + r, w.patterns_view()));
    }
}

/// With no patterns, no path is excluded: every entry handed to the walker is
/// recorded.
pub proof fn lemma_no_patterns_exclude_nothing(components: Seq<Seq<char>>)
    ensures
        !path_excluded(components, Seq::<Seq<char>>::empty()),
{
}

} // verus!
