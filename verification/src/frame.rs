//! The correspondence between the source tree and its mirror.
//!
//! A path of the source tree is carried into the destination by taking its
//! logical path in the frame and placing it under the destination root; a
//! path of the destination is carried back by taking what follows the
//! destination root and placing it under the frame. In a well-formed frame
//! the two are inverse to each other, and the source tree and its mirror
//! share no path.

use crate::path::{
    common_len, common_path, join, lemma_last_separator, lemma_shared_prefix_len_bounds,
    shared_prefix_len, strip, SEPARATOR,
};
use vstd::prelude::*;

verus! {

/// Whether `path` begins with `prefix`.
pub open spec fn starts_with(path: Seq<char>, prefix: Seq<char>) -> bool {
    &&& prefix.len() <= path.len()
    &&& forall|i: int| 0 <= i < prefix.len() ==> #[trigger] path[i] == prefix[i]
}

/// Whether `path` is `parent`, a separator, and a name without separator.
pub open spec fn child_of(path: Seq<char>, parent: Seq<char>) -> bool {
    &&& path.len() > parent.len() + 1
    &&& starts_with(path, parent)
    &&& path[parent.len() as int] == SEPARATOR
    &&& forall|i: int| parent.len() < i < path.len() ==> #[trigger] path[i] != SEPARATOR
}

/// Whether `path` is `ancestor` followed by a separator and more.
pub open spec fn descends_from(path: Seq<char>, ancestor: Seq<char>) -> bool {
    &&& path.len() > ancestor.len()
    &&& starts_with(path, ancestor)
    &&& path[ancestor.len() as int] == SEPARATOR
}

/// A path has at most one parent.
pub proof fn lemma_one_parent(path: Seq<char>, first: Seq<char>, second: Seq<char>)
    requires
        child_of(path, first),
        child_of(path, second),
    ensures
        first == second,
{
    if first.len() < second.len() {
        assert(path[second.len() as int] == SEPARATOR);
    } else if second.len() < first.len() {
        assert(path[first.len() as int] == SEPARATOR);
    }
    assert(first =~= second) by {
        assert forall|i: int| 0 <= i < first.len() implies first[i] == second[i] by {
            assert(path[i] == first[i]);
            assert(path[i] == second[i]);
        }
    }
}

/// The two roots of a run.
pub struct Frame {
    pub source: Seq<char>,
    pub destination: Seq<char>,
}

impl Frame {
    /// The length of the frame.
    pub open spec fn len(self) -> int {
        common_len(self.source, self.destination) as int
    }

    /// The length of the destination root.
    pub open spec fn root_len(self) -> int {
        self.destination.len() as int
    }

    /// The frame.
    pub open spec fn common(self) -> Seq<char> {
        common_path(self.source, self.destination)
    }

    /// Whether one of the roots is the other or lies below it.
    pub open spec fn nested(self) -> bool {
        ||| self.source == self.destination
        ||| descends_from(self.source, self.destination)
        ||| descends_from(self.destination, self.source)
    }

    /// Whether a separator follows the frame in the source root, each root
    /// goes on behind that position, and neither root lies in the other.
    ///
    /// `/data/src` and `/data/dst` are such roots, with the frame `/data`.
    /// So are `/home/me` and `/mnt/copy`, with the empty frame, and
    /// `/home/docs` and `/home/docs.old`, with the frame `/home`. The roots
    /// `src` and `dst` are not: they share no separator, and what the empty
    /// frame is followed by is the first character of a name. `/a` and
    /// `/a/b` are not: one lies in the other.
    pub open spec fn well_formed(self) -> bool {
        &&& self.source.len() > self.len() + 1
        &&& self.destination.len() > self.len() + 1
        &&& self.source[self.len()] == SEPARATOR
        &&& !self.nested()
    }

    /// Where a path of the source tree belongs in the destination tree.
    pub open spec fn placed(self, path: Seq<char>) -> Seq<char> {
        join(self.destination, strip(path, self.len() as nat))
    }

    /// The path of the source tree that a path of the destination stands for.
    pub open spec fn counterpart(self, path: Seq<char>) -> Seq<char> {
        join(self.common(), strip(path, self.destination.len()))
    }

    /// Whether `path` is the source root or lies below it.
    pub open spec fn in_source(self, path: Seq<char>) -> bool {
        path == self.source || descends_from(path, self.source)
    }

    /// Whether `path` is the mirror of the source root or lies below it.
    pub open spec fn in_mirror(self, path: Seq<char>) -> bool {
        path == self.placed(self.source) || descends_from(path, self.placed(self.source))
    }

    /// The frame holds the characters of the source root before the
    /// separator that follows it.
    pub proof fn lemma_roots(self)
        requires
            self.well_formed(),
        ensures
            self.common() == self.source.take(self.len()),
            self.common().len() == self.len(),
    {
    }

    /// The mirror of a source path is the destination root, a separator, and
    /// the logical path.
    pub proof fn lemma_placed(self, path: Seq<char>)
        requires
            self.well_formed(),
            self.in_source(path),
        ensures
            self.placed(path) == self.destination + seq![SEPARATOR] + path.skip(self.len() + 1),
            self.placed(path).len() == self.root_len() + path.len() - self.len(),
            path.len() > self.len() + 1,
            starts_with(path, self.source),
    {
        self.lemma_roots();
    }

    /// The counterpart of a destination path is the frame, a separator, and
    /// what follows the destination root and the separator behind it.
    pub proof fn lemma_counterpart(self, path: Seq<char>)
        requires
            self.well_formed(),
            path.len() > self.root_len(),
        ensures
            self.counterpart(path) == self.source.take(self.len()) + seq![SEPARATOR] + path.skip(
                self.root_len() + 1,
            ),
            self.counterpart(path).len() == self.len() + path.len() - self.root_len(),
    {
        self.lemma_roots();
    }

    /// A source path and its mirror: the mirror lies in the mirror tree, and
    /// its counterpart is the path.
    pub proof fn lemma_there_and_back(self, path: Seq<char>)
        requires
            self.well_formed(),
            self.in_source(path),
        ensures
            self.in_mirror(self.placed(path)),
            self.counterpart(self.placed(path)) == path,
            self.placed(path).len() > self.root_len() + 1,
            path.len() > self.len(),
    {
        let c = self.len();
        let d = self.root_len();
        let image = self.placed(path);
        let root = self.placed(self.source);
        self.lemma_placed(path);
        self.lemma_placed(self.source);
        assert forall|i: int| 0 <= i < root.len() implies #[trigger] image[i] == root[i] by {
            if i > d {
                assert(image[i] == path[i - d + c]);
                assert(root[i] == self.source[i - d + c]);
            }
        }
        if path == self.source {
            assert(image =~= root);
        } else {
            assert(image[root.len() as int] == path[self.source.len() as int]);
        }
        self.lemma_counterpart(image);
        let back = self.counterpart(image);
        assert forall|i: int| 0 <= i < path.len() implies back[i] == path[i] by {
            if i < c {
                assert(back[i] == self.source[i]);
                assert(path[i] == self.source[i]);
            } else if i == c {
                assert(path[c] == self.source[c]);
            } else {
                assert(back[i] == image[i - c + d]);
            }
        }
        assert(back =~= path);
    }

    /// A path of the mirror tree and its counterpart: the counterpart lies in
    /// the source tree, and its mirror is the path.
    pub proof fn lemma_back_and_there(self, path: Seq<char>)
        requires
            self.well_formed(),
            self.in_mirror(path),
        ensures
            self.in_source(self.counterpart(path)),
            self.placed(self.counterpart(path)) == path,
            path.len() > self.root_len() + 1,
    {
        let c = self.len();
        let d = self.root_len();
        let root = self.placed(self.source);
        self.lemma_placed(self.source);
        self.lemma_counterpart(path);
        let back = self.counterpart(path);
        assert forall|i: int| 0 <= i < self.source.len() implies #[trigger] back[i]
            == self.source[i] by {
            if i > c {
                assert(back[i] == path[i - c + d]);
                assert(path[i - c + d] == root[i - c + d]);
            }
        }
        if path == root {
            assert(back =~= self.source);
        } else {
            assert(back[self.source.len() as int] == path[root.len() as int]);
        }
        self.lemma_placed(back);
        let image = self.placed(back);
        assert forall|i: int| 0 <= i < path.len() implies image[i] == path[i] by {
            if i <= d {
                assert(path[i] == root[i]);
            } else {
                assert(image[i] == back[i - d + c]);
            }
        }
        assert(image =~= path);
    }

    /// No path of the source tree is a path that begins with the destination
    /// root and a separator, or is or lies above one.
    pub proof fn lemma_apart(self, path: Seq<char>, other: Seq<char>)
        requires
            self.well_formed(),
            self.in_source(path),
            starts_with(other, self.destination),
            other.len() > self.root_len(),
            other[self.root_len()] == SEPARATOR,
        ensures
            path != other,
            !descends_from(other, path),
    {
        let s = self.source.len() as int;
        let d = self.root_len();
        if path == other || descends_from(other, path) {
            assert(starts_with(other, self.source)) by {
                assert forall|i: int| 0 <= i < s implies #[trigger] other[i] == self.source[i] by {
                    assert(path[i] == self.source[i]);
                    assert(other[i] == path[i]);
                }
            }
            assert(other.len() > s && other[s] == SEPARATOR) by {
                if path.len() > s {
                    assert(path[s] == SEPARATOR);
                    assert(other[s] == path[s]);
                }
            }
            if s == d {
                assert(self.source =~= self.destination) by {
                    assert forall|i: int| 0 <= i < s implies self.source[i]
                        == self.destination[i] by {
                        assert(other[i] == self.source[i]);
                        assert(other[i] == self.destination[i]);
                    }
                }
            } else if s < d {
                assert(descends_from(self.destination, self.source)) by {
                    assert forall|i: int| 0 <= i < s implies #[trigger] self.destination[i]
                        == self.source[i] by {
                        assert(other[i] == self.source[i]);
                        assert(other[i] == self.destination[i]);
                    }
                    assert(other[s] == self.destination[s]);
                }
            } else {
                assert(descends_from(self.source, self.destination)) by {
                    assert forall|i: int| 0 <= i < d implies #[trigger] self.source[i]
                        == self.destination[i] by {
                        assert(other[i] == self.source[i]);
                        assert(other[i] == self.destination[i]);
                    }
                    assert(other[d] == self.source[d]);
                }
            }
        }
    }

    /// A path of the mirror tree begins with the destination root.
    pub proof fn lemma_mirror_below_destination(self, path: Seq<char>)
        requires
            self.well_formed(),
            self.in_mirror(path),
        ensures
            starts_with(path, self.destination),
            path.len() > self.root_len(),
            path[self.root_len()] == SEPARATOR,
    {
        self.lemma_placed(self.source);
        let root = self.placed(self.source);
        assert forall|i: int| 0 <= i < self.destination.len() implies #[trigger] path[i]
            == self.destination[i] by {
            assert(path[i] == root[i]);
        }
        assert(path[self.root_len()] == root[self.root_len()]);
    }

    /// The child of a source path lies in the source tree, and its mirror is
    /// a child of the mirror of its parent.
    pub proof fn lemma_child_placed(self, child: Seq<char>, parent: Seq<char>)
        requires
            self.well_formed(),
            self.in_source(parent),
            child_of(child, parent),
        ensures
            self.in_source(child),
            child_of(self.placed(child), self.placed(parent)),
    {
        let c = self.len();
        let d = self.root_len();
        assert forall|i: int| 0 <= i < self.source.len() implies #[trigger] child[i]
            == self.source[i] by {
            assert(child[i] == parent[i]);
        }
        self.lemma_placed(child);
        self.lemma_placed(parent);
        let high = self.placed(child);
        let low = self.placed(parent);
        assert forall|i: int| 0 <= i < low.len() implies #[trigger] high[i] == low[i] by {
            if i > d {
                assert(high[i] == child[i - d + c]);
                assert(low[i] == parent[i - d + c]);
                assert(child[i - d + c] == parent[i - d + c]);
            }
        }
        assert(high[low.len() as int] == child[parent.len() as int]);
        assert forall|i: int| low.len() < i < high.len() implies #[trigger] high[i]
            != SEPARATOR by {
            assert(high[i] == child[i - d + c]);
        }
    }

    /// The child of a path of the mirror tree lies in the mirror tree, and
    /// its counterpart is a child of the counterpart of its parent.
    pub proof fn lemma_child_counterpart(self, child: Seq<char>, parent: Seq<char>)
        requires
            self.well_formed(),
            self.in_mirror(parent),
            child_of(child, parent),
        ensures
            self.in_mirror(child),
            child_of(self.counterpart(child), self.counterpart(parent)),
    {
        let c = self.len();
        let d = self.root_len();
        let root = self.placed(self.source);
        assert forall|i: int| 0 <= i < root.len() implies #[trigger] child[i] == root[i] by {
            assert(child[i] == parent[i]);
        }
        self.lemma_back_and_there(child);
        self.lemma_back_and_there(parent);
        self.lemma_counterpart(child);
        self.lemma_counterpart(parent);
        let high = self.counterpart(child);
        let low = self.counterpart(parent);
        assert forall|i: int| 0 <= i < low.len() implies #[trigger] high[i] == low[i] by {
            if i > c {
                assert(high[i] == child[i - c + d]);
                assert(low[i] == parent[i - c + d]);
                assert(child[i - c + d] == parent[i - c + d]);
            }
        }
        assert(high[low.len() as int] == child[parent.len() as int]);
        assert forall|i: int| low.len() < i < high.len() implies #[trigger] high[i]
            != SEPARATOR by {
            assert(high[i] == child[i - c + d]);
        }
    }

    /// The frame splits no name: it is shared by both roots, and among the
    /// characters that the roots share behind it, none but the first is a
    /// separator.
    pub proof fn law_frame_splits_no_name(self)
        ensures
            self.len() <= shared_prefix_len(self.source, self.destination),
            self.common() == self.destination.take(self.len()),
            forall|i: int|
                self.len() < i < shared_prefix_len(self.source, self.destination)
                    ==> self.source[i] != SEPARATOR,
    {
        let shared = shared_prefix_len(self.source, self.destination);
        lemma_shared_prefix_len_bounds(self.source, self.destination);
        lemma_last_separator(self.source, shared);
        assert(self.source.take(self.len()) =~= self.destination.take(self.len())) by {
            assert forall|i: int| 0 <= i < self.len() implies self.source[i]
                == self.destination[i] by {
                assert(self.source.take(shared as int)[i] == self.destination.take(
                    shared as int,
                )[i]);
            }
        }
    }

    /// The way there and back leads to the same path only where a separator
    /// follows the frame: if the source root, carried into the destination
    /// and back, is itself again, then the character behind the frame is a
    /// separator.
    pub proof fn law_back_needs_separator(self)
        requires
            self.source.len() > self.len(),
            self.counterpart(self.placed(self.source)) == self.source,
        ensures
            self.source[self.len()] == SEPARATOR,
    {
        let c = self.len();
        let back = self.counterpart(self.placed(self.source));
        assert(self.common().len() == c);
        assert(back[c] == SEPARATOR);
    }
}

} // verus!
