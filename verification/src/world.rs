//! A model of the file system, and of a run of the engine on it.
//!
//! The model holds a node for each path that exists: a directory, or a file
//! with its contents and its modification time. A path is the path of its
//! parent, a separator, and a name; the empty path stands for the root. The
//! model says which response the file system may give to each request and
//! how the request changes it. Any request but the question whether a path
//! exists may fail, and then changes nothing.

use crate::entries::EntriesView;
use crate::frame::{child_of, descends_from};
use crate::model::EngineView;
use crate::protocol::{RequestView, ResponseView};
use crate::timestamp::Timestamp;
use vstd::prelude::*;

verus! {

/// What exists at a path.
pub enum Node {
    Directory,
    File { content: Seq<u8>, modified: Timestamp },
}

/// The file system: the node at each path that exists.
#[verifier::ext_equal]
pub struct World {
    pub nodes: Map<Seq<char>, Node>,
}

impl World {
    /// Whether anything exists at `path`.
    pub open spec fn holds(self, path: Seq<char>) -> bool {
        self.nodes.dom().contains(path)
    }

    /// Whether a file exists at `path`.
    pub open spec fn is_file(self, path: Seq<char>) -> bool {
        self.holds(path) && self.nodes[path] is File
    }

    /// Whether a directory exists at `path`.
    pub open spec fn is_directory(self, path: Seq<char>) -> bool {
        self.holds(path) && self.nodes[path] is Directory
    }

    /// Whether the parent of everything that exists is a directory.
    pub open spec fn is_tree(self) -> bool {
        forall|path: Seq<char>, parent: Seq<char>|
            self.holds(path) && #[trigger] child_of(path, parent) ==> self.is_directory(parent)
    }

    /// Whether `entries` is a listing of the directory `entries.path`: its
    /// files are the files that are children of the directory, and its
    /// directories are the directories that are, each named once.
    pub open spec fn lists(self, entries: EntriesView) -> bool {
        &&& self.is_directory(entries.path)
        &&& entries.file_paths.no_duplicates()
        &&& entries.directory_paths.no_duplicates()
        &&& forall|path: Seq<char>|
            #![trigger entries.file_paths.contains(path)]
            #![trigger child_of(path, entries.path)]
            entries.file_paths.contains(path) <==> self.is_file(path) && child_of(
                path,
                entries.path,
            )
        &&& forall|path: Seq<char>|
            #![trigger entries.directory_paths.contains(path)]
            #![trigger child_of(path, entries.path)]
            entries.directory_paths.contains(path) <==> self.is_directory(path) && child_of(
                path,
                entries.path,
            )
    }

    /// Whether `path` is the directory to create or one that it lies in.
    pub open spec fn on_the_way(path: Seq<char>, target: Seq<char>) -> bool {
        path == target || descends_from(target, path)
    }

    /// The file system with the directory `target` and every directory that
    /// it lies in, where they were missing.
    pub open spec fn with_directories(self, target: Seq<char>) -> World {
        World {
            nodes: Map::new(
                |path: Seq<char>| self.holds(path) || Self::on_the_way(path, target),
                |path: Seq<char>|
                    if self.holds(path) {
                        self.nodes[path]
                    } else {
                        Node::Directory
                    },
            ),
        }
    }

    /// The file system with `node` at `path`.
    pub open spec fn with(self, path: Seq<char>, node: Node) -> World {
        World { nodes: self.nodes.insert(path, node) }
    }

    /// The file system without `path`.
    pub open spec fn without(self, path: Seq<char>) -> World {
        World { nodes: self.nodes.remove(path) }
    }

    /// The modification time of the file at `path`.
    pub open spec fn modified(self, path: Seq<char>) -> Timestamp {
        self.nodes[path]->modified
    }

    /// The contents of the file at `path`.
    pub open spec fn content(self, path: Seq<char>) -> Seq<u8> {
        self.nodes[path]->content
    }

    /// Whether the file system may answer `request` with `response` and be
    /// `after` afterwards.
    pub open spec fn admits(self, request: RequestView, response: ResponseView, after: World) -> bool {
        match request {
            RequestView::ScanDirectory { path } => {
                &&& after == self
                &&& response matches ResponseView::Entries(entries) ==> entries.path == path
                    && self.lists(entries)
                &&& response is Entries || response is Failed
            },
            RequestView::Exists { path } => {
                &&& after == self
                &&& response == ResponseView::Exists(self.holds(path))
            },
            RequestView::CreateDirectories { path } => {
                ||| response is Failed && after == self
                ||| {
                    &&& response is Done
                    &&& forall|way: Seq<char>| #[trigger]
                        Self::on_the_way(way, path) ==> !self.is_file(way)
                    &&& after == self.with_directories(path)
                }
            },
            RequestView::RemoveFile { path } => {
                ||| response is Failed && after == self
                ||| response is Done && self.is_file(path) && after == self.without(path)
            },
            RequestView::ReadTimes { source, destination } => {
                &&& after == self
                &&& response is Failed || {
                    &&& self.is_file(source)
                    &&& self.is_file(destination)
                    &&& response == ResponseView::Times {
                        source: self.modified(source),
                        destination: self.modified(destination),
                    }
                }
            },
            RequestView::CopyFile { source, destination } => {
                ||| response is Failed && after == self
                ||| {
                    &&& response is Done
                    &&& self.is_file(source)
                    &&& !self.is_directory(destination)
                    &&& after.is_file(destination)
                    &&& after.content(destination) == self.content(source)
                    &&& after == self.with(destination, after.nodes[destination])
                }
            },
            RequestView::SetModifiedTime { source, destination } => {
                ||| response is Failed && after == self
                ||| {
                    &&& response is Done
                    &&& self.is_file(source)
                    &&& self.is_file(destination)
                    &&& after == self.with(
                        destination,
                        Node::File {
                            content: self.content(destination),
                            modified: self.modified(source),
                        },
                    )
                }
            },
            RequestView::Finished => false,
            RequestView::Failed(_) => false,
        }
    }

    /// Whether `directory` is a directory that lies `depth` levels of
    /// directories below `root`.
    pub open spec fn reaches(self, root: Seq<char>, directory: Seq<char>, depth: nat) -> bool
        decreases depth,
    {
        if depth == 0 {
            directory == root
        } else {
            exists|parent: Seq<char>|
                self.reaches(root, parent, (depth - 1) as nat) && self.is_directory(directory)
                    && #[trigger] child_of(directory, parent)
        }
    }
}

/// One exchange: the response to the pending request, and the file system
/// after it.
pub struct Step {
    pub response: ResponseView,
    pub world: World,
}

/// A moment of a run: the engine, the request that it has handed out, and
/// the file system.
pub struct Moment {
    pub state: EngineView,
    pub request: RequestView,
    pub world: World,
}

impl Moment {
    /// The first moment of a run from `source` to `destination` on `world`.
    pub open spec fn first(source: Seq<char>, destination: Seq<char>, world: World) -> Moment {
        let (state, request) = EngineView::start(source, destination);
        Moment { state, request, world }
    }

    /// Whether the file system may take `step` now.
    pub open spec fn admits(self, step: Step) -> bool {
        self.world.admits(self.request, step.response, step.world)
    }

    /// The moment after `step`.
    pub open spec fn after(self, step: Step) -> Moment {
        let (state, request) = self.state.next(step.response);
        Moment { state, request, world: step.world }
    }

    /// Whether the file system may take `steps` one after the other.
    pub open spec fn admits_all(self, steps: Seq<Step>) -> bool
        decreases steps.len(),
    {
        steps.len() == 0 || (self.admits(steps[0]) && self.after(steps[0]).admits_all(
            steps.skip(1),
        ))
    }

    /// The moment after `steps`.
    pub open spec fn after_all(self, steps: Seq<Step>) -> Moment
        decreases steps.len(),
    {
        if steps.len() == 0 {
            self
        } else {
            self.after(steps[0]).after_all(steps.skip(1))
        }
    }
}

} // verus!
