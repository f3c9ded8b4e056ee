//! What holds at every moment of a run on a well-formed frame.
//!
//! The source tree stays as it was. Every directory that has had its turn
//! is mirrored, and each of its subdirectories has had its turn, has it now
//! or waits for it. Every file of the source tree has either been brought
//! over or has its destination as it was before the run.

use crate::entries::EntriesView;
use crate::frame::{child_of, Frame};
use crate::model::{EngineView, Phase};
use crate::world::{Moment, Node, World};
use vstd::prelude::*;

verus! {

/// A run: its two roots, and the file system before it.
pub struct Run {
    pub frame: Frame,
    pub before: World,
}

impl Run {
    /// Where a path of the source tree belongs in the destination tree.
    pub open spec fn placed(self, path: Seq<char>) -> Seq<char> {
        self.frame.placed(path)
    }

    /// The path of the source tree that a path of the destination stands for.
    pub open spec fn counterpart(self, path: Seq<char>) -> Seq<char> {
        self.frame.counterpart(path)
    }

    /// Whether the run leaves the destination of the source file `file` as
    /// it is: a file is there, and the source is not newer.
    pub open spec fn keeps(self, file: Seq<char>) -> bool {
        &&& self.before.is_file(self.placed(file))
        &&& !(self.before.modified(file).instant() > self.before.modified(
            self.placed(file),
        ).instant())
    }

    /// What the destination of the source file `file` is to hold after the
    /// run: what it held, where that is kept, and else the source file with
    /// its contents and its modification time.
    pub open spec fn outcome(self, file: Seq<char>) -> Node {
        if self.keeps(file) {
            self.before.nodes[self.placed(file)]
        } else {
            self.before.nodes[file]
        }
    }

    /// Whether the destination of `file` holds what it is to hold.
    pub open spec fn settled(self, world: World, file: Seq<char>) -> bool {
        world.is_file(self.placed(file)) && world.nodes[self.placed(file)] == self.outcome(file)
    }

    /// Whether the destination of `file` holds the file that it held before
    /// the run, or like then no file.
    pub open spec fn untouched(self, world: World, file: Seq<char>) -> bool {
        &&& world.is_file(self.placed(file)) == self.before.is_file(self.placed(file))
        &&& self.before.is_file(self.placed(file)) ==> world.nodes[self.placed(file)]
            == self.before.nodes[self.placed(file)]
    }

    /// Whether a path of the destination stands for a file of the source.
    pub open spec fn has_origin(self, path: Seq<char>) -> bool {
        self.before.is_file(self.counterpart(path))
    }

    /// Whether `world` has at `path` what was there before the run.
    pub open spec fn same_at(self, world: World, path: Seq<char>) -> bool {
        &&& world.holds(path) == self.before.holds(path)
        &&& world.holds(path) ==> world.nodes[path] == self.before.nodes[path]
    }

    /// Whether the source tree is as it was before the run.
    pub open spec fn frozen(self, world: World) -> bool {
        forall|path: Seq<char>| self.frame.in_source(path) ==> #[trigger] self.same_at(world, path)
    }

    /// Whether every file below the destination of `directory` stands for a
    /// file of the source.
    pub open spec fn clean(self, world: World, directory: Seq<char>) -> bool {
        forall|path: Seq<char>| #[trigger]
            child_of(path, self.placed(directory)) && world.is_file(path) ==> self.has_origin(path)
    }

    /// Whether every file of `directory` is settled.
    pub open spec fn all_settled(self, world: World, directory: Seq<char>) -> bool {
        forall|file: Seq<char>| #[trigger]
            child_of(file, directory) && self.before.is_file(file) ==> self.settled(world, file)
    }

    /// Whether `directory` is mirrored: its destination is a directory that
    /// holds each file of `directory` as it is to be, and no file besides.
    pub open spec fn mirrored(self, world: World, directory: Seq<char>) -> bool {
        &&& world.is_directory(self.placed(directory))
        &&& self.all_settled(world, directory)
        &&& self.clean(world, directory)
    }

    /// Whether `entries` lists a directory of the source tree as it was
    /// before the run.
    pub open spec fn faithful(self, entries: EntriesView) -> bool {
        self.frame.in_source(entries.path) && self.before.lists(entries)
    }

    /// Whether the listing of `path` waits for its turn.
    pub open spec fn queued(state: EngineView, path: Seq<char>) -> bool {
        exists|k: int| 0 <= k < state.pending.len() && (#[trigger] state.pending[k]).path == path
    }

    /// Whether `path` has had its turn, has it now, or waits for it.
    pub open spec fn seen(state: EngineView, path: Seq<char>) -> bool {
        state.finished.contains(path) || path == state.current.path || Self::queued(state, path)
    }

    /// Whether every subdirectory of `directory` is seen.
    pub open spec fn children_seen(self, state: EngineView, directory: Seq<char>) -> bool {
        forall|path: Seq<char>| #[trigger]
            child_of(path, directory) && self.before.is_directory(path) ==> Self::seen(state, path)
    }

    /// Whether each directory that has had its turn was a directory of the
    /// source tree, is mirrored, and has each subdirectory seen.
    pub open spec fn finished_well(self, state: EngineView, world: World) -> bool {
        forall|k: int|
            0 <= k < state.finished.len() ==> {
                let directory = #[trigger] state.finished[k];
                &&& self.before.is_directory(directory)
                &&& self.frame.in_source(directory)
                &&& self.mirrored(world, directory)
                &&& self.children_seen(state, directory)
            }
    }

    /// Whether every listing that waits is faithful.
    pub open spec fn pending_faithful(self, state: EngineView) -> bool {
        forall|k: int| 0 <= k < state.pending.len() ==> self.faithful(#[trigger] state.pending[k])
    }

    /// Whether the first `count` subdirectories of the current directory
    /// wait for their turn.
    pub open spec fn children_queued(state: EngineView, count: int) -> bool {
        forall|j: int|
            0 <= j < count ==> Self::queued(state, #[trigger] state.current.directory_paths[j])
    }

    /// Whether the first `count` files of the current directory are settled.
    pub open spec fn files_settled(self, state: EngineView, world: World, count: int) -> bool {
        forall|j: int| 0 <= j < count ==> self.settled(world, #[trigger] state.current.file_paths[j])
    }

    /// Whether a file of the source tree is settled or untouched.
    pub open spec fn file_in_order(self, world: World, file: Seq<char>) -> bool {
        self.frame.in_source(file) && self.before.is_file(file) ==> self.settled(world, file)
            || self.untouched(world, file)
    }

    /// Whether every file of the source tree but `except` is settled or
    /// untouched.
    pub open spec fn files_in_order(self, world: World, except: Option<Seq<char>>) -> bool {
        forall|file: Seq<char>| Some(file) != except ==> #[trigger] self.file_in_order(world, file)
    }

    /// What holds in every phase of a run under way.
    pub open spec fn grounded(self, state: EngineView, world: World) -> bool {
        &&& state.common_path == self.frame.common()
        &&& state.destination_path == self.frame.destination
        &&& self.frozen(world)
        &&& world.is_tree()
        &&& self.pending_faithful(state)
        &&& self.finished_well(state, world)
        &&& Self::seen(state, self.frame.source)
    }

    /// What holds once the current directory has its listing.
    pub open spec fn listed(self, state: EngineView, world: World) -> bool {
        &&& self.grounded(state, world)
        &&& self.faithful(state.current)
    }

    /// What holds once the destination of the current directory is ready to
    /// take its files, the first `count` of which it already has.
    pub open spec fn level_ready(self, state: EngineView, world: World, count: int) -> bool {
        &&& self.listed(state, world)
        &&& Self::children_queued(state, state.current.directory_paths.len() as int)
        &&& world.is_directory(self.placed(state.current.path))
        &&& self.clean(world, state.current.path)
        &&& self.files_settled(state, world, count)
    }

    /// Whether each extraneous file from `from` on is a child of the
    /// destination of the current directory and stands for no file.
    pub open spec fn extraneous_left(self, state: EngineView, from: int) -> bool {
        forall|j: int|
            from <= j < state.extraneous.len() ==> {
                let path = #[trigger] state.extraneous[j];
                child_of(path, self.placed(state.current.path)) && !self.has_origin(path)
            }
    }

    /// Whether `path` is among the extraneous files from `from` on.
    pub open spec fn to_remove(state: EngineView, from: int, path: Seq<char>) -> bool {
        exists|j: int| from <= j < state.extraneous.len() && #[trigger] state.extraneous[j] == path
    }

    /// Whether every file below the destination of the current directory
    /// stands for a file of the source or is to be removed.
    pub open spec fn clean_but(self, state: EngineView, world: World, from: int) -> bool {
        forall|path: Seq<char>| #[trigger]
            child_of(path, self.placed(state.current.path)) && world.is_file(path)
                ==> self.has_origin(path) || Self::to_remove(state, from, path)
    }

    /// What holds while the extraneous files from `from` on are removed.
    pub open spec fn pruning(self, state: EngineView, world: World, from: int) -> bool {
        &&& self.listed(state, world)
        &&& Self::children_queued(state, state.current.directory_paths.len() as int)
        &&& world.is_directory(self.placed(state.current.path))
        &&& self.extraneous_left(state, from)
        &&& self.clean_but(state, world, from)
    }

    /// The invariant: what holds of the engine and of the file system
    /// together while a run has not failed.
    pub open spec fn holds(self, moment: Moment) -> bool {
        let state = moment.state;
        let world = moment.world;
        moment.request is Failed || {
            &&& state.consistent()
            &&& moment.request == state.awaited()
            &&& self.grounded(state, world)
            &&& match state.phase {
                Phase::Idle => {
                    &&& self.files_in_order(world, None)
                    &&& state.finished.contains(self.frame.source)
                    &&& state.pending.len() == 0
                    &&& state.finished.contains(state.current.path)
                },
                Phase::Root => {
                    &&& self.files_in_order(world, None)
                    &&& state.current.path == self.frame.source
                },
                Phase::Children => {
                    &&& self.files_in_order(world, None)
                    &&& self.faithful(state.current)
                    &&& Self::children_queued(state, state.cursor as int)
                },
                Phase::Directory | Phase::Listing => {
                    &&& self.files_in_order(world, None)
                    &&& self.faithful(state.current)
                    &&& Self::children_queued(state, state.current.directory_paths.len() as int)
                },
                Phase::Create => {
                    &&& self.files_in_order(world, None)
                    &&& self.faithful(state.current)
                    &&& Self::children_queued(state, state.current.directory_paths.len() as int)
                    &&& !world.holds(self.placed(state.current.path))
                },
                Phase::Prune => {
                    &&& self.files_in_order(world, None)
                    &&& self.pruning(state, world, state.cursor as int)
                },
                Phase::FileProbe | Phase::FileTimes => {
                    &&& self.files_in_order(world, None)
                    &&& self.level_ready(state, world, state.cursor as int)
                },
                Phase::FileCopy => {
                    &&& self.files_in_order(world, Some(state.file()))
                    &&& self.level_ready(state, world, state.cursor as int)
                    &&& self.untouched(world, state.file())
                    &&& !self.keeps(state.file())
                },
                Phase::FileStamp => {
                    &&& self.files_in_order(world, Some(state.file()))
                    &&& self.level_ready(state, world, state.cursor as int)
                    &&& !self.keeps(state.file())
                    &&& world.is_file(self.placed(state.file()))
                    &&& world.content(self.placed(state.file())) == self.before.content(
                        state.file(),
                    )
                },
            }
        }
    }
}

} // verus!
