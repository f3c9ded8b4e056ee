//! How the engine moves from one phase to the next while the file system
//! stays as it is: each move keeps what `Run::holds` states.

use crate::frame::child_of;
use crate::model::{EngineView, Phase};
use crate::protocol::RequestView;
use crate::safety::Run;
use crate::world::{Moment, World};
use vstd::prelude::*;

verus! {

/// The moment at which the engine has moved to `pair` on `world`.
pub open spec fn moment_of(pair: (EngineView, RequestView), world: World) -> Moment {
    Moment { state: pair.0, request: pair.1, world }
}

impl Run {
    /// The engine of a run places and carries back as the frame does.
    pub proof fn lemma_maps(self, state: EngineView)
        requires
            self.frame.well_formed(),
            state.common_path == self.frame.common(),
            state.destination_path == self.frame.destination,
        ensures
            state.common_path.len() == self.frame.len(),
            forall|path: Seq<char>| #[trigger] state.placed(path) == self.placed(path),
            forall|path: Seq<char>| #[trigger] state.counterpart(path) == self.counterpart(path),
    {
        self.frame.lemma_roots();
    }

    /// What waits in one queue waits in an equal queue.
    pub proof fn lemma_queued_same(state: EngineView, moved: EngineView, path: Seq<char>)
        requires
            moved.pending == state.pending,
            Self::queued(state, path),
        ensures
            Self::queued(moved, path),
    {
        let k = choose|k: int|
            0 <= k < state.pending.len() && (#[trigger] state.pending[k]).path == path;
        assert(moved.pending[k].path == path);
    }

    /// A state that differs from `state` in phase, cursor and extraneous
    /// files only has the same footing.
    pub proof fn lemma_grounded_moved(self, state: EngineView, moved: EngineView, world: World)
        requires
            self.grounded(state, world),
            moved == (EngineView {
                phase: moved.phase,
                cursor: moved.cursor,
                extraneous: moved.extraneous,
                ..state
            }),
        ensures
            self.grounded(moved, world),
    {
        assert forall|k: int| 0 <= k < moved.finished.len() implies {
            let directory = #[trigger] moved.finished[k];
            &&& self.before.is_directory(directory)
            &&& self.frame.in_source(directory)
            &&& self.mirrored(world, directory)
            &&& self.children_seen(moved, directory)
        } by {
            let directory = state.finished[k];
            assert(self.children_seen(state, directory));
            assert forall|path: Seq<char>| #[trigger]
                child_of(path, directory) && self.before.is_directory(path) implies Self::seen(
                moved,
                path,
            ) by {
                assert(Self::seen(state, path));
                if Self::queued(state, path) {
                    Self::lemma_queued_same(state, moved, path);
                }
            }
        }
        if Self::queued(state, self.frame.source) {
            Self::lemma_queued_same(state, moved, self.frame.source);
        }
    }

    /// The engine asks whether the destination of the current directory
    /// exists.
    pub proof fn lemma_reconcile_directory(self, state: EngineView, world: World)
        requires
            self.frame.well_formed(),
            self.listed(state, world),
            self.files_in_order(world, None),
            Self::children_queued(state, state.current.directory_paths.len() as int),
        ensures
            self.holds(moment_of(state.reconcile_directory(), world)),
    {
        self.lemma_maps(state);
        self.frame.lemma_there_and_back(state.current.path);
        let moved = state.reconcile_directory().0;
        self.lemma_grounded_moved(state, moved, world);
        assert(Self::children_queued(moved, moved.current.directory_paths.len() as int)) by {
            assert forall|j: int| 0 <= j < moved.current.directory_paths.len() implies Self::queued(
                moved,
                #[trigger] moved.current.directory_paths[j],
            ) by {
                Self::lemma_queued_same(state, moved, state.current.directory_paths[j]);
            }
        }
    }

    /// The engine asks for the listing of the subdirectory at `index`, or
    /// goes on to the destination directory after the last.
    pub proof fn lemma_scan_children(self, state: EngineView, world: World, index: int)
        requires
            self.frame.well_formed(),
            self.listed(state, world),
            self.files_in_order(world, None),
            0 <= index <= state.current.directory_paths.len(),
            Self::children_queued(state, index),
        ensures
            self.holds(moment_of(state.scan_children(index as nat), world)),
    {
        if index < state.current.directory_paths.len() {
            let moved = state.scan_children(index as nat).0;
            self.lemma_grounded_moved(state, moved, world);
            assert(Self::children_queued(moved, index)) by {
                assert forall|j: int| 0 <= j < index implies Self::queued(
                    moved,
                    #[trigger] moved.current.directory_paths[j],
                ) by {
                    Self::lemma_queued_same(state, moved, state.current.directory_paths[j]);
                }
            }
        } else {
            self.lemma_reconcile_directory(state, world);
        }
    }

    /// What is seen before a directory ends its turn is seen after it.
    pub proof fn lemma_seen_after_turn(state: EngineView, next: EngineView, path: Seq<char>)
        requires
            Self::seen(state, path),
            next.finished == state.finished.push(state.current.path),
            state.pending.len() == 0 ==> next.pending == state.pending && next.current
                == state.current,
            state.pending.len() > 0 ==> next.current == state.pending[0] && next.pending
                == state.pending.skip(1),
        ensures
            Self::seen(next, path),
            state.pending.len() == 0 ==> next.finished.contains(path),
    {
        if state.finished.contains(path) {
            let i = choose|i: int| 0 <= i < state.finished.len() && state.finished[i] == path;
            assert(next.finished[i] == path);
        } else if path == state.current.path {
            assert(next.finished[state.finished.len() as int] == path);
        } else {
            let k = choose|k: int|
                0 <= k < state.pending.len() && (#[trigger] state.pending[k]).path == path;
            if k > 0 {
                assert(next.pending[k - 1].path == path);
            }
        }
    }

    /// The directory whose files are all settled ends its turn, and the one
    /// that has waited longest begins its own.
    pub proof fn lemma_next_level(self, state: EngineView, world: World)
        requires
            self.frame.well_formed(),
            self.level_ready(state, world, state.current.file_paths.len() as int),
            self.files_in_order(world, None),
        ensures
            self.holds(moment_of(state.next_level(), world)),
    {
        let ended = state.current.path;
        let finished = state.finished.push(ended);
        let next = if state.pending.len() == 0 {
            EngineView { phase: Phase::Idle, finished, ..state }
        } else {
            EngineView {
                current: state.pending[0],
                pending: state.pending.skip(1),
                finished,
                ..state
            }
        };
        assert(self.mirrored(world, ended) && self.children_seen(next, ended)) by {
            assert forall|file: Seq<char>| #[trigger]
                child_of(file, ended) && self.before.is_file(file) implies self.settled(
                world,
                file,
            ) by {
                assert(state.current.file_paths.contains(file));
                let j = choose|j: int|
                    0 <= j < state.current.file_paths.len() && state.current.file_paths[j] == file;
                assert(self.settled(world, state.current.file_paths[j]));
            }
            assert forall|path: Seq<char>| #[trigger]
                child_of(path, ended) && self.before.is_directory(path) implies Self::seen(
                next,
                path,
            ) by {
                assert(state.current.directory_paths.contains(path));
                let j = choose|j: int|
                    0 <= j < state.current.directory_paths.len()
                        && state.current.directory_paths[j] == path;
                assert(Self::queued(state, state.current.directory_paths[j]));
                Self::lemma_seen_after_turn(state, next, path);
            }
        }
        assert(self.finished_well(next, world)) by {
            assert forall|k: int| 0 <= k < next.finished.len() implies {
                let directory = #[trigger] next.finished[k];
                &&& self.before.is_directory(directory)
                &&& self.frame.in_source(directory)
                &&& self.mirrored(world, directory)
                &&& self.children_seen(next, directory)
            } by {
                if k < state.finished.len() {
                    let directory = state.finished[k];
                    assert(self.children_seen(state, directory));
                    assert forall|path: Seq<char>| #[trigger]
                        child_of(path, directory) && self.before.is_directory(
                            path,
                        ) implies Self::seen(next, path) by {
                        Self::lemma_seen_after_turn(state, next, path);
                    }
                }
            }
        }
        Self::lemma_seen_after_turn(state, next, self.frame.source);
        Self::lemma_seen_after_turn(state, next, ended);
        assert(self.pending_faithful(next)) by {
            assert forall|k: int| 0 <= k < next.pending.len() implies self.faithful(
                #[trigger] next.pending[k],
            ) by {
                if state.pending.len() > 0 {
                    assert(self.faithful(state.pending[k + 1]));
                }
            }
        }
        if state.pending.len() > 0 {
            assert(self.faithful(state.pending[0]));
            self.lemma_scan_children(next, world, 0);
        }
    }

    /// The engine asks whether the destination of the file at `index`
    /// exists, or ends the turn of the directory after the last file.
    pub proof fn lemma_sync_files(self, state: EngineView, world: World, index: int)
        requires
            self.frame.well_formed(),
            self.level_ready(state, world, index),
            self.files_in_order(world, None),
            0 <= index <= state.current.file_paths.len(),
        ensures
            self.holds(moment_of(state.sync_files(index as nat), world)),
    {
        if index < state.current.file_paths.len() {
            let file = state.current.file_paths[index];
            assert(state.current.file_paths.contains(file));
            self.frame.lemma_child_placed(file, state.current.path);
            self.frame.lemma_there_and_back(file);
            self.lemma_maps(state);
            let moved = state.sync_files(index as nat).0;
            self.lemma_level_ready_moved(state, moved, world, index);
        } else {
            self.lemma_next_level(state, world);
        }
    }

    /// A state that differs from `state` in phase, cursor and extraneous
    /// files only is as ready for the files.
    pub proof fn lemma_level_ready_moved(
        self,
        state: EngineView,
        moved: EngineView,
        world: World,
        count: int,
    )
        requires
            self.level_ready(state, world, count),
            moved == (EngineView {
                phase: moved.phase,
                cursor: moved.cursor,
                extraneous: moved.extraneous,
                ..state
            }),
        ensures
            self.level_ready(moved, world, count),
    {
        self.lemma_grounded_moved(state, moved, world);
        assert forall|j: int| 0 <= j < moved.current.directory_paths.len() implies Self::queued(
            moved,
            #[trigger] moved.current.directory_paths[j],
        ) by {
            Self::lemma_queued_same(state, moved, state.current.directory_paths[j]);
        }
        assert forall|j: int| 0 <= j < count implies self.settled(
            world,
            #[trigger] moved.current.file_paths[j],
        ) by {
            assert(self.settled(world, state.current.file_paths[j]));
        }
    }

    /// The engine asks for the removal of the extraneous file at `index`,
    /// or goes on to the files after the last.
    pub proof fn lemma_prune(self, state: EngineView, world: World, index: int)
        requires
            self.frame.well_formed(),
            self.pruning(state, world, index),
            self.files_in_order(world, None),
            0 <= index <= state.extraneous.len(),
        ensures
            self.holds(moment_of(state.prune(index as nat), world)),
    {
        if index < state.extraneous.len() {
            let moved = state.prune(index as nat).0;
            self.lemma_grounded_moved(state, moved, world);
            assert forall|j: int| 0 <= j < moved.current.directory_paths.len() implies Self::queued(
                moved,
                #[trigger] moved.current.directory_paths[j],
            ) by {
                Self::lemma_queued_same(state, moved, state.current.directory_paths[j]);
            }
            assert forall|j: int| index <= j < moved.extraneous.len() implies {
                let path = #[trigger] moved.extraneous[j];
                child_of(path, self.placed(moved.current.path)) && !self.has_origin(path)
            } by {
                let path = state.extraneous[j];
                assert(child_of(path, self.placed(state.current.path)) && !self.has_origin(path));
            }
            assert forall|path: Seq<char>| #[trigger]
                child_of(path, self.placed(moved.current.path)) && world.is_file(
                    path,
                ) implies self.has_origin(path) || Self::to_remove(moved, index, path) by {
                if !self.has_origin(path) {
                    assert(Self::to_remove(state, index, path));
                    let j = choose|j: int|
                        index <= j < state.extraneous.len() && #[trigger] state.extraneous[j]
                            == path;
                    assert(moved.extraneous[j] == path);
                }
            }
        } else {
            assert forall|path: Seq<char>| #[trigger]
                child_of(path, self.placed(state.current.path)) && world.is_file(
                    path,
                ) implies self.has_origin(path) by {
                assert(!Self::to_remove(state, index, path));
            }
            self.lemma_sync_files(state, world, 0);
        }
    }
}

} // verus!
