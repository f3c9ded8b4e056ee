//! Every directory of the source tree has its turn once.
//!
//! A directory enters the queue when its parent has its turn, and has its
//! own turn after that. So no directory that waits has had its turn, no two
//! that wait are the same, and every directory that has had its turn but the
//! source root came after its parent.

use crate::frame::{child_of, lemma_one_parent};
use crate::model::{EngineView, Phase};
use crate::protocol::ResponseView;
use crate::safety::Run;
use crate::turns::moment_of;
use crate::world::{Moment, Step, World};
use vstd::prelude::*;

verus! {

impl Run {
    /// Whether the parent of `path` is among the first `bound` directories
    /// that have had their turn.
    pub open spec fn parent_before(state: EngineView, path: Seq<char>, bound: int) -> bool {
        exists|j: int| 0 <= j < bound && j < state.finished.len() && child_of(
            path,
            #[trigger] state.finished[j],
        )
    }

    /// Whether `path` is among the first `limit` subdirectories of the
    /// current directory.
    pub open spec fn early(state: EngineView, path: Seq<char>, limit: int) -> bool {
        exists|j: int|
            0 <= j < limit && j < state.current.directory_paths.len()
                && #[trigger] state.current.directory_paths[j] == path
    }

    /// Whether no directory has had two turns, and each but the source root
    /// had its turn after its parent.
    pub open spec fn turns_in_order(self, state: EngineView) -> bool {
        &&& state.finished.no_duplicates()
        &&& forall|i: int|
            0 <= i < state.finished.len() ==> #[trigger] state.finished[i] == self.frame.source
                || Self::parent_before(state, state.finished[i], i)
    }

    /// Whether the directory that waits at `k` has had no turn, is not the
    /// current one, and is in the queue because its parent has had its turn
    /// or has listed it among its first `limit` subdirectories.
    pub open spec fn waits_rightly(state: EngineView, k: int, limit: int) -> bool {
        let path = state.pending[k].path;
        &&& !state.finished.contains(path)
        &&& path != state.current.path
        &&& Self::parent_before(state, path, state.finished.len() as int) || (child_of(
            path,
            state.current.path,
        ) && Self::early(state, path, limit))
    }

    /// What holds of the turns while a directory has its own, `limit` of its
    /// subdirectories being listed.
    pub open spec fn once_at(self, state: EngineView, limit: int) -> bool {
        &&& self.turns_in_order(state)
        &&& !state.finished.contains(state.current.path)
        &&& state.current.path == self.frame.source || Self::parent_before(
            state,
            state.current.path,
            state.finished.len() as int,
        )
        &&& forall|k: int|
            0 <= k < state.pending.len() ==> #[trigger] Self::waits_rightly(state, k, limit)
        &&& forall|k: int, l: int|
            0 <= k < l < state.pending.len() ==> (#[trigger] state.pending[k]).path != (
            #[trigger] state.pending[l]).path
    }

    /// What holds of the turns at every moment of a run.
    pub open spec fn once(self, moment: Moment) -> bool {
        let state = moment.state;
        moment.request is Failed || match state.phase {
            Phase::Idle => self.turns_in_order(state),
            Phase::Root => {
                &&& self.once_at(state, 0)
                &&& state.pending.len() == 0
                &&& state.finished.len() == 0
            },
            Phase::Children => self.once_at(state, state.cursor as int),
            _ => self.once_at(state, state.current.directory_paths.len() as int),
        }
    }

    /// A state that differs in phase, cursor and extraneous files only has
    /// the same turns.
    pub proof fn lemma_once_moved(self, state: EngineView, moved: EngineView, limit: int, wider: int)
        requires
            self.once_at(state, limit),
            limit <= wider,
            moved == (EngineView {
                phase: moved.phase,
                cursor: moved.cursor,
                extraneous: moved.extraneous,
                ..state
            }),
        ensures
            self.once_at(moved, wider),
    {
        assert forall|i: int| 0 <= i < moved.finished.len() implies #[trigger] moved.finished[i]
            == self.frame.source || Self::parent_before(moved, moved.finished[i], i) by {
            if state.finished[i] != self.frame.source {
                let j = choose|j: int|
                    0 <= j < i && j < state.finished.len() && child_of(
                        state.finished[i],
                        #[trigger] state.finished[j],
                    );
                assert(child_of(moved.finished[i], moved.finished[j]));
            }
        }
        if state.current.path != self.frame.source {
            Self::lemma_parent_before_same(state, moved, state.current.path);
        }
        assert forall|k: int| 0 <= k < moved.pending.len() implies #[trigger] Self::waits_rightly(
            moved,
            k,
            wider,
        ) by {
            assert(Self::waits_rightly(state, k, limit));
            let path = state.pending[k].path;
            if Self::parent_before(state, path, state.finished.len() as int) {
                Self::lemma_parent_before_same(state, moved, path);
            } else {
                let j = choose|j: int|
                    0 <= j < limit && j < state.current.directory_paths.len()
                        && #[trigger] state.current.directory_paths[j] == path;
                assert(moved.current.directory_paths[j] == path);
            }
        }
    }

    /// A parent that has had its turn in one state has had it in a state
    /// with the same turns.
    pub proof fn lemma_parent_before_same(state: EngineView, moved: EngineView, path: Seq<char>)
        requires
            Self::parent_before(state, path, state.finished.len() as int),
            moved.finished.len() >= state.finished.len(),
            forall|j: int| 0 <= j < state.finished.len() ==> moved.finished[j] == state.finished[j],
        ensures
            Self::parent_before(moved, path, moved.finished.len() as int),
    {
        let j = choose|j: int|
            0 <= j < state.finished.len() && child_of(path, #[trigger] state.finished[j]);
        assert(child_of(path, moved.finished[j]));
    }

    /// The turns stay in order where the engine goes on to the next
    /// subdirectory or to the destination directory.
    pub proof fn lemma_once_scan_children(self, state: EngineView, world: World, index: int)
        requires
            self.once_at(state, index),
            0 <= index <= state.current.directory_paths.len(),
        ensures
            self.once(moment_of(state.scan_children(index as nat), world)),
    {
        let moved = state.scan_children(index as nat).0;
        self.lemma_once_moved(state, moved, index, index);
        if moved.phase == Phase::Idle {
            assert(state.scan_children(index as nat).1 is Failed);
        }
    }

    /// The turns are in order after the current directory has ended its own.
    pub proof fn lemma_turns_pushed(self, state: EngineView, next: EngineView)
        requires
            self.turns_in_order(state),
            !state.finished.contains(state.current.path),
            state.current.path == self.frame.source || Self::parent_before(
                state,
                state.current.path,
                state.finished.len() as int,
            ),
            next.finished == state.finished.push(state.current.path),
        ensures
            self.turns_in_order(next),
    {
        let count = state.finished.len() as int;
        assert forall|i: int, j: int|
            0 <= i < next.finished.len() && 0 <= j < next.finished.len() && i
                != j implies next.finished[i] != next.finished[j] by {
            if i < count && j < count {
                assert(state.finished[i] != state.finished[j]);
            } else if i < count {
                assert(state.finished[i] != state.current.path);
            } else {
                assert(state.finished[j] != state.current.path);
            }
        }
        assert forall|i: int| 0 <= i < next.finished.len() implies #[trigger] next.finished[i]
            == self.frame.source || Self::parent_before(next, next.finished[i], i) by {
            let path = next.finished[i];
            if path != self.frame.source {
                if i < count {
                    assert(state.finished[i] == path);
                    assert(Self::parent_before(state, path, i));
                }
                let bound = if i < count {
                    i
                } else {
                    count
                };
                let j = choose|j: int|
                    0 <= j < bound && j < state.finished.len() && child_of(
                        path,
                        #[trigger] state.finished[j],
                    );
                assert(child_of(path, next.finished[j]));
            }
        }
    }

    /// What waits rightly before a directory ends its turn waits rightly
    /// after it, unless its own turn begins.
    pub proof fn lemma_waits_after_turn(self, state: EngineView, next: EngineView, k: int)
        requires
            0 < k < state.pending.len(),
            Self::waits_rightly(state, k, state.current.directory_paths.len() as int),
            state.pending[0].path != state.pending[k].path,
            next.finished == state.finished.push(state.current.path),
            next.current == state.pending[0],
            next.pending == state.pending.skip(1),
        ensures
            Self::waits_rightly(next, k - 1, 0),
    {
        let path = state.pending[k].path;
        assert(next.pending[k - 1] == state.pending[k]);
        self.lemma_parent_after_turn(
            state,
            next,
            path,
            state.current.directory_paths.len() as int,
        );
        if next.finished.contains(path) {
            let i = choose|i: int| 0 <= i < next.finished.len() && next.finished[i] == path;
            if i < state.finished.len() {
                assert(state.finished[i] == path);
            }
        }
    }

    /// The queue is in order after the directory at its head has begun its
    /// turn.
    pub proof fn lemma_queue_after_turn(self, state: EngineView, next: EngineView)
        requires
            self.once_at(state, state.current.directory_paths.len() as int),
            state.pending.len() > 0,
            next.finished == state.finished.push(state.current.path),
            next.current == state.pending[0],
            next.pending == state.pending.skip(1),
        ensures
            !next.finished.contains(next.current.path),
            Self::parent_before(next, next.current.path, next.finished.len() as int),
            forall|k: int|
                0 <= k < next.pending.len() ==> #[trigger] Self::waits_rightly(next, k, 0),
            forall|k: int, l: int|
                0 <= k < l < next.pending.len() ==> (#[trigger] next.pending[k]).path != (
                #[trigger] next.pending[l]).path,
    {
        let limit = state.current.directory_paths.len() as int;
        assert(Self::waits_rightly(state, 0, limit));
        self.lemma_parent_after_turn(state, next, state.pending[0].path, limit);
        if next.finished.contains(next.current.path) {
            let i = choose|i: int|
                0 <= i < next.finished.len() && next.finished[i] == next.current.path;
            if i < state.finished.len() {
                assert(state.finished[i] == next.current.path);
            }
        }
        assert forall|k: int| 0 <= k < next.pending.len() implies #[trigger] Self::waits_rightly(
            next,
            k,
            0,
        ) by {
            assert(Self::waits_rightly(state, k + 1, limit));
            assert(state.pending[0].path != state.pending[k + 1].path);
            self.lemma_waits_after_turn(state, next, k + 1);
        }
        assert forall|k: int, l: int| 0 <= k < l < next.pending.len() implies (
        #[trigger] next.pending[k]).path != (#[trigger] next.pending[l]).path by {
            assert(state.pending[k + 1].path != state.pending[l + 1].path);
        }
    }

    /// The turns stay in order where a directory ends its turn.
    pub proof fn lemma_once_next_level(self, state: EngineView, world: World)
        requires
            self.once_at(state, state.current.directory_paths.len() as int),
        ensures
            self.once(moment_of(state.next_level(), world)),
    {
        let finished = state.finished.push(state.current.path);
        if state.pending.len() == 0 {
            let last = EngineView { phase: Phase::Idle, finished, ..state };
            self.lemma_turns_pushed(state, last);
        } else {
            let next = EngineView {
                current: state.pending[0],
                pending: state.pending.skip(1),
                finished,
                ..state
            };
            self.lemma_turns_pushed(state, next);
            self.lemma_queue_after_turn(state, next);
            self.lemma_once_scan_children(next, world, 0);
        }
    }

    /// What waited rightly before a directory ended its turn has a parent
    /// that has had its turn after it.
    pub proof fn lemma_parent_after_turn(
        self,
        state: EngineView,
        next: EngineView,
        path: Seq<char>,
        limit: int,
    )
        requires
            next.finished == state.finished.push(state.current.path),
            Self::parent_before(state, path, state.finished.len() as int) || child_of(
                path,
                state.current.path,
            ),
        ensures
            Self::parent_before(next, path, next.finished.len() as int),
    {
        if Self::parent_before(state, path, state.finished.len() as int) {
            Self::lemma_parent_before_same(state, next, path);
        } else {
            assert(child_of(path, next.finished[state.finished.len() as int]));
        }
    }

    /// The turns stay in order where the engine goes on to the next file or
    /// ends the turn of the directory.
    pub proof fn lemma_once_sync_files(self, state: EngineView, world: World, index: int)
        requires
            self.once_at(state, state.current.directory_paths.len() as int),
            0 <= index,
        ensures
            self.once(moment_of(state.sync_files(index as nat), world)),
    {
        let limit = state.current.directory_paths.len() as int;
        if index < state.current.file_paths.len() {
            let moved = state.sync_files(index as nat).0;
            self.lemma_once_moved(state, moved, limit, limit);
        } else {
            self.lemma_once_next_level(state, world);
        }
    }

    /// The turns stay in order where the engine goes on to the next
    /// extraneous file or to the files.
    pub proof fn lemma_once_prune(self, state: EngineView, world: World, index: int)
        requires
            self.once_at(state, state.current.directory_paths.len() as int),
            0 <= index,
        ensures
            self.once(moment_of(state.prune(index as nat), world)),
    {
        let limit = state.current.directory_paths.len() as int;
        if index < state.extraneous.len() {
            let moved = state.prune(index as nat).0;
            self.lemma_once_moved(state, moved, limit, limit);
        } else {
            self.lemma_once_sync_files(state, world, 0);
        }
    }

    /// The listing of a subdirectory joins the queue: the subdirectory has
    /// had no turn and does not wait yet.
    pub proof fn lemma_once_queued(self, moment: Moment, step: Step)
        requires
            self.frame.well_formed(),
            self.holds(moment),
            self.once(moment),
            moment.admits(step),
            moment.state.phase == Phase::Children,
            step.response is Entries,
        ensures
            self.once(moment.after(step)),
    {
        let state = moment.state;
        let entries = step.response->Entries_0;
        let longer = EngineView { pending: state.pending.push(entries), ..state };
        let home = state.current.path;
        let fresh = state.current.directory_paths[state.cursor as int];
        let count = state.finished.len() as int;
        let wider = (state.cursor + 1) as int;
        assert(state.current.directory_paths.contains(fresh));
        assert(child_of(fresh, home));
        self.frame.lemma_child_placed(fresh, home);
        assert(!state.finished.contains(fresh)) by {
            if state.finished.contains(fresh) {
                let i = choose|i: int| 0 <= i < state.finished.len() && state.finished[i] == fresh;
                let j = choose|j: int|
                    0 <= j < i && j < state.finished.len() && child_of(
                        state.finished[i],
                        #[trigger] state.finished[j],
                    );
                lemma_one_parent(fresh, state.finished[j], home);
            }
        }
        assert forall|k: int| 0 <= k < state.pending.len() implies (
        #[trigger] state.pending[k]).path != fresh by {
            assert(Self::waits_rightly(state, k, state.cursor as int));
            if state.pending[k].path == fresh {
                if Self::parent_before(state, fresh, count) {
                    let j = choose|j: int|
                        0 <= j < count && j < state.finished.len() && child_of(
                            fresh,
                            #[trigger] state.finished[j],
                        );
                    lemma_one_parent(fresh, state.finished[j], home);
                } else {
                    let j = choose|j: int|
                        0 <= j < state.cursor && j < state.current.directory_paths.len()
                            && #[trigger] state.current.directory_paths[j] == fresh;
                    assert(state.current.directory_paths[j]
                        == state.current.directory_paths[state.cursor as int]);
                }
            }
        }
        self.lemma_once_moved(state, state, state.cursor as int, wider);
        assert(self.once_at(longer, wider)) by {
            assert forall|i: int|
                0 <= i < longer.finished.len() implies #[trigger] longer.finished[i]
                == self.frame.source || Self::parent_before(longer, longer.finished[i], i) by {
                if state.finished[i] != self.frame.source {
                    let j = choose|j: int|
                        0 <= j < i && j < state.finished.len() && child_of(
                            state.finished[i],
                            #[trigger] state.finished[j],
                        );
                    assert(child_of(longer.finished[i], longer.finished[j]));
                }
            }
            if state.current.path != self.frame.source {
                Self::lemma_parent_before_same(state, longer, state.current.path);
            }
            assert forall|k: int|
                0 <= k < longer.pending.len() implies #[trigger] Self::waits_rightly(
                longer,
                k,
                wider,
            ) by {
                if k < state.pending.len() {
                    assert(Self::waits_rightly(state, k, wider));
                    let path = state.pending[k].path;
                    if Self::parent_before(state, path, count) {
                        Self::lemma_parent_before_same(state, longer, path);
                    } else {
                        let j = choose|j: int|
                            0 <= j < wider && j < state.current.directory_paths.len()
                                && #[trigger] state.current.directory_paths[j] == path;
                        assert(longer.current.directory_paths[j] == path);
                    }
                } else {
                    assert(longer.current.directory_paths[state.cursor as int] == fresh);
                }
            }
            assert forall|k: int, l: int| 0 <= k < l < longer.pending.len() implies (
            #[trigger] longer.pending[k]).path != (#[trigger] longer.pending[l]).path by {
                if l < state.pending.len() {
                    assert(state.pending[k].path != state.pending[l].path);
                } else {
                    assert(state.pending[k].path != fresh);
                }
            }
        }
        self.lemma_once_scan_children(longer, moment.world, wider);
    }

    /// One exchange keeps the turns in order.
    pub proof fn lemma_once_step(self, moment: Moment, step: Step)
        requires
            self.frame.well_formed(),
            self.holds(moment),
            self.once(moment),
            moment.admits(step),
        ensures
            self.once(moment.after(step)),
    {
        let state = moment.state;
        let world = step.world;
        let limit = state.current.directory_paths.len() as int;
        let next = (state.cursor + 1) as int;
        match state.phase {
            Phase::Idle => {},
            Phase::Root => {
                if let ResponseView::Entries(entries) = step.response {
                    let listed = EngineView { current: entries, ..state };
                    assert(self.once_at(listed, 0));
                    self.lemma_once_scan_children(listed, world, 0);
                }
            },
            Phase::Children => {
                if step.response is Entries {
                    self.lemma_once_queued(moment, step);
                }
            },
            Phase::Directory => {
                let moved = moment.after(step).state;
                self.lemma_once_moved(state, moved, limit, limit);
            },
            Phase::Create => {
                self.lemma_once_sync_files(state, world, 0);
            },
            Phase::Listing => {
                if let ResponseView::Entries(entries) = step.response {
                    let moved = EngineView {
                        extraneous: state.extraneous_among(entries.file_paths),
                        ..state
                    };
                    self.lemma_once_moved(state, moved, limit, limit);
                    self.lemma_once_prune(moved, world, 0);
                }
            },
            Phase::Prune => {
                self.lemma_once_prune(state, world, next);
            },
            Phase::FileProbe | Phase::FileCopy => {
                let moved = moment.after(step).state;
                self.lemma_once_moved(state, moved, limit, limit);
            },
            Phase::FileTimes => {
                let moved = state.copy_file().0;
                self.lemma_once_moved(state, moved, limit, limit);
                self.lemma_once_sync_files(state, world, next);
            },
            Phase::FileStamp => {
                self.lemma_once_sync_files(state, world, next);
            },
        }
    }

    /// Any number of exchanges keep the turns in order.
    pub proof fn lemma_once_steps(self, moment: Moment, steps: Seq<Step>)
        requires
            self.frame.well_formed(),
            self.holds(moment),
            self.once(moment),
            moment.admits_all(steps),
        ensures
            self.once(moment.after_all(steps)),
        decreases steps.len(),
    {
        if steps.len() > 0 {
            self.lemma_step(moment, steps[0]);
            self.lemma_once_step(moment, steps[0]);
            self.lemma_once_steps(moment.after(steps[0]), steps.skip(1));
        }
    }

    /// Whether `directory` is a directory of the source tree, some levels
    /// below the source root.
    pub open spec fn in_source_tree(self, directory: Seq<char>) -> bool {
        exists|depth: nat| self.has_directory(directory, depth)
    }

    /// A directory that has had its turn lies some levels below the source
    /// root.
    pub proof fn lemma_turn_reaches(self, state: EngineView, world: World, index: int) -> (depth:
        nat)
        requires
            self.turns_in_order(state),
            self.finished_well(state, world),
            0 <= index < state.finished.len(),
        ensures
            self.has_directory(state.finished[index], depth),
        decreases index,
    {
        if state.finished[index] == self.frame.source {
            0
        } else {
            let j = choose|j: int|
                0 <= j < index && j < state.finished.len() && child_of(
                    state.finished[index],
                    #[trigger] state.finished[j],
                );
            let above = self.lemma_turn_reaches(state, world, j);
            assert(self.before.is_directory(state.finished[index]));
            above + 1
        }
    }

    /// Each directory once: when a run ends well, the directories that have
    /// had their turn are the directories of the source tree, and none of
    /// them has had two.
    pub proof fn law_each_directory_once(self, steps: Seq<Step>)
        requires
            self.frame.well_formed(),
            self.before.is_tree(),
            self.ends_well(steps),
        ensures
            self.first().after_all(steps).state.finished.no_duplicates(),
            forall|directory: Seq<char>, depth: nat| #[trigger]
                self.has_directory(directory, depth) ==> self.first().after_all(
                    steps,
                ).state.finished.contains(directory),
            forall|i: int|
                0 <= i < self.first().after_all(steps).state.finished.len()
                    ==> self.in_source_tree(
                    #[trigger] self.first().after_all(steps).state.finished[i],
                ),
    {
        let end = self.first().after_all(steps);
        self.lemma_first();
        self.lemma_steps(self.first(), steps);
        self.lemma_once_steps(self.first(), steps);
        assert forall|directory: Seq<char>, depth: nat| #[trigger]
            self.has_directory(directory, depth) implies end.state.finished.contains(directory) by {
            self.lemma_reached(end, directory, depth);
        }
        assert forall|i: int| 0 <= i < end.state.finished.len() implies self.in_source_tree(
            #[trigger] end.state.finished[i],
        ) by {
            let depth = self.lemma_turn_reaches(end.state, end.world, i);
            assert(self.has_directory(end.state.finished[i], depth));
        }
    }
}

} // verus!
