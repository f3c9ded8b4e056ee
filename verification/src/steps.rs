//! One exchange with the file system keeps what `Run::holds` states,
//! whatever the phase in which the engine waits.

use crate::entries::EntriesView;
use crate::frame::child_of;
use crate::model::{EngineView, Phase};
use crate::protocol::ResponseView;
use crate::safety::Run;
use crate::world::{Moment, Step, World};
use vstd::prelude::*;

verus! {

impl Run {
    /// A listing of a directory of the source tree is a listing of it as it
    /// was before the run.
    pub proof fn lemma_lists_before(self, world: World, entries: EntriesView)
        requires
            self.frame.well_formed(),
            self.frozen(world),
            self.frame.in_source(entries.path),
            world.lists(entries),
        ensures
            self.faithful(entries),
    {
        assert(self.same_at(world, entries.path));
        assert forall|path: Seq<char>|
            #![trigger entries.file_paths.contains(path)]
            #![trigger child_of(path, entries.path)]
            entries.file_paths.contains(path) <==> self.before.is_file(path) && child_of(
                path,
                entries.path,
            ) by {
            if child_of(path, entries.path) {
                self.frame.lemma_child_placed(path, entries.path);
                assert(self.same_at(world, path));
            }
        }
        assert forall|path: Seq<char>|
            #![trigger entries.directory_paths.contains(path)]
            #![trigger child_of(path, entries.path)]
            entries.directory_paths.contains(path) <==> self.before.is_directory(path) && child_of(
                path,
                entries.path,
            ) by {
            if child_of(path, entries.path) {
                self.frame.lemma_child_placed(path, entries.path);
                assert(self.same_at(world, path));
            }
        }
    }

    /// What waits in a queue waits in the queue with one more.
    pub proof fn lemma_queued_pushed(state: EngineView, longer: EngineView, path: Seq<char>)
        requires
            longer.pending == state.pending.push(longer.pending.last()),
            Self::queued(state, path),
        ensures
            Self::queued(longer, path),
    {
        let k = choose|k: int|
            0 <= k < state.pending.len() && (#[trigger] state.pending[k]).path == path;
        assert(longer.pending[k].path == path);
    }

    /// The listing of the source root arrives.
    pub proof fn lemma_step_root(self, moment: Moment, step: Step)
        requires
            self.frame.well_formed(),
            self.holds(moment),
            moment.admits(step),
            moment.state.phase == Phase::Root,
        ensures
            self.holds(moment.after(step)),
    {
        let state = moment.state;
        let world = moment.world;
        if let ResponseView::Entries(entries) = step.response {
            let listed = EngineView { current: entries, ..state };
            self.lemma_lists_before(world, entries);
            assert(self.finished_well(listed, world)) by {
                assert forall|k: int| 0 <= k < listed.finished.len() implies {
                    let directory = #[trigger] listed.finished[k];
                    &&& self.before.is_directory(directory)
                    &&& self.frame.in_source(directory)
                    &&& self.mirrored(world, directory)
                    &&& self.children_seen(listed, directory)
                } by {
                    let directory = state.finished[k];
                    assert(self.children_seen(state, directory));
                    assert forall|path: Seq<char>| #[trigger]
                        child_of(path, directory) && self.before.is_directory(
                            path,
                        ) implies Self::seen(listed, path) by {
                        assert(Self::seen(state, path));
                        if Self::queued(state, path) {
                            Self::lemma_queued_same(state, listed, path);
                        }
                    }
                }
            }
            assert(self.pending_faithful(listed)) by {
                assert forall|k: int| 0 <= k < listed.pending.len() implies self.faithful(
                    #[trigger] listed.pending[k],
                ) by {
                    assert(self.faithful(state.pending[k]));
                }
            }
            self.lemma_scan_children(listed, world, 0);
        }
    }

    /// The listing of a subdirectory arrives.
    pub proof fn lemma_step_children(self, moment: Moment, step: Step)
        requires
            self.frame.well_formed(),
            self.holds(moment),
            moment.admits(step),
            moment.state.phase == Phase::Children,
        ensures
            self.holds(moment.after(step)),
    {
        let state = moment.state;
        let world = moment.world;
        if let ResponseView::Entries(entries) = step.response {
            let longer = EngineView { pending: state.pending.push(entries), ..state };
            let scanned = state.current.directory_paths[state.cursor as int];
            assert(state.current.directory_paths.contains(scanned));
            self.frame.lemma_child_placed(scanned, state.current.path);
            self.lemma_lists_before(world, entries);
            assert(longer.pending.last() == entries);
            assert(self.finished_well(longer, world)) by {
                assert forall|k: int| 0 <= k < longer.finished.len() implies {
                    let directory = #[trigger] longer.finished[k];
                    &&& self.before.is_directory(directory)
                    &&& self.frame.in_source(directory)
                    &&& self.mirrored(world, directory)
                    &&& self.children_seen(longer, directory)
                } by {
                    let directory = state.finished[k];
                    assert(self.children_seen(state, directory));
                    assert forall|path: Seq<char>| #[trigger]
                        child_of(path, directory) && self.before.is_directory(
                            path,
                        ) implies Self::seen(longer, path) by {
                        assert(Self::seen(state, path));
                        if Self::queued(state, path) {
                            Self::lemma_queued_pushed(state, longer, path);
                        }
                    }
                }
            }
            if Self::queued(state, self.frame.source) {
                Self::lemma_queued_pushed(state, longer, self.frame.source);
            }
            assert(self.pending_faithful(longer)) by {
                assert forall|k: int| 0 <= k < longer.pending.len() implies self.faithful(
                    #[trigger] longer.pending[k],
                ) by {
                    if k < state.pending.len() {
                        assert(self.faithful(state.pending[k]));
                    }
                }
            }
            assert(Self::children_queued(longer, (state.cursor + 1) as int)) by {
                assert forall|j: int| 0 <= j < (state.cursor + 1) as int implies Self::queued(
                    longer,
                    #[trigger] longer.current.directory_paths[j],
                ) by {
                    if j < state.cursor {
                        Self::lemma_queued_pushed(state, longer, state.current.directory_paths[j]);
                    } else {
                        assert(longer.pending[state.pending.len() as int].path == scanned);
                    }
                }
            }
            self.lemma_scan_children(longer, world, (state.cursor + 1) as int);
        }
    }

    /// The answer on whether the destination directory exists arrives.
    pub proof fn lemma_step_directory(self, moment: Moment, step: Step)
        requires
            self.frame.well_formed(),
            self.holds(moment),
            moment.admits(step),
            moment.state.phase == Phase::Directory,
        ensures
            self.holds(moment.after(step)),
    {
        let state = moment.state;
        let world = moment.world;
        self.lemma_maps(state);
        let moved = moment.after(step).state;
        self.lemma_grounded_moved(state, moved, world);
        assert forall|j: int| 0 <= j < moved.current.directory_paths.len() implies Self::queued(
            moved,
            #[trigger] moved.current.directory_paths[j],
        ) by {
            Self::lemma_queued_same(state, moved, state.current.directory_paths[j]);
        }
    }

    /// The destination directory has been created.
    pub proof fn lemma_step_create(self, moment: Moment, step: Step)
        requires
            self.frame.well_formed(),
            self.holds(moment),
            moment.admits(step),
            moment.state.phase == Phase::Create,
        ensures
            self.holds(moment.after(step)),
    {
        let state = moment.state;
        let world = moment.world;
        self.lemma_maps(state);
        if step.response is Done {
            self.lemma_created(state, world, step.world);
            self.lemma_sync_files(state, step.world, 0);
        }
    }

    /// The listing of the destination directory arrives.
    pub proof fn lemma_step_listing(self, moment: Moment, step: Step)
        requires
            self.frame.well_formed(),
            self.holds(moment),
            moment.admits(step),
            moment.state.phase == Phase::Listing,
        ensures
            self.holds(moment.after(step)),
    {
        let state = moment.state;
        let world = moment.world;
        self.lemma_maps(state);
        if let ResponseView::Entries(entries) = step.response {
            if state.all_below_destination(entries.file_paths) {
                let home = self.placed(state.current.path);
                let found = state.extraneous_among(entries.file_paths);
                let moved = EngineView { extraneous: found, ..state };
                state.lemma_extraneous_among(entries.file_paths);
                self.frame.lemma_there_and_back(state.current.path);
                self.lemma_grounded_moved(state, moved, world);
                assert forall|j: int|
                    0 <= j < moved.current.directory_paths.len() implies Self::queued(
                    moved,
                    #[trigger] moved.current.directory_paths[j],
                ) by {
                    Self::lemma_queued_same(state, moved, state.current.directory_paths[j]);
                }
                assert forall|j: int| 0 <= j < moved.extraneous.len() implies {
                    let path = #[trigger] moved.extraneous[j];
                    child_of(path, self.placed(moved.current.path)) && !self.has_origin(path)
                } by {
                    let path = found[j];
                    assert(entries.file_paths.contains(path));
                    self.frame.lemma_child_counterpart(path, home);
                }
                assert forall|path: Seq<char>| #[trigger]
                    child_of(path, self.placed(moved.current.path)) && world.is_file(
                        path,
                    ) implies self.has_origin(path) || Self::to_remove(moved, 0, path) by {
                    assert(entries.file_paths.contains(path));
                    let i = choose|i: int|
                        0 <= i < entries.file_paths.len() && entries.file_paths[i] == path;
                    if !self.has_origin(path) {
                        assert(state.is_extraneous(entries.file_paths[i]));
                        assert(found.contains(path));
                        let j = choose|j: int| 0 <= j < found.len() && found[j] == path;
                        assert(moved.extraneous[j] == path);
                    }
                }
                self.lemma_prune(moved, world, 0);
            }
        }
    }

    /// An extraneous file has been removed.
    pub proof fn lemma_step_prune(self, moment: Moment, step: Step)
        requires
            self.frame.well_formed(),
            self.holds(moment),
            moment.admits(step),
            moment.state.phase == Phase::Prune,
        ensures
            self.holds(moment.after(step)),
    {
        let state = moment.state;
        let world = moment.world;
        let after = step.world;
        if step.response is Done {
            let target = state.extraneous[state.cursor as int];
            assert(child_of(target, self.placed(state.current.path)) && !self.has_origin(target));
            self.lemma_touched(state, world, after, target);
            assert forall|file: Seq<char>| #[trigger] self.file_in_order(after, file) by {
                assert(self.file_in_order(world, file));
                if self.frame.in_source(file) && self.before.is_file(file) {
                    assert(self.file_unchanged(world, after, file));
                }
            }
            assert forall|path: Seq<char>| #[trigger]
                child_of(path, self.placed(state.current.path)) && after.is_file(
                    path,
                ) implies self.has_origin(path) || Self::to_remove(
                state,
                (state.cursor + 1) as int,
                path,
            ) by {
                assert(after.is_file(path) == world.is_file(path));
                if !self.has_origin(path) {
                    assert(Self::to_remove(state, state.cursor as int, path));
                    let j = choose|j: int|
                        state.cursor <= j < state.extraneous.len() && #[trigger] state.extraneous[j]
                            == path;
                    assert(state.extraneous[j] == path);
                }
            }
            assert(self.extraneous_left(state, (state.cursor + 1) as int));
            self.lemma_prune(state, after, (state.cursor + 1) as int);
        }
    }

    /// A file of the source whose destination is untouched and not kept is
    /// not settled.
    pub proof fn lemma_not_settled(self, world: World, file: Seq<char>)
        requires
            self.untouched(world, file),
            !self.keeps(file),
            self.before.is_file(file),
        ensures
            !self.settled(world, file),
    {
    }

    /// The answer on whether the destination of a file exists arrives.
    pub proof fn lemma_step_file_probe(self, moment: Moment, step: Step)
        requires
            self.frame.well_formed(),
            self.holds(moment),
            moment.admits(step),
            moment.state.phase == Phase::FileProbe,
        ensures
            self.holds(moment.after(step)),
    {
        let state = moment.state;
        let world = moment.world;
        self.lemma_maps(state);
        let file = state.file();
        assert(state.current.file_paths.contains(file));
        self.frame.lemma_child_placed(file, state.current.path);
        assert(self.file_in_order(world, file));
        let moved = moment.after(step).state;
        self.lemma_level_ready_moved(state, moved, world, state.cursor as int);
        assert forall|other: Seq<char>| Some(other) != Some(file) implies #[trigger] self.file_in_order(
            world,
            other,
        ) by {}
    }

    /// The two modification times of a file and of its destination arrive.
    pub proof fn lemma_step_file_times(self, moment: Moment, step: Step)
        requires
            self.frame.well_formed(),
            self.holds(moment),
            moment.admits(step),
            moment.state.phase == Phase::FileTimes,
        ensures
            self.holds(moment.after(step)),
    {
        let state = moment.state;
        let world = moment.world;
        self.lemma_maps(state);
        let file = state.file();
        assert(state.current.file_paths.contains(file));
        self.frame.lemma_child_placed(file, state.current.path);
        assert(self.file_in_order(world, file));
        assert(self.same_at(world, file));
        if let ResponseView::Times { source, destination } = step.response {
            if source.instant() > destination.instant() {
                let moved = moment.after(step).state;
                self.lemma_level_ready_moved(state, moved, world, state.cursor as int);
                assert forall|other: Seq<char>|
                    Some(other) != Some(file) implies #[trigger] self.file_in_order(
                    world,
                    other,
                ) by {}
            } else {
                assert(self.settled(world, file));
                assert forall|j: int| 0 <= j < (state.cursor + 1) as int implies self.settled(
                    world,
                    #[trigger] state.current.file_paths[j],
                ) by {}
                self.lemma_sync_files(state, world, (state.cursor + 1) as int);
            }
        }
    }

    /// A file has been copied.
    pub proof fn lemma_step_file_copy(self, moment: Moment, step: Step)
        requires
            self.frame.well_formed(),
            self.holds(moment),
            moment.admits(step),
            moment.state.phase == Phase::FileCopy,
        ensures
            self.holds(moment.after(step)),
    {
        let state = moment.state;
        let world = moment.world;
        let after = step.world;
        self.lemma_maps(state);
        let file = state.file();
        let target = self.placed(file);
        assert(state.current.file_paths.contains(file));
        self.frame.lemma_child_placed(file, state.current.path);
        self.frame.lemma_there_and_back(file);
        assert(self.same_at(world, file));
        self.lemma_not_settled(world, file);
        if step.response is Done {
            self.lemma_touched(state, world, after, target);
            let moved = moment.after(step).state;
            assert forall|other: Seq<char>|
                Some(other) != Some(file) implies #[trigger] self.file_in_order(after, other) by {
                assert(self.file_in_order(world, other));
                if self.frame.in_source(other) {
                    assert(self.file_unchanged(world, after, other));
                }
            }
            assert forall|path: Seq<char>| #[trigger]
                child_of(path, self.placed(state.current.path)) && after.is_file(
                    path,
                ) implies self.has_origin(path) by {
                if path != target {
                    assert(after.is_file(path) == world.is_file(path));
                }
            }
            assert forall|j: int| 0 <= j < state.cursor implies self.settled(
                after,
                #[trigger] state.current.file_paths[j],
            ) by {
                let other = state.current.file_paths[j];
                assert(self.settled(world, other));
                assert(state.current.file_paths.contains(other));
                self.frame.lemma_child_placed(other, state.current.path);
                assert(self.file_unchanged(world, after, other));
            }
            assert(self.level_ready(state, after, state.cursor as int));
            self.lemma_level_ready_moved(state, moved, after, state.cursor as int);
        }
    }

    /// The copy of a file has been given the modification time of its
    /// source.
    pub proof fn lemma_step_file_stamp(self, moment: Moment, step: Step)
        requires
            self.frame.well_formed(),
            self.holds(moment),
            moment.admits(step),
            moment.state.phase == Phase::FileStamp,
        ensures
            self.holds(moment.after(step)),
    {
        let state = moment.state;
        let world = moment.world;
        let after = step.world;
        self.lemma_maps(state);
        let file = state.file();
        let target = self.placed(file);
        assert(state.current.file_paths.contains(file));
        self.frame.lemma_child_placed(file, state.current.path);
        self.frame.lemma_there_and_back(file);
        assert(self.same_at(world, file));
        if step.response is Done {
            assert(after.nodes[target] == self.before.nodes[file]);
            assert(self.settled(after, file));
            self.lemma_touched(state, world, after, target);
            assert forall|other: Seq<char>| #[trigger] self.file_in_order(after, other) by {
                if other != file {
                    assert(self.file_in_order(world, other));
                    if self.frame.in_source(other) {
                        assert(self.file_unchanged(world, after, other));
                    }
                }
            }
            assert forall|path: Seq<char>| #[trigger]
                child_of(path, self.placed(state.current.path)) && after.is_file(
                    path,
                ) implies self.has_origin(path) by {
                if path != target {
                    assert(after.is_file(path) == world.is_file(path));
                }
            }
            assert forall|j: int| 0 <= j < (state.cursor + 1) as int implies self.settled(
                after,
                #[trigger] state.current.file_paths[j],
            ) by {
                let other = state.current.file_paths[j];
                if other != file {
                    assert(self.settled(world, other));
                    assert(state.current.file_paths.contains(other));
                    self.frame.lemma_child_placed(other, state.current.path);
                    assert(self.file_unchanged(world, after, other));
                }
            }
            self.lemma_sync_files(state, after, (state.cursor + 1) as int);
        }
    }

    /// One exchange keeps what holds.
    pub proof fn lemma_step(self, moment: Moment, step: Step)
        requires
            self.frame.well_formed(),
            self.holds(moment),
            moment.admits(step),
        ensures
            self.holds(moment.after(step)),
    {
        match moment.state.phase {
            Phase::Idle => {},
            Phase::Root => self.lemma_step_root(moment, step),
            Phase::Children => self.lemma_step_children(moment, step),
            Phase::Directory => self.lemma_step_directory(moment, step),
            Phase::Create => self.lemma_step_create(moment, step),
            Phase::Listing => self.lemma_step_listing(moment, step),
            Phase::Prune => self.lemma_step_prune(moment, step),
            Phase::FileProbe => self.lemma_step_file_probe(moment, step),
            Phase::FileTimes => self.lemma_step_file_times(moment, step),
            Phase::FileCopy => self.lemma_step_file_copy(moment, step),
            Phase::FileStamp => self.lemma_step_file_stamp(moment, step),
        }
    }

    /// What holds at the first moment of a run holds after any number of
    /// exchanges.
    pub proof fn lemma_steps(self, moment: Moment, steps: Seq<Step>)
        requires
            self.frame.well_formed(),
            self.holds(moment),
            moment.admits_all(steps),
        ensures
            self.holds(moment.after_all(steps)),
        decreases steps.len(),
    {
        if steps.len() > 0 {
            self.lemma_step(moment, steps[0]);
            self.lemma_steps(moment.after(steps[0]), steps.skip(1));
        }
    }

    /// It holds at the first moment of a run on a file system in which the
    /// parent of everything is a directory.
    pub proof fn lemma_first(self)
        requires
            self.frame.well_formed(),
            self.before.is_tree(),
        ensures
            self.holds(Moment::first(self.frame.source, self.frame.destination, self.before)),
    {
        let first = Moment::first(self.frame.source, self.frame.destination, self.before);
        assert forall|path: Seq<char>| self.frame.in_source(path) implies #[trigger] self.same_at(
            self.before,
            path,
        ) by {}
        assert forall|file: Seq<char>| #[trigger] self.file_in_order(self.before, file) by {}
    }
}

} // verus!
