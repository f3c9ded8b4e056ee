//! A second run right after a run that ended well: it finds everything in
//! place, and asks for no change.

use crate::frame::child_of;
use crate::model::{EngineView, Phase};
use crate::protocol::{RequestView, ResponseView};
use crate::safety::Run;
use crate::turns::moment_of;
use crate::world::{Moment, Step, World};
use vstd::prelude::*;

verus! {

impl Run {
    /// Whether `done` are directories of the source tree that `world`
    /// mirrors, the source root and every subdirectory of each among them.
    pub open spec fn in_step(self, world: World, done: Seq<Seq<char>>) -> bool {
        &&& self.frozen(world)
        &&& done.contains(self.frame.source)
        &&& forall|k: int|
            0 <= k < done.len() ==> {
                let directory = #[trigger] done[k];
                &&& self.frame.in_source(directory)
                &&& self.mirrored(world, directory)
                &&& forall|path: Seq<char>| #[trigger]
                    child_of(path, directory) && self.before.is_directory(path) ==> done.contains(
                        path,
                    )
            }
    }

    /// Whether `entries` lists in `world` a directory that is done.
    pub open spec fn known(world: World, done: Seq<Seq<char>>, entries: crate::entries::EntriesView) -> bool {
        world.lists(entries) && done.contains(entries.path)
    }

    /// Whether the request changes nothing.
    pub open spec fn reads_only(request: RequestView) -> bool {
        match request {
            RequestView::CreateDirectories { .. } => false,
            RequestView::RemoveFile { .. } => false,
            RequestView::CopyFile { .. } => false,
            RequestView::SetModifiedTime { .. } => false,
            _ => true,
        }
    }

    /// What holds of the queue at every moment of the second run.
    pub open spec fn quiet_footing(self, world: World, done: Seq<Seq<char>>, state: EngineView) -> bool {
        &&& state.common_path == self.frame.common()
        &&& state.destination_path == self.frame.destination
        &&& forall|k: int|
            0 <= k < state.pending.len() ==> Self::known(world, done, #[trigger] state.pending[k])
    }

    /// What holds at every moment of the second run on `world`.
    pub open spec fn quiet(self, world: World, done: Seq<Seq<char>>, moment: Moment) -> bool {
        let state = moment.state;
        &&& moment.world == world
        &&& Self::reads_only(moment.request)
        &&& moment.request is Failed || {
            &&& state.consistent()
            &&& moment.request == state.awaited()
            &&& self.quiet_footing(world, done, state)
            &&& match state.phase {
                Phase::Idle => true,
                Phase::Root => state.current.path == self.frame.source,
                Phase::Children | Phase::Directory | Phase::Listing | Phase::FileProbe
                | Phase::FileTimes => Self::known(world, done, state.current),
                Phase::Create | Phase::Prune | Phase::FileCopy | Phase::FileStamp => false,
            }
        }
    }

    /// A state that differs in phase, cursor and extraneous files only has
    /// the same queue.
    pub proof fn lemma_quiet_moved(
        self,
        world: World,
        done: Seq<Seq<char>>,
        state: EngineView,
        moved: EngineView,
    )
        requires
            self.quiet_footing(world, done, state),
            moved.pending == state.pending,
            moved.common_path == state.common_path,
            moved.destination_path == state.destination_path,
        ensures
            self.quiet_footing(world, done, moved),
    {
        assert forall|k: int| 0 <= k < moved.pending.len() implies Self::known(
            world,
            done,
            #[trigger] moved.pending[k],
        ) by {
            assert(Self::known(world, done, state.pending[k]));
        }
    }

    /// The second run asks for the listing of a subdirectory or whether the
    /// destination directory exists.
    pub proof fn lemma_quiet_scan_children(
        self,
        world: World,
        done: Seq<Seq<char>>,
        state: EngineView,
        index: int,
    )
        requires
            self.frame.well_formed(),
            self.in_step(world, done),
            self.quiet_footing(world, done, state),
            Self::known(world, done, state.current),
            0 <= index <= state.current.directory_paths.len(),
        ensures
            self.quiet(world, done, moment_of(state.scan_children(index as nat), world)),
    {
        let moved = state.scan_children(index as nat).0;
        self.lemma_quiet_moved(world, done, state, moved);
        self.lemma_maps(state);
        let k = choose|k: int| 0 <= k < done.len() && done[k] == state.current.path;
        self.frame.lemma_there_and_back(done[k]);
    }

    /// The second run takes the next directory or ends.
    pub proof fn lemma_quiet_next_level(self, world: World, done: Seq<Seq<char>>, state: EngineView)
        requires
            self.frame.well_formed(),
            self.in_step(world, done),
            self.quiet_footing(world, done, state),
        ensures
            self.quiet(world, done, moment_of(state.next_level(), world)),
    {
        if state.pending.len() > 0 {
            let next = EngineView {
                current: state.pending[0],
                pending: state.pending.skip(1),
                finished: state.finished.push(state.current.path),
                ..state
            };
            assert forall|k: int| 0 <= k < next.pending.len() implies Self::known(
                world,
                done,
                #[trigger] next.pending[k],
            ) by {
                assert(Self::known(world, done, state.pending[k + 1]));
            }
            assert(Self::known(world, done, state.pending[0]));
            self.lemma_quiet_scan_children(world, done, next, 0);
        } else {
            let last = state.next_level().0;
            self.lemma_quiet_moved(world, done, state, last);
        }
    }

    /// The second run asks whether the destination of a file exists, or
    /// goes on to the next directory.
    pub proof fn lemma_quiet_sync_files(
        self,
        world: World,
        done: Seq<Seq<char>>,
        state: EngineView,
        index: int,
    )
        requires
            self.frame.well_formed(),
            self.in_step(world, done),
            self.quiet_footing(world, done, state),
            Self::known(world, done, state.current),
            0 <= index <= state.current.file_paths.len(),
        ensures
            self.quiet(world, done, moment_of(state.sync_files(index as nat), world)),
    {
        if index < state.current.file_paths.len() {
            let moved = state.sync_files(index as nat).0;
            self.lemma_quiet_moved(world, done, state, moved);
            self.lemma_maps(state);
            let file = state.current.file_paths[index];
            assert(state.current.file_paths.contains(file));
            let k = choose|k: int| 0 <= k < done.len() && done[k] == state.current.path;
            self.frame.lemma_child_placed(file, done[k]);
            self.frame.lemma_there_and_back(file);
        } else {
            self.lemma_quiet_next_level(world, done, state);
        }
    }

    /// One exchange of the second run changes nothing and leads to no
    /// request for a change.
    pub proof fn lemma_quiet_step(
        self,
        world: World,
        done: Seq<Seq<char>>,
        moment: Moment,
        step: Step,
    )
        requires
            self.frame.well_formed(),
            self.in_step(world, done),
            self.quiet(world, done, moment),
            moment.admits(step),
        ensures
            self.quiet(world, done, moment.after(step)),
    {
        let state = moment.state;
        self.lemma_maps(state);
        match state.phase {
            Phase::Root => {
                if let ResponseView::Entries(entries) = step.response {
                    let listed = EngineView { current: entries, ..state };
                    self.lemma_quiet_moved(world, done, state, listed);
                    self.lemma_quiet_scan_children(world, done, listed, 0);
                }
            },
            Phase::Children => {
                if let ResponseView::Entries(entries) = step.response {
                    let longer = EngineView { pending: state.pending.push(entries), ..state };
                    let scanned = state.current.directory_paths[state.cursor as int];
                    assert(state.current.directory_paths.contains(scanned));
                    let k = choose|k: int| 0 <= k < done.len() && done[k] == state.current.path;
                    self.frame.lemma_child_placed(scanned, done[k]);
                    assert(self.same_at(world, scanned));
                    assert(done.contains(scanned));
                    assert forall|k: int| 0 <= k < longer.pending.len() implies Self::known(
                        world,
                        done,
                        #[trigger] longer.pending[k],
                    ) by {
                        if k < state.pending.len() {
                            assert(Self::known(world, done, state.pending[k]));
                        }
                    }
                    self.lemma_quiet_scan_children(
                        world,
                        done,
                        longer,
                        (state.cursor + 1) as int,
                    );
                }
            },
            Phase::Directory => {
                let k = choose|k: int| 0 <= k < done.len() && done[k] == state.current.path;
                assert(self.mirrored(world, done[k]));
                let moved = moment.after(step).state;
                self.lemma_quiet_moved(world, done, state, moved);
            },
            Phase::Listing => {
                if let ResponseView::Entries(entries) = step.response {
                    if state.all_below_destination(entries.file_paths) {
                        let k = choose|k: int|
                            0 <= k < done.len() && done[k] == state.current.path;
                        let directory = done[k];
                        let home = self.placed(directory);
                        assert(self.clean(world, directory));
                        let found = state.extraneous_among(entries.file_paths);
                        state.lemma_extraneous_among(entries.file_paths);
                        self.frame.lemma_there_and_back(directory);
                        if found.len() > 0 {
                            let path = found[0];
                            assert(entries.file_paths.contains(path));
                            assert(self.has_origin(path));
                            self.frame.lemma_child_counterpart(path, home);
                            let origin = self.counterpart(path);
                            self.frame.lemma_child_placed(origin, directory);
                            assert(self.same_at(world, origin));
                            assert(state.current.file_paths.contains(origin));
                        }
                        let moved = EngineView { extraneous: found, ..state };
                        self.lemma_quiet_moved(world, done, state, moved);
                        self.lemma_quiet_sync_files(world, done, moved, 0);
                    }
                }
            },
            Phase::FileProbe => {
                let file = state.file();
                assert(state.current.file_paths.contains(file));
                let k = choose|k: int| 0 <= k < done.len() && done[k] == state.current.path;
                assert(self.all_settled(world, done[k]));
                self.frame.lemma_child_placed(file, done[k]);
                assert(self.same_at(world, file));
                assert(self.settled(world, file));
                let moved = moment.after(step).state;
                self.lemma_quiet_moved(world, done, state, moved);
            },
            Phase::FileTimes => {
                let file = state.file();
                assert(state.current.file_paths.contains(file));
                let k = choose|k: int| 0 <= k < done.len() && done[k] == state.current.path;
                assert(self.all_settled(world, done[k]));
                self.frame.lemma_child_placed(file, done[k]);
                assert(self.same_at(world, file));
                assert(self.settled(world, file));
                if step.response is Times {
                    self.lemma_quiet_sync_files(world, done, state, (state.cursor + 1) as int);
                }
            },
            _ => {},
        }
    }

    /// Any number of exchanges of the second run change nothing and lead to
    /// no request for a change.
    pub proof fn lemma_quiet_steps(
        self,
        world: World,
        done: Seq<Seq<char>>,
        moment: Moment,
        steps: Seq<Step>,
    )
        requires
            self.frame.well_formed(),
            self.in_step(world, done),
            self.quiet(world, done, moment),
            moment.admits_all(steps),
        ensures
            self.quiet(world, done, moment.after_all(steps)),
        decreases steps.len(),
    {
        if steps.len() > 0 {
            self.lemma_quiet_step(world, done, moment, steps[0]);
            self.lemma_quiet_steps(world, done, moment.after(steps[0]), steps.skip(1));
        }
    }

    /// After a run that ends well the file system is in step with the
    /// source tree.
    pub proof fn lemma_in_step(self, steps: Seq<Step>)
        requires
            self.frame.well_formed(),
            self.before.is_tree(),
            self.ends_well(steps),
        ensures
            self.in_step(self.after(steps), self.first().after_all(steps).state.finished),
    {
        self.lemma_first();
        self.lemma_steps(self.first(), steps);
        let end = self.first().after_all(steps);
        let done = end.state.finished;
        assert forall|k: int| 0 <= k < done.len() implies {
            let directory = #[trigger] done[k];
            &&& self.frame.in_source(directory)
            &&& self.mirrored(end.world, directory)
            &&& forall|path: Seq<char>| #[trigger]
                child_of(path, directory) && self.before.is_directory(path) ==> done.contains(path)
        } by {
            let directory = done[k];
            assert(self.children_seen(end.state, directory));
            assert forall|path: Seq<char>| #[trigger]
                child_of(path, directory) && self.before.is_directory(path) implies done.contains(
                path,
            ) by {
                assert(Self::seen(end.state, path));
            }
        }
    }

    /// Idempotence: a second run right after a run that ended well leaves
    /// the file system as the first run left it, and at no moment asks to
    /// create, remove, copy or stamp anything.
    pub proof fn law_idempotence(self, steps: Seq<Step>, again: Seq<Step>)
        requires
            self.frame.well_formed(),
            self.before.is_tree(),
            self.ends_well(steps),
            Moment::first(self.frame.source, self.frame.destination, self.after(steps)).admits_all(
                again,
            ),
        ensures
            Moment::first(self.frame.source, self.frame.destination, self.after(steps)).after_all(
                again,
            ).world == self.after(steps),
            Self::reads_only(
                Moment::first(
                    self.frame.source,
                    self.frame.destination,
                    self.after(steps),
                ).after_all(again).request,
            ),
    {
        let world = self.after(steps);
        let done = self.first().after_all(steps).state.finished;
        self.lemma_in_step(steps);
        let second = Moment::first(self.frame.source, self.frame.destination, world);
        self.lemma_quiet_steps(world, done, second, again);
    }
}

} // verus!
