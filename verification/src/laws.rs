//! What a run that ends well has done to the file system.
//!
//! The laws speak of a run on the model of the file system in `world`: of
//! any sequence of exchanges that the model admits and after which the
//! engine says that it has finished. They hold for a well-formed frame and a
//! file system in which the parent of everything that exists is a
//! directory.

use crate::frame::child_of;
use crate::model::Phase;
use crate::protocol::RequestView;
use crate::safety::Run;
use crate::world::{Moment, Step, World};
use vstd::prelude::*;

verus! {

impl Run {
    /// The first moment of the run.
    pub open spec fn first(self) -> Moment {
        Moment::first(self.frame.source, self.frame.destination, self.before)
    }

    /// Whether `steps` is a whole run that ends well: the file system
    /// admits each exchange in its turn, and after the last the engine has
    /// finished.
    pub open spec fn ends_well(self, steps: Seq<Step>) -> bool {
        &&& self.first().admits_all(steps)
        &&& self.first().after_all(steps).request is Finished
    }

    /// The file system after `steps`.
    pub open spec fn after(self, steps: Seq<Step>) -> World {
        self.first().after_all(steps).world
    }

    /// Whether `directory` is a directory of the source tree, `depth` levels
    /// below the source root.
    pub open spec fn has_directory(self, directory: Seq<char>, depth: nat) -> bool {
        self.before.reaches(self.frame.source, directory, depth)
    }

    /// Whether `file` is a file in `directory`, a directory of the source
    /// tree `depth` levels below the source root.
    pub open spec fn has_file(self, file: Seq<char>, directory: Seq<char>, depth: nat) -> bool {
        &&& self.has_directory(directory, depth)
        &&& child_of(file, directory)
        &&& self.before.is_file(file)
    }

    /// Every directory of the source tree has had its turn when the engine
    /// has finished.
    pub proof fn lemma_reached(self, moment: Moment, directory: Seq<char>, depth: nat)
        requires
            self.holds(moment),
            moment.request is Finished,
            self.has_directory(directory, depth),
        ensures
            moment.state.finished.contains(directory),
        decreases depth,
    {
        let state = moment.state;
        if depth > 0 {
            let parent = choose|parent: Seq<char>|
                self.before.reaches(self.frame.source, parent, (depth - 1) as nat)
                    && self.before.is_directory(directory) && #[trigger] child_of(
                    directory,
                    parent,
                );
            self.lemma_reached(moment, parent, (depth - 1) as nat);
            let k = choose|k: int| 0 <= k < state.finished.len() && state.finished[k] == parent;
            assert(self.children_seen(state, state.finished[k]));
            assert(Self::seen(state, directory));
        }
    }

    /// A directory of the source tree is mirrored after a run that ends
    /// well.
    pub proof fn lemma_mirrored(self, steps: Seq<Step>, directory: Seq<char>, depth: nat)
        requires
            self.frame.well_formed(),
            self.before.is_tree(),
            self.ends_well(steps),
            self.has_directory(directory, depth),
        ensures
            self.mirrored(self.after(steps), directory),
            self.frame.in_source(directory),
    {
        self.lemma_first();
        self.lemma_steps(self.first(), steps);
        let end = self.first().after_all(steps);
        self.lemma_reached(end, directory, depth);
        let k = choose|k: int|
            0 <= k < end.state.finished.len() && end.state.finished[k] == directory;
        assert(self.mirrored(end.world, end.state.finished[k]));
    }

    /// Directory creation: after a run that ends well, every directory of
    /// the source tree, an empty one too, has its directory in the
    /// destination.
    pub proof fn law_directories_created(self, steps: Seq<Step>, directory: Seq<char>, depth: nat)
        requires
            self.frame.well_formed(),
            self.before.is_tree(),
            self.ends_well(steps),
            self.has_directory(directory, depth),
        ensures
            self.after(steps).is_directory(self.placed(directory)),
    {
        self.lemma_mirrored(steps, directory, depth);
    }

    /// After a run that ends well, the destination of every file of the
    /// source tree is a file, and holds what `outcome` says: the source file
    /// with its contents and modification time, unless a file was there
    /// before that was not older, which is then still there.
    pub proof fn law_files_settled(
        self,
        steps: Seq<Step>,
        file: Seq<char>,
        directory: Seq<char>,
        depth: nat,
    )
        requires
            self.frame.well_formed(),
            self.before.is_tree(),
            self.ends_well(steps),
            self.has_file(file, directory, depth),
        ensures
            self.after(steps).is_file(self.placed(file)),
            self.after(steps).nodes[self.placed(file)] == self.outcome(file),
    {
        self.lemma_mirrored(steps, directory, depth);
        assert(self.settled(self.after(steps), file));
    }

    /// Completeness: after a run that ends well, every file of the source
    /// tree whose destination held no file, or an older one, has there a
    /// file with its contents and its modification time.
    pub proof fn law_completeness(
        self,
        steps: Seq<Step>,
        file: Seq<char>,
        directory: Seq<char>,
        depth: nat,
    )
        requires
            self.frame.well_formed(),
            self.before.is_tree(),
            self.ends_well(steps),
            self.has_file(file, directory, depth),
            !self.before.is_file(self.placed(file)) || self.before.modified(file).instant()
                > self.before.modified(self.placed(file)).instant(),
        ensures
            self.after(steps).is_file(self.placed(file)),
            self.after(steps).content(self.placed(file)) == self.before.content(file),
            self.after(steps).modified(self.placed(file)) == self.before.modified(file),
    {
        self.law_files_settled(steps, file, directory, depth);
    }

    /// Newer wins: a destination file that is older than its source is
    /// overwritten with the source; one that is as old or newer is left as
    /// it was, whatever it holds.
    pub proof fn law_newer_wins(
        self,
        steps: Seq<Step>,
        file: Seq<char>,
        directory: Seq<char>,
        depth: nat,
    )
        requires
            self.frame.well_formed(),
            self.before.is_tree(),
            self.ends_well(steps),
            self.has_file(file, directory, depth),
            self.before.is_file(self.placed(file)),
        ensures
            self.after(steps).is_file(self.placed(file)),
            self.before.modified(file).instant() > self.before.modified(
                self.placed(file),
            ).instant() ==> self.after(steps).nodes[self.placed(file)] == self.before.nodes[file],
            self.before.modified(file).instant() <= self.before.modified(
                self.placed(file),
            ).instant() ==> self.after(steps).nodes[self.placed(file)]
                == self.before.nodes[self.placed(file)],
    {
        self.law_files_settled(steps, file, directory, depth);
    }

    /// Pruning: after a run that ends well, no file is left in the
    /// destination of a directory of the source tree that stands for no file
    /// of the source.
    pub proof fn law_pruning(
        self,
        steps: Seq<Step>,
        path: Seq<char>,
        directory: Seq<char>,
        depth: nat,
    )
        requires
            self.frame.well_formed(),
            self.before.is_tree(),
            self.ends_well(steps),
            self.has_directory(directory, depth),
            child_of(path, self.placed(directory)),
            !self.before.is_file(self.counterpart(path)),
        ensures
            !self.after(steps).is_file(path),
    {
        self.lemma_mirrored(steps, directory, depth);
        assert(self.clean(self.after(steps), directory));
    }

    /// A file in the destination of a directory of the source tree stands
    /// for a file of that very directory.
    pub proof fn law_counterpart_in_directory(self, path: Seq<char>, directory: Seq<char>)
        requires
            self.frame.well_formed(),
            self.frame.in_source(directory),
            child_of(path, self.placed(directory)),
        ensures
            child_of(self.counterpart(path), directory),
            self.placed(self.counterpart(path)) == path,
    {
        self.frame.lemma_there_and_back(directory);
        self.frame.lemma_child_counterpart(path, self.placed(directory));
        self.frame.lemma_back_and_there(path);
    }

    /// A run leaves the source tree as it was, whether it ends well or not.
    pub proof fn law_source_kept(self, steps: Seq<Step>, path: Seq<char>)
        requires
            self.frame.well_formed(),
            self.before.is_tree(),
            self.first().admits_all(steps),
            !(self.first().after_all(steps).request is Failed),
            self.frame.in_source(path),
        ensures
            self.after(steps).holds(path) == self.before.holds(path),
            self.before.holds(path) ==> self.after(steps).nodes[path] == self.before.nodes[path],
    {
        self.lemma_first();
        self.lemma_steps(self.first(), steps);
        assert(self.same_at(self.after(steps), path));
    }

    /// The path that a request changes, if it changes any.
    pub open spec fn target(request: RequestView) -> Option<Seq<char>> {
        match request {
            RequestView::CreateDirectories { path } => Some(path),
            RequestView::RemoveFile { path } => Some(path),
            RequestView::CopyFile { destination, .. } => Some(destination),
            RequestView::SetModifiedTime { destination, .. } => Some(destination),
            _ => None,
        }
    }

    /// At no moment of a run does the engine ask for a change in the source
    /// tree: what it asks to create, remove, copy to or stamp lies in the
    /// mirror tree. And what it asks to remove stands for no file of the
    /// source.
    pub proof fn law_changes_in_mirror(self, steps: Seq<Step>, path: Seq<char>)
        requires
            self.frame.well_formed(),
            self.before.is_tree(),
            self.first().admits_all(steps),
            Self::target(self.first().after_all(steps).request) == Some(path),
        ensures
            self.frame.in_mirror(path),
            !self.frame.in_source(path),
            self.first().after_all(steps).request is RemoveFile ==> !self.before.is_file(
                self.counterpart(path),
            ),
    {
        self.lemma_first();
        self.lemma_steps(self.first(), steps);
        let end = self.first().after_all(steps);
        let state = end.state;
        self.lemma_maps(state);
        match state.phase {
            Phase::Create => {
                self.frame.lemma_there_and_back(state.current.path);
            },
            Phase::Prune => {
                let home = self.placed(state.current.path);
                assert(child_of(state.extraneous[state.cursor as int], home));
                self.frame.lemma_there_and_back(state.current.path);
                self.frame.lemma_child_counterpart(path, home);
            },
            Phase::FileCopy | Phase::FileStamp => {
                let file = state.file();
                assert(state.current.file_paths.contains(file));
                self.frame.lemma_child_placed(file, state.current.path);
                self.frame.lemma_there_and_back(file);
            },
            _ => {},
        }
        self.frame.lemma_mirror_below_destination(path);
        if self.frame.in_source(path) {
            self.frame.lemma_apart(path, path);
        }
    }

    /// No rollback: an exchange in which the file system fails leaves it as
    /// it was, with all that the run has done before, and ends the run.
    pub proof fn law_failure_keeps_what_was_done(moment: Moment, step: Step)
        requires
            moment.admits(step),
            step.response is Failed,
        ensures
            moment.after(step).world == moment.world,
            moment.after(step).request is Failed,
    {
        moment.state.law_failure_ends_run();
    }
}

} // verus!
