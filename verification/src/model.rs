//! The mirror engine as a state machine over sequences of characters.
//!
//! One run walks the source tree breadth first. For each directory it asks
//! for the listing of every subdirectory and queues it, makes sure that the
//! destination directory exists, deletes from an existing destination
//! directory the files that the source no longer has, and then brings each
//! file of the source over if the destination lacks it or holds an older
//! one. `EngineView::next` is the whole of it: from a state and a response
//! to the next state and the next request.

use crate::entries::EntriesView;
use crate::path::{common_path, join, strip};
use crate::protocol::{MirrorError, RequestView, ResponseView};
use vstd::prelude::*;

verus! {

/// What the engine is waiting for.
#[derive(Clone, Copy, Debug, PartialEq, Eq, Structural)]
pub enum Phase {
    /// Nothing: no run is under way.
    Idle,
    /// The listing of the source root.
    Root,
    /// The listing of the subdirectory at the cursor.
    Children,
    /// Whether the destination directory exists.
    Directory,
    /// The creation of the destination directory.
    Create,
    /// The listing of the destination directory.
    Listing,
    /// The removal of the extraneous file at the cursor.
    Prune,
    /// Whether the destination of the file at the cursor exists.
    FileProbe,
    /// The modification times of the file at the cursor and of its destination.
    FileTimes,
    /// The copy of the file at the cursor.
    FileCopy,
    /// The modification time of the copy of the file at the cursor.
    FileStamp,
}

/// The state of the engine.
#[verifier::ext_equal]
pub struct EngineView {
    /// The frame that the two roots share.
    pub common_path: Seq<char>,
    /// The destination root.
    pub destination_path: Seq<char>,
    /// The listed directories that wait for their turn, first come first.
    pub pending: Seq<EntriesView>,
    /// The directory whose turn it is.
    pub current: EntriesView,
    /// The files to delete from the destination of the current directory.
    pub extraneous: Seq<Seq<char>>,
    /// How far the current phase has come in its list.
    pub cursor: nat,
    /// What the engine is waiting for.
    pub phase: Phase,
    /// The directories whose turn is over, in the order of their turns.
    pub finished: Seq<Seq<char>>,
}

impl EngineView {
    /// The state before any run.
    pub open spec fn idle() -> EngineView {
        EngineView {
            common_path: seq![],
            destination_path: seq![],
            pending: seq![],
            current: EntriesView { path: seq![], file_paths: seq![], directory_paths: seq![] },
            extraneous: seq![],
            cursor: 0,
            phase: Phase::Idle,
            finished: seq![],
        }
    }

    /// The first state and the first request of a run from `source` to
    /// `destination`.
    pub open spec fn start(source: Seq<char>, destination: Seq<char>) -> (EngineView, RequestView) {
        (
            EngineView {
                common_path: common_path(source, destination),
                destination_path: destination,
                pending: seq![],
                current: EntriesView { path: source, file_paths: seq![], directory_paths: seq![] },
                extraneous: seq![],
                cursor: 0,
                phase: Phase::Root,
                finished: seq![],
            },
            RequestView::ScanDirectory { path: source },
        )
    }

    /// Whether `path` is long enough to have a logical path in the frame.
    pub open spec fn in_frame(self, path: Seq<char>) -> bool {
        path.len() > self.common_path.len()
    }

    /// Whether `path` is long enough to lie below the destination root.
    pub open spec fn below_destination(self, path: Seq<char>) -> bool {
        path.len() > self.destination_path.len()
    }

    /// Whether every one of `paths` is long enough to lie below the
    /// destination root.
    pub open spec fn all_below_destination(self, paths: Seq<Seq<char>>) -> bool {
        forall|i: int| 0 <= i < paths.len() ==> self.below_destination(#[trigger] paths[i])
    }

    /// Where a path of the source tree belongs in the destination tree: its
    /// logical path, placed under the destination root.
    pub open spec fn placed(self, path: Seq<char>) -> Seq<char> {
        join(self.destination_path, strip(path, self.common_path.len()))
    }

    /// The path in the source tree that a path of the destination tree
    /// stands for: what follows the destination root, placed under the
    /// frame.
    pub open spec fn counterpart(self, path: Seq<char>) -> Seq<char> {
        join(self.common_path, strip(path, self.destination_path.len()))
    }

    /// Whether a file of the destination stands for no file of the current
    /// directory.
    pub open spec fn is_extraneous(self, path: Seq<char>) -> bool {
        !self.current.file_paths.contains(self.counterpart(path))
    }

    /// Those of `files` that stand for no file of the current directory, in
    /// their order.
    pub open spec fn extraneous_among(self, files: Seq<Seq<char>>) -> Seq<Seq<char>> {
        files.filter(|path: Seq<char>| self.is_extraneous(path))
    }

    /// `extraneous_among` goes through its files one by one.
    pub proof fn lemma_extraneous_among_step(self, files: Seq<Seq<char>>, index: int)
        requires
            0 <= index < files.len(),
        ensures
            self.extraneous_among(files.take(index + 1)) == if self.is_extraneous(files[index]) {
                self.extraneous_among(files.take(index)).push(files[index])
            } else {
                self.extraneous_among(files.take(index))
            },
    {
        reveal(Seq::filter);
        assert(files.take(index + 1).drop_last() =~= files.take(index));
    }

    /// `extraneous_among` picks extraneous files from `files`, and every one
    /// of them.
    pub proof fn lemma_extraneous_among(self, files: Seq<Seq<char>>)
        ensures
            forall|j: int|
                0 <= j < self.extraneous_among(files).len() ==> {
                    let path = #[trigger] self.extraneous_among(files)[j];
                    self.is_extraneous(path) && files.contains(path)
                },
            forall|i: int|
                0 <= i < files.len() && self.is_extraneous(#[trigger] files[i])
                    ==> self.extraneous_among(files).contains(files[i]),
    {
        let pred = |path: Seq<char>| self.is_extraneous(path);
        assert forall|j: int| 0 <= j < self.extraneous_among(files).len() implies {
            let path = #[trigger] self.extraneous_among(files)[j];
            self.is_extraneous(path) && files.contains(path)
        } by {
            let path = self.extraneous_among(files)[j];
            files.lemma_filter_pred(pred, j);
            assert(files.filter(pred).contains(path));
            files.lemma_filter_contains_rev(pred, path);
        }
        assert forall|i: int|
            0 <= i < files.len() && self.is_extraneous(
                #[trigger] files[i],
            ) implies self.extraneous_among(files).contains(files[i]) by {
            files.lemma_filter_contains(pred, i);
        }
    }

    /// What holds of the cursor and of the current directory in each phase.
    pub open spec fn consistent(self) -> bool {
        match self.phase {
            Phase::Idle | Phase::Root => true,
            Phase::Children => self.cursor < self.current.directory_paths.len(),
            Phase::Directory | Phase::Create | Phase::Listing => self.in_frame(self.current.path),
            Phase::Prune => self.cursor < self.extraneous.len(),
            Phase::FileProbe | Phase::FileTimes | Phase::FileCopy | Phase::FileStamp => {
                &&& self.cursor < self.current.file_paths.len()
                &&& self.in_frame(self.current.file_paths[self.cursor as int])
            },
        }
    }

    /// The run is given up.
    pub open spec fn stop(self, error: MirrorError) -> (EngineView, RequestView) {
        (EngineView { phase: Phase::Idle, ..self }, RequestView::Failed(error))
    }

    /// Lists the subdirectories of the current directory from `index` on;
    /// after the last one the destination directory is seen to.
    pub open spec fn scan_children(self, index: nat) -> (EngineView, RequestView) {
        if index < self.current.directory_paths.len() {
            (
                EngineView { phase: Phase::Children, cursor: index, ..self },
                RequestView::ScanDirectory { path: self.current.directory_paths[index as int] },
            )
        } else {
            self.reconcile_directory()
        }
    }

    /// Asks whether the destination of the current directory exists.
    pub open spec fn reconcile_directory(self) -> (EngineView, RequestView) {
        if self.in_frame(self.current.path) {
            (
                EngineView { phase: Phase::Directory, ..self },
                RequestView::Exists { path: self.placed(self.current.path) },
            )
        } else {
            self.stop(MirrorError::PathOutsideFrame)
        }
    }

    /// Deletes the extraneous files from `index` on; after the last one the
    /// files of the current directory are brought over.
    pub open spec fn prune(self, index: nat) -> (EngineView, RequestView) {
        if index < self.extraneous.len() {
            (
                EngineView { phase: Phase::Prune, cursor: index, ..self },
                RequestView::RemoveFile { path: self.extraneous[index as int] },
            )
        } else {
            self.sync_files(0)
        }
    }

    /// Brings over the files of the current directory from `index` on; after
    /// the last one the next directory has its turn.
    pub open spec fn sync_files(self, index: nat) -> (EngineView, RequestView) {
        if index < self.current.file_paths.len() {
            let file = self.current.file_paths[index as int];
            if self.in_frame(file) {
                (
                    EngineView { phase: Phase::FileProbe, cursor: index, ..self },
                    RequestView::Exists { path: self.placed(file) },
                )
            } else {
                self.stop(MirrorError::PathOutsideFrame)
            }
        } else {
            self.next_level()
        }
    }

    /// Takes the directory that has waited longest, or ends the run where
    /// none waits.
    pub open spec fn next_level(self) -> (EngineView, RequestView) {
        let finished = self.finished.push(self.current.path);
        if self.pending.len() == 0 {
            (EngineView { phase: Phase::Idle, finished, ..self }, RequestView::Finished)
        } else {
            (EngineView {
                current: self.pending[0],
                pending: self.pending.skip(1),
                finished,
                ..self
            }).scan_children(0)
        }
    }

    /// The file at the cursor.
    pub open spec fn file(self) -> Seq<char> {
        self.current.file_paths[self.cursor as int]
    }

    /// The request to copy the file at the cursor.
    pub open spec fn copy_file(self) -> (EngineView, RequestView) {
        (
            EngineView { phase: Phase::FileCopy, ..self },
            RequestView::CopyFile { source: self.file(), destination: self.placed(self.file()) },
        )
    }

    /// The request whose response the engine is waiting for.
    pub open spec fn awaited(self) -> RequestView {
        match self.phase {
            Phase::Idle => RequestView::Finished,
            Phase::Root => RequestView::ScanDirectory { path: self.current.path },
            Phase::Children => RequestView::ScanDirectory {
                path: self.current.directory_paths[self.cursor as int],
            },
            Phase::Directory => RequestView::Exists { path: self.placed(self.current.path) },
            Phase::Create => RequestView::CreateDirectories {
                path: self.placed(self.current.path),
            },
            Phase::Listing => RequestView::ScanDirectory { path: self.placed(self.current.path) },
            Phase::Prune => RequestView::RemoveFile { path: self.extraneous[self.cursor as int] },
            Phase::FileProbe => RequestView::Exists { path: self.placed(self.file()) },
            Phase::FileTimes => RequestView::ReadTimes {
                source: self.file(),
                destination: self.placed(self.file()),
            },
            Phase::FileCopy => RequestView::CopyFile {
                source: self.file(),
                destination: self.placed(self.file()),
            },
            Phase::FileStamp => RequestView::SetModifiedTime {
                source: self.file(),
                destination: self.placed(self.file()),
            },
        }
    }

    /// The state and the request that follow `response`.
    pub open spec fn next(self, response: ResponseView) -> (EngineView, RequestView) {
        match (self.phase, response) {
            (Phase::Idle, _) => (self, RequestView::Failed(MirrorError::NotRunning)),
            (Phase::Root, ResponseView::Entries(entries)) => (EngineView {
                current: entries,
                ..self
            }).scan_children(0),
            (Phase::Root, ResponseView::Failed) => self.stop(MirrorError::ScanFailed),
            (Phase::Children, ResponseView::Entries(entries)) => (EngineView {
                pending: self.pending.push(entries),
                ..self
            }).scan_children(self.cursor + 1),
            (Phase::Children, ResponseView::Failed) => self.stop(MirrorError::ScanFailed),
            (Phase::Directory, ResponseView::Exists(present)) => if present {
                (
                    EngineView { phase: Phase::Listing, ..self },
                    RequestView::ScanDirectory { path: self.placed(self.current.path) },
                )
            } else {
                (
                    EngineView { phase: Phase::Create, ..self },
                    RequestView::CreateDirectories { path: self.placed(self.current.path) },
                )
            },
            (Phase::Create, ResponseView::Done) => self.sync_files(0),
            (Phase::Create, ResponseView::Failed) => self.stop(MirrorError::CreateFailed),
            (Phase::Listing, ResponseView::Entries(entries)) => if self.all_below_destination(
                entries.file_paths,
            ) {
                (EngineView {
                    extraneous: self.extraneous_among(entries.file_paths),
                    ..self
                }).prune(0)
            } else {
                self.stop(MirrorError::PathOutsideFrame)
            },
            (Phase::Listing, ResponseView::Failed) => self.stop(MirrorError::ScanFailed),
            (Phase::Prune, ResponseView::Done) => self.prune(self.cursor + 1),
            (Phase::Prune, ResponseView::Failed) => self.stop(MirrorError::RemoveFailed),
            (Phase::FileProbe, ResponseView::Exists(present)) => if present {
                (
                    EngineView { phase: Phase::FileTimes, ..self },
                    RequestView::ReadTimes {
                        source: self.file(),
                        destination: self.placed(self.file()),
                    },
                )
            } else {
                self.copy_file()
            },
            (Phase::FileTimes, ResponseView::Times { source, destination }) => if source.instant()
                > destination.instant() {
                self.copy_file()
            } else {
                self.sync_files(self.cursor + 1)
            },
            (Phase::FileTimes, ResponseView::Failed) => self.stop(MirrorError::MetadataFailed),
            (Phase::FileCopy, ResponseView::Done) => (
                EngineView { phase: Phase::FileStamp, ..self },
                RequestView::SetModifiedTime {
                    source: self.file(),
                    destination: self.placed(self.file()),
                },
            ),
            (Phase::FileCopy, ResponseView::Failed) => self.stop(MirrorError::CopyFailed),
            (Phase::FileStamp, ResponseView::Done) => self.sync_files(self.cursor + 1),
            (Phase::FileStamp, ResponseView::Failed) => self.stop(MirrorError::MetadataFailed),
            _ => self.stop(MirrorError::UnexpectedResponse),
        }
    }

    /// A run begins in a consistent state.
    pub proof fn law_start_consistent(source: Seq<char>, destination: Seq<char>)
        ensures
            Self::start(source, destination).0.consistent(),
            Self::start(source, destination).1 == Self::start(source, destination).0.awaited(),
    {
    }

    /// A response leads from a consistent state to a consistent state, and
    /// unless the run ends, the request handed out is the one that the new
    /// state waits for.
    pub proof fn law_next_consistent(self, response: ResponseView)
        requires
            self.consistent(),
        ensures
            self.next(response).0.consistent(),
            self.next(response).0.phase != Phase::Idle ==> self.next(response).1 == self.next(
                response,
            ).0.awaited(),
            self.next(response).0.phase == Phase::Idle ==> self.next(response).1.is_final(),
    {
    }

    /// A failure ends the run: whatever the engine waits for, the response
    /// that the file system failed leads to no further request.
    pub proof fn law_failure_ends_run(self)
        ensures
            self.next(ResponseView::Failed).1 is Failed,
            self.next(ResponseView::Failed).0.phase == Phase::Idle,
    {
    }
}

} // verus!
