//! The executable mirror engine.

use crate::entries::DirectoryEntries;
use crate::model::{EngineView, Phase};
use crate::path::{char_len, common_path, common_prefix, join, join_paths, strip, tail_from};
use crate::protocol::{MirrorError, Request, Response};
use std::collections::VecDeque;
use vstd::prelude::*;

verus! {

/// Tells whether `path` is one of `paths`.
pub fn contains_path(paths: &Vec<String>, path: &String) -> (found: bool)
    ensures
        found == paths.deep_view().contains(path@),
{
    let mut index: usize = 0;
    while index < paths.len()
        invariant
            index <= paths.len(),
            forall|i: int| 0 <= i < index ==> paths.deep_view()[i] != path@,
        decreases paths.len() - index,
    {
        if paths[index] == *path {
            assert(paths.deep_view()[index as int] == path@);
            return true;
        }
        index = index + 1;
    }
    false
}

/// Mirrors a source tree into a destination tree, one request at a time.
///
/// `execute` begins a run and hands out its first request. Each request is
/// carried out on the file system by the caller, who passes what came of it
/// to `resume` and gets the next request, until the request is final.
pub struct BackUpExecuter {
    common_path: String,
    destination_path: String,
    pending: VecDeque<DirectoryEntries>,
    current: DirectoryEntries,
    extraneous: Vec<String>,
    cursor: usize,
    phase: Phase,
    finished: Ghost<Seq<Seq<char>>>,
}

impl View for BackUpExecuter {
    type V = EngineView;

    closed spec fn view(&self) -> EngineView {
        EngineView {
            common_path: self.common_path@,
            destination_path: self.destination_path@,
            pending: self.pending.deep_view(),
            current: self.current@,
            extraneous: self.extraneous.deep_view(),
            cursor: self.cursor as nat,
            phase: self.phase,
            finished: self.finished@,
        }
    }
}

impl BackUpExecuter {
    #[verifier::type_invariant]
    spec fn well_formed(&self) -> bool {
        self@.consistent()
    }

    /// An engine that has not run yet.
    pub fn new() -> (executer: Self)
        ensures
            executer@ == EngineView::idle(),
    {
        let executer = BackUpExecuter {
            common_path: String::new(),
            destination_path: String::new(),
            pending: VecDeque::new(),
            current: DirectoryEntries::empty(String::new()),
            extraneous: Vec::new(),
            cursor: 0,
            phase: Phase::Idle,
            finished: Ghost(Seq::empty()),
        };
        assert(executer@ =~~= EngineView::idle());
        executer
    }

    /// Tells whether a run is under way, so that `resume` expects a
    /// response.
    pub fn is_running(&self) -> (running: bool)
        ensures
            running == (self@.phase != Phase::Idle),
    {
        match self.phase {
            Phase::Idle => false,
            _ => true,
        }
    }

    /// Computes the frame that the two roots share and keeps it. A run that
    /// was under way is abandoned.
    pub fn initialize(&mut self, source_path: &String, destination_path: &String)
        ensures
            final(self)@ == (EngineView {
                common_path: common_path(source_path@, destination_path@),
                phase: Phase::Idle,
                ..old(self)@
            }),
    {
        self.phase = Phase::Idle;
        self.common_path = common_prefix(source_path, destination_path);
    }

    /// Places a logical path under the frame.
    pub fn get_common_added_path(&self, path: &String) -> (added: String)
        ensures
            added@ == join(self@.common_path, path@),
    {
        join_paths(&self.common_path, path)
    }

    /// The logical path of `path`: `path` without the frame and without the
    /// separator that follows it.
    pub fn get_common_removed_path(&self, path: &String) -> (removed: String)
        requires
            self@.in_frame(path@),
        ensures
            removed@ == strip(path@, self@.common_path.len()),
    {
        let frame_len: usize = char_len(&self.common_path);
        let path_len: usize = char_len(path);
        assert(frame_len < path_len);
        tail_from(path, frame_len + 1)
    }

    /// Where a path of the source tree belongs in the destination tree.
    pub fn destination_of(&self, path: &String) -> (placed: String)
        requires
            self@.in_frame(path@),
        ensures
            placed@ == self@.placed(path@),
    {
        let logical = self.get_common_removed_path(path);
        join_paths(&self.destination_path, &logical)
    }

    /// The path in the source tree that a path of the destination tree
    /// stands for.
    pub fn source_of(&self, path: &String) -> (counterpart: String)
        requires
            self@.below_destination(path@),
        ensures
            counterpart@ == self@.counterpart(path@),
    {
        let root_len: usize = char_len(&self.destination_path);
        let path_len: usize = char_len(path);
        assert(root_len < path_len);
        let logical = tail_from(path, root_len + 1);
        self.get_common_added_path(&logical)
    }

    /// Picks from the files of a destination directory those that stand for
    /// no file of the current directory. `None` where one of the files is
    /// too short to lie below the destination root.
    pub fn find_extraneous(&self, files: &Vec<String>) -> (found: Option<Vec<String>>)
        ensures
            found is Some <==> self@.all_below_destination(files.deep_view()),
            found matches Some(list) ==> list.deep_view() == self@.extraneous_among(
                files.deep_view(),
            ),
    {
        let root_len: usize = char_len(&self.destination_path);
        let mut list: Vec<String> = Vec::new();
        let ghost all = files.deep_view();
        let mut index: usize = 0;
        assert(list.deep_view() =~= self@.extraneous_among(all.take(0))) by {
            reveal(Seq::filter);
        }
        while index < files.len()
            invariant
                index <= files.len(),
                all == files.deep_view(),
                root_len == self@.destination_path.len(),
                self@.all_below_destination(all.take(index as int)),
                list.deep_view() == self@.extraneous_among(all.take(index as int)),
            decreases files.len() - index,
        {
            let file = &files[index];
            assert(all[index as int] == file@);
            if char_len(file) <= root_len {
                return None;
            }
            let counterpart = self.source_of(file);
            let kept = contains_path(&self.current.file_paths, &counterpart);
            proof {
                self@.lemma_extraneous_among_step(all, index as int);
            }
            let ghost before = list.deep_view();
            if !kept {
                list.push(file.clone());
                assert(list.deep_view() =~= before.push(file@));
            }
            assert forall|i: int| 0 <= i < index + 1 implies self@.below_destination(
                #[trigger] all.take(index + 1)[i],
            ) by {
                if i < index {
                    assert(all.take(index as int)[i] == all[i]);
                }
            }
            index = index + 1;
        }
        assert(all.take(index as int) =~= all);
        Some(list)
    }

    /// Begins a run that mirrors `source_path` into `destination_path`, and
    /// hands out its first request. A run that was under way is abandoned.
    pub fn execute(&mut self, source_path: &String, destination_path: &String) -> (request:
        Request)
        ensures
            final(self)@ == EngineView::start(source_path@, destination_path@).0,
            request@ == EngineView::start(source_path@, destination_path@).1,
    {
        self.initialize(source_path, destination_path);
        self.destination_path = destination_path.clone();
        self.pending = VecDeque::new();
        self.current = DirectoryEntries::empty(source_path.clone());
        self.extraneous = Vec::new();
        self.cursor = 0;
        self.finished = Ghost(Seq::empty());
        self.phase = Phase::Root;
        assert(self@ =~~= EngineView::start(source_path@, destination_path@).0);
        Request::ScanDirectory { path: source_path.clone() }
    }

    /// Takes what came of the pending request and hands out the next one.
    pub fn resume(&mut self, response: Response) -> (request: Request)
        ensures
            final(self)@ == old(self)@.next(response@).0,
            request@ == old(self)@.next(response@).1,
    {
        proof {
            use_type_invariant(&*self);
        }
        match self.phase {
            Phase::Idle => Request::Failed(MirrorError::NotRunning),
            Phase::Root | Phase::Children => self.scan(response),
            Phase::Directory | Phase::Create | Phase::Listing | Phase::Prune => self.reconcile(
                response,
            ),
            Phase::FileProbe | Phase::FileTimes | Phase::FileCopy | Phase::FileStamp => self.copy(
                response,
            ),
        }
    }

    /// The traversal: takes the listing of the source root or of a
    /// subdirectory.
    fn scan(&mut self, response: Response) -> (request: Request)
        requires
            old(self)@.phase == Phase::Root || old(self)@.phase == Phase::Children,
        ensures
            final(self)@ == old(self)@.next(response@).0,
            request@ == old(self)@.next(response@).1,
    {
        proof {
            use_type_invariant(&*self);
        }
        match response {
            Response::Entries(entries) => {
                match self.phase {
                    Phase::Root => {
                        self.current = entries;
                        self.scan_children(0)
                    },
                    _ => {
                        let mut pending = self.take_pending();
                        let ghost before = pending.deep_view();
                        pending.push_back(entries);
                        assert(pending.deep_view() =~= before.push(entries@));
                        self.pending = pending;
                        assert(self.cursor < self.current.directory_paths.len());
                        let index: usize = self.cursor + 1;
                        self.scan_children(index)
                    },
                }
            },
            Response::Failed => self.stop(MirrorError::ScanFailed),
            _ => self.stop(MirrorError::UnexpectedResponse),
        }
    }

    /// The reconciliation of one destination directory: creates it where it
    /// is missing, and deletes its extraneous files where it exists.
    fn reconcile(&mut self, response: Response) -> (request: Request)
        requires
            old(self)@.phase == Phase::Directory || old(self)@.phase == Phase::Create || old(
                self,
            )@.phase == Phase::Listing || old(self)@.phase == Phase::Prune,
        ensures
            final(self)@ == old(self)@.next(response@).0,
            request@ == old(self)@.next(response@).1,
    {
        proof {
            use_type_invariant(&*self);
        }
        match (self.phase, response) {
            (Phase::Directory, Response::Exists(present)) => {
                let path = self.destination_of(&self.current.path);
                if present {
                    self.phase = Phase::Listing;
                    Request::ScanDirectory { path }
                } else {
                    self.phase = Phase::Create;
                    Request::CreateDirectories { path }
                }
            },
            (Phase::Create, Response::Done) => self.sync_files(0),
            (Phase::Create, Response::Failed) => self.stop(MirrorError::CreateFailed),
            (Phase::Listing, Response::Entries(entries)) => {
                match self.find_extraneous(&entries.file_paths) {
                    Some(list) => {
                        self.extraneous = list;
                        self.prune(0)
                    },
                    None => self.stop(MirrorError::PathOutsideFrame),
                }
            },
            (Phase::Listing, Response::Failed) => self.stop(MirrorError::ScanFailed),
            (Phase::Prune, Response::Done) => {
                assert(self.cursor < self.extraneous.len());
                let index: usize = self.cursor + 1;
                self.prune(index)
            },
            (Phase::Prune, Response::Failed) => self.stop(MirrorError::RemoveFailed),
            _ => self.stop(MirrorError::UnexpectedResponse),
        }
    }

    /// The synchronisation of one file: copies it where the destination
    /// lacks it or holds an older one, and gives the copy the modification
    /// time of its source.
    fn copy(&mut self, response: Response) -> (request: Request)
        requires
            old(self)@.phase == Phase::FileProbe || old(self)@.phase == Phase::FileTimes || old(
                self,
            )@.phase == Phase::FileCopy || old(self)@.phase == Phase::FileStamp,
        ensures
            final(self)@ == old(self)@.next(response@).0,
            request@ == old(self)@.next(response@).1,
    {
        proof {
            use_type_invariant(&*self);
        }
        assert(self.cursor < self.current.file_paths.len());
        let next: usize = self.cursor + 1;
        match (self.phase, response) {
            (Phase::FileProbe, Response::Exists(present)) => {
                if present {
                    let source = self.current.file_paths[self.cursor].clone();
                    let destination = self.destination_of(&source);
                    self.phase = Phase::FileTimes;
                    Request::ReadTimes { source, destination }
                } else {
                    self.copy_file()
                }
            },
            (Phase::FileTimes, Response::Times { source, destination }) => {
                if source.is_after(&destination) {
                    self.copy_file()
                } else {
                    self.sync_files(next)
                }
            },
            (Phase::FileTimes, Response::Failed) => self.stop(MirrorError::MetadataFailed),
            (Phase::FileCopy, Response::Done) => {
                let source = self.current.file_paths[self.cursor].clone();
                let destination = self.destination_of(&source);
                self.phase = Phase::FileStamp;
                Request::SetModifiedTime { source, destination }
            },
            (Phase::FileCopy, Response::Failed) => self.stop(MirrorError::CopyFailed),
            (Phase::FileStamp, Response::Done) => self.sync_files(next),
            (Phase::FileStamp, Response::Failed) => self.stop(MirrorError::MetadataFailed),
            _ => self.stop(MirrorError::UnexpectedResponse),
        }
    }

    /// Gives the run up.
    fn stop(&mut self, error: MirrorError) -> (request: Request)
        ensures
            final(self)@ == old(self)@.stop(error).0,
            request@ == old(self)@.stop(error).1,
    {
        self.phase = Phase::Idle;
        Request::Failed(error)
    }

    /// Asks for the copy of the file at the cursor.
    fn copy_file(&mut self) -> (request: Request)
        requires
            old(self)@.phase == Phase::FileProbe || old(self)@.phase == Phase::FileTimes,
        ensures
            final(self)@ == old(self)@.copy_file().0,
            request@ == old(self)@.copy_file().1,
    {
        proof {
            use_type_invariant(&*self);
        }
        let source = self.current.file_paths[self.cursor].clone();
        let destination = self.destination_of(&source);
        self.phase = Phase::FileCopy;
        Request::CopyFile { source, destination }
    }

    /// Asks for the listing of the subdirectory at `index`, or goes on to
    /// the destination directory after the last.
    fn scan_children(&mut self, index: usize) -> (request: Request)
        ensures
            final(self)@ == old(self)@.scan_children(index as nat).0,
            request@ == old(self)@.scan_children(index as nat).1,
    {
        if index < self.current.directory_paths.len() {
            // The cursor moves while no phase is bound to it.
            self.phase = Phase::Idle;
            self.cursor = index;
            self.phase = Phase::Children;
            Request::ScanDirectory { path: self.current.directory_paths[index].clone() }
        } else {
            self.reconcile_directory()
        }
    }

    /// Asks whether the destination of the current directory exists.
    fn reconcile_directory(&mut self) -> (request: Request)
        ensures
            final(self)@ == old(self)@.reconcile_directory().0,
            request@ == old(self)@.reconcile_directory().1,
    {
        if char_len(&self.current.path) > char_len(&self.common_path) {
            let path = self.destination_of(&self.current.path);
            self.phase = Phase::Directory;
            Request::Exists { path }
        } else {
            self.stop(MirrorError::PathOutsideFrame)
        }
    }

    /// Asks for the removal of the extraneous file at `index`, or goes on to
    /// the files after the last.
    fn prune(&mut self, index: usize) -> (request: Request)
        ensures
            final(self)@ == old(self)@.prune(index as nat).0,
            request@ == old(self)@.prune(index as nat).1,
    {
        if index < self.extraneous.len() {
            self.phase = Phase::Idle;
            self.cursor = index;
            self.phase = Phase::Prune;
            Request::RemoveFile { path: self.extraneous[index].clone() }
        } else {
            self.sync_files(0)
        }
    }

    /// Asks whether the destination of the file at `index` exists, or ends
    /// the turn of the current directory after the last file.
    fn sync_files(&mut self, index: usize) -> (request: Request)
        ensures
            final(self)@ == old(self)@.sync_files(index as nat).0,
            request@ == old(self)@.sync_files(index as nat).1,
    {
        if index < self.current.file_paths.len() {
            if char_len(&self.current.file_paths[index]) > char_len(&self.common_path) {
                let path = self.destination_of(&self.current.file_paths[index]);
                self.phase = Phase::Idle;
                self.cursor = index;
                self.phase = Phase::FileProbe;
                Request::Exists { path }
            } else {
                self.stop(MirrorError::PathOutsideFrame)
            }
        } else {
            self.next_level()
        }
    }

    /// Ends the turn of the current directory and begins that of the
    /// directory that has waited longest, or ends the run where none waits.
    fn next_level(&mut self) -> (request: Request)
        ensures
            final(self)@ == old(self)@.next_level().0,
            request@ == old(self)@.next_level().1,
    {
        self.phase = Phase::Idle;
        self.finished = Ghost(self.finished@.push(self.current@.path));
        let mut pending = self.take_pending();
        let ghost before = pending.deep_view();
        match pending.pop_front() {
            Some(entries) => {
                assert(pending.deep_view() =~= before.skip(1));
                assert(entries@ == before[0]);
                self.pending = pending;
                self.current = entries;
                self.scan_children(0)
            },
            None => {
                self.pending = pending;
                Request::Finished
            },
        }
    }

    /// Takes the queue out of the engine and leaves an empty one.
    fn take_pending(&mut self) -> (pending: VecDeque<DirectoryEntries>)
        ensures
            pending == old(self).pending,
            final(self)@ == (EngineView { pending: seq![], ..old(self)@ }),
    {
        proof {
            use_type_invariant(&*self);
        }
        let mut pending = VecDeque::new();
        std::mem::swap(&mut pending, &mut self.pending);
        assert(self@ =~~= (EngineView { pending: seq![], ..old(self)@ }));
        pending
    }
}

} // verus!
