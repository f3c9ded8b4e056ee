//! The snapshot of one directory: what a scan lists, split into files and
//! subdirectories.

use vstd::prelude::*;

verus! {

/// The immediate children of one directory at the time it was scanned.
#[derive(Clone, Debug, PartialEq, Eq)]
pub struct DirectoryEntries {
    /// The directory that was scanned.
    pub path: String,
    /// Its children that are files.
    pub file_paths: Vec<String>,
    /// Its children that are directories.
    pub directory_paths: Vec<String>,
}

/// A `DirectoryEntries` as sequences of characters.
#[verifier::ext_equal]
pub struct EntriesView {
    pub path: Seq<char>,
    pub file_paths: Seq<Seq<char>>,
    pub directory_paths: Seq<Seq<char>>,
}

impl View for DirectoryEntries {
    type V = EntriesView;

    open spec fn view(&self) -> EntriesView {
        EntriesView {
            path: self.path@,
            file_paths: self.file_paths.deep_view(),
            directory_paths: self.directory_paths.deep_view(),
        }
    }
}

impl DeepView for DirectoryEntries {
    type V = EntriesView;

    open spec fn deep_view(&self) -> EntriesView {
        self@
    }
}

/// One child of a directory as the file system reports it.
#[derive(Clone, Debug, PartialEq, Eq)]
pub struct ListedEntry {
    /// The child's path, or `None` where it cannot be written as text.
    pub path: Option<String>,
    /// Whether the path leads to a file.
    pub is_file: bool,
    /// Whether the path leads to a directory.
    pub is_dir: bool,
}

/// A `ListedEntry` as a sequence of characters and two flags.
pub struct ListedView {
    pub path: Option<Seq<char>>,
    pub is_file: bool,
    pub is_dir: bool,
}

impl ListedView {
    /// The path, where the entry has one and is a file.
    pub open spec fn as_file(self) -> Option<Seq<char>> {
        if self.is_file {
            self.path
        } else {
            None
        }
    }

    /// The path, where the entry has one and is a directory.
    pub open spec fn as_directory(self) -> Option<Seq<char>> {
        if self.is_dir {
            self.path
        } else {
            None
        }
    }
}

impl View for ListedEntry {
    type V = ListedView;

    open spec fn view(&self) -> ListedView {
        ListedView {
            path: match self.path {
                Some(text) => Some(text@),
                None => None,
            },
            is_file: self.is_file,
            is_dir: self.is_dir,
        }
    }
}

impl DeepView for ListedEntry {
    type V = ListedView;

    open spec fn deep_view(&self) -> ListedView {
        self@
    }
}

/// The paths of the files in a listing, in the listing's order. An entry
/// without a path is left out.
pub open spec fn files_among(listing: Seq<ListedView>) -> Seq<Seq<char>> {
    listing.filter_map(|entry: ListedView| entry.as_file())
}

/// The paths of the directories in a listing, in the listing's order. An
/// entry without a path is left out.
pub open spec fn directories_among(listing: Seq<ListedView>) -> Seq<Seq<char>> {
    listing.filter_map(|entry: ListedView| entry.as_directory())
}

/// The snapshot of the directory `path` whose children are `listing`.
pub open spec fn entries_of(path: Seq<char>, listing: Seq<ListedView>) -> EntriesView {
    EntriesView {
        path,
        file_paths: files_among(listing),
        directory_paths: directories_among(listing),
    }
}

impl DirectoryEntries {
    /// A snapshot of `path` with no children.
    pub fn empty(path: String) -> (entries: DirectoryEntries)
        ensures
            entries@ == (EntriesView { path: path@, file_paths: seq![], directory_paths: seq![] }),
    {
        let entries = DirectoryEntries { path, file_paths: Vec::new(), directory_paths: Vec::new() };
        assert(entries@ =~~= (EntriesView {
            path: path@,
            file_paths: seq![],
            directory_paths: seq![],
        }));
        entries
    }
}

/// Builds the snapshot of the directory `path` from the children that the
/// file system listed. A child goes to the files if it is a file and to the
/// directories if it is a directory; one whose path is not text is skipped.
pub fn get_directory_entries(path: &String, listing: &Vec<ListedEntry>) -> (entries:
    DirectoryEntries)
    ensures
        entries@ == entries_of(path@, listing.deep_view()),
{
    let mut file_paths: Vec<String> = Vec::new();
    let mut directory_paths: Vec<String> = Vec::new();
    let ghost all = listing.deep_view();
    let mut index: usize = 0;
    while index < listing.len()
        invariant
            index <= listing.len(),
            all == listing.deep_view(),
            file_paths.deep_view() == files_among(all.take(index as int)),
            directory_paths.deep_view() == directories_among(all.take(index as int)),
        decreases listing.len() - index,
    {
        let entry = &listing[index];
        proof {
            all.lemma_filter_map_take_succ(|entry: ListedView| entry.as_file(), index as int);
            all.lemma_filter_map_take_succ(|entry: ListedView| entry.as_directory(), index as int);
            assert(all[index as int] == entry@);
        }
        let ghost files_before = file_paths.deep_view();
        let ghost directories_before = directory_paths.deep_view();
        match &entry.path {
            Some(text) => {
                if entry.is_file {
                    file_paths.push(text.clone());
                    assert(file_paths.deep_view() =~= files_before + seq![text@]);
                }
                if entry.is_dir {
                    directory_paths.push(text.clone());
                    assert(directory_paths.deep_view() =~= directories_before + seq![text@]);
                }
            },
            None => {},
        }
        assert(file_paths.deep_view() =~= files_among(all.take(index + 1)));
        assert(directory_paths.deep_view() =~= directories_among(all.take(index + 1)));
        index = index + 1;
    }
    assert(all.take(index as int) =~= all);
    let entries = DirectoryEntries { path: path.clone(), file_paths, directory_paths };
    assert(entries@ =~~= entries_of(path@, listing.deep_view()));
    entries
}

} // verus!
