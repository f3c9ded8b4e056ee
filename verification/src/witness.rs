//! The laws speak of something: a small file system and a run on it that
//! the model admits and that ends well.
//!
//! The file system holds the source root `/d/s`, an empty directory, and
//! the directories above it. The run mirrors it into `/d/t`: it lists the
//! source root, finds that `/d/t/s` does not exist, creates it, and has
//! finished.

use crate::entries::EntriesView;
use crate::frame::{child_of, Frame};
use crate::path::{common_path, join, lemma_shared_prefix_len_is, strip};
use crate::protocol::{RequestView, ResponseView};
use crate::safety::Run;
use crate::world::{Moment, Node, Step, World};
use vstd::prelude::*;

verus! {

/// The source root `/d/s`.
pub open spec fn source() -> Seq<char> {
    seq!['/', 'd', '/', 's']
}

/// The destination root `/d/t`.
pub open spec fn destination() -> Seq<char> {
    seq!['/', 'd', '/', 't']
}

/// The frame `/d`.
pub open spec fn common() -> Seq<char> {
    seq!['/', 'd']
}

/// The mirror `/d/t/s` of the source root.
pub open spec fn mirror() -> Seq<char> {
    seq!['/', 'd', '/', 't', '/', 's']
}

/// The file system before the run.
pub open spec fn before() -> World {
    World {
        nodes: Map::empty().insert(seq![], Node::Directory).insert(
            common(),
            Node::Directory,
        ).insert(source(), Node::Directory),
    }
}

/// The run.
pub open spec fn run() -> Run {
    Run { frame: Frame { source: source(), destination: destination() }, before: before() }
}

/// The frame of `/d/s` and `/d/t` is `/d`, and it is well formed.
pub proof fn lemma_frame()
    ensures
        run().frame.well_formed(),
        common_path(source(), destination()) == common(),
{
    lemma_shared_prefix_len_is(source(), destination(), 3);
    assert(common_path(source(), destination()) =~= common());
}

/// The parent of everything in the file system is a directory.
pub proof fn lemma_tree()
    ensures
        before().is_tree(),
{
    assert forall|path: Seq<char>, parent: Seq<char>|
        before().holds(path) && #[trigger] child_of(path, parent) implies before().is_directory(
        parent,
    ) by {
        if path == common() {
            assert(parent =~= Seq::<char>::empty());
        } else if path == source() {
            if parent.len() == 2 {
                assert(parent =~= common());
            } else {
                assert(path[2] == '/');
            }
        }
    }
}

/// There is a run on this file system that ends well.
pub proof fn some_run_ends_well()
    ensures
        run().frame.well_formed(),
        run().before.is_tree(),
        exists|steps: Seq<Step>| run().ends_well(steps),
{
    lemma_frame();
    lemma_tree();
    let listing = EntriesView { path: source(), file_paths: seq![], directory_paths: seq![] };
    assert(before().lists(listing)) by {
        assert forall|path: Seq<char>| child_of(path, source()) implies !before().holds(path) by {
            assert(path.len() > 5);
        }
    }
    let listed = Step { response: ResponseView::Entries(listing), world: before() };
    let absent = Step { response: ResponseView::Exists(false), world: before() };
    let created = Step { response: ResponseView::Done, world: before().with_directories(mirror()) };
    let steps = seq![listed, absent, created];
    let first = run().first();
    assert(first.admits(listed));
    let second = first.after(listed);
    assert(strip(source(), 2) =~= seq!['s']);
    assert(join(destination(), seq!['s']) =~= mirror());
    assert(second.request == RequestView::Exists { path: mirror() });
    assert(!before().holds(mirror())) by {
        assert(mirror().len() == 6);
    }
    assert(second.admits(absent));
    let third = second.after(absent);
    assert(third.admits(created));
    let last = third.after(created);
    assert(last.request is Finished);
    assert(steps.skip(1) =~= seq![absent, created]);
    assert(steps.skip(1).skip(1) =~= seq![created]);
    assert(steps.skip(1).skip(1).skip(1) =~= Seq::<Step>::empty());
    reveal_with_fuel(Moment::admits_all, 5);
    reveal_with_fuel(Moment::after_all, 5);
    assert(first.admits_all(steps));
    assert(first.after_all(steps) == last);
    assert(run().ends_well(steps));
}

} // verus!
