//! How a change of the file system bears on what `Run::holds` states: the
//! creation of a destination directory, and a change at one path of the
//! mirror tree.

use crate::frame::{child_of, descends_from, lemma_one_parent};
use crate::model::EngineView;
use crate::safety::Run;
use crate::world::World;
use vstd::prelude::*;

verus! {

impl Run {
    /// Whether `after` is `world` but for what is at `target`.
    pub open spec fn same_but(world: World, after: World, target: Seq<char>) -> bool {
        forall|path: Seq<char>|
            path != target ==> #[trigger] after.holds(path) == world.holds(path) && (world.holds(
                path,
            ) ==> after.nodes[path] == world.nodes[path])
    }

    /// Whether `file` is as settled and as untouched in `after` as in
    /// `world`.
    pub open spec fn file_unchanged(self, world: World, after: World, file: Seq<char>) -> bool {
        &&& self.settled(after, file) == self.settled(world, file)
        &&& self.untouched(after, file) == self.untouched(world, file)
    }

    /// The creation of the destination of the current directory, which did
    /// not exist: the directory is there and holds no file, and all else is
    /// as it was.
    pub proof fn lemma_created(self, state: EngineView, world: World, after: World)
        requires
            self.frame.well_formed(),
            self.listed(state, world),
            self.files_in_order(world, None),
            !world.holds(self.placed(state.current.path)),
            forall|way: Seq<char>| #[trigger]
                World::on_the_way(way, self.placed(state.current.path)) ==> !world.is_file(way),
            after == world.with_directories(self.placed(state.current.path)),
        ensures
            self.listed(state, after),
            self.files_in_order(after, None),
            after.is_directory(self.placed(state.current.path)),
            self.clean(after, state.current.path),
    {
        let target = self.placed(state.current.path);
        self.frame.lemma_there_and_back(state.current.path);
        self.frame.lemma_mirror_below_destination(target);
        assert(World::on_the_way(target, target));
        assert forall|path: Seq<char>| self.frame.in_source(path) implies #[trigger] self.same_at(
            after,
            path,
        ) by {
            assert(self.same_at(world, path));
            if World::on_the_way(path, target) {
                self.frame.lemma_apart(path, target);
            }
        }
        assert forall|path: Seq<char>, parent: Seq<char>|
            after.holds(path) && #[trigger] child_of(path, parent) implies after.is_directory(
            parent,
        ) by {
            if !world.holds(path) {
                assert(World::on_the_way(path, target));
                assert(descends_from(target, parent)) by {
                    assert(target[parent.len() as int] == path[parent.len() as int]);
                    assert forall|i: int| 0 <= i < parent.len() implies #[trigger] target[i]
                        == parent[i] by {
                        assert(path[i] == parent[i]);
                        assert(target[i] == path[i]);
                    }
                }
                assert(World::on_the_way(parent, target));
            }
        }
        assert forall|k: int| 0 <= k < state.finished.len() implies {
            let directory = #[trigger] state.finished[k];
            &&& self.before.is_directory(directory)
            &&& self.frame.in_source(directory)
            &&& self.mirrored(after, directory)
            &&& self.children_seen(state, directory)
        } by {
            let directory = state.finished[k];
            assert(self.mirrored(world, directory));
            assert forall|file: Seq<char>| #[trigger]
                child_of(file, directory) && self.before.is_file(file) implies self.settled(
                after,
                file,
            ) by {
                assert(self.settled(world, file));
            }
            assert forall|path: Seq<char>| #[trigger]
                child_of(path, self.placed(directory)) && after.is_file(
                    path,
                ) implies self.has_origin(path) by {
                assert(world.is_file(path));
            }
        }
        assert forall|file: Seq<char>| #[trigger] self.file_in_order(after, file) by {
            assert(self.file_in_order(world, file));
        }
        assert forall|path: Seq<char>| #[trigger]
            child_of(path, target) && after.is_file(path) implies self.has_origin(path) by {
            assert(world.holds(path));
        }
    }

    /// A change at one path of the mirror tree that is and stays no
    /// directory: the source tree, the tree shape and the mirrored
    /// directories are as they were, and so is every file of the source
    /// whose destination is another path.
    pub proof fn lemma_touched(
        self,
        state: EngineView,
        world: World,
        after: World,
        target: Seq<char>,
    )
        requires
            self.frame.well_formed(),
            self.listed(state, world),
            world.is_directory(self.placed(state.current.path)),
            child_of(target, self.placed(state.current.path)),
            Self::same_but(world, after, target),
            !world.is_directory(target),
            !after.is_directory(target),
            after.is_file(target) ==> self.has_origin(target),
            self.has_origin(target) && self.settled(world, self.counterpart(target))
                ==> self.settled(after, self.counterpart(target)),
        ensures
            self.listed(state, after),
            after.is_directory(self.placed(state.current.path)),
            forall|path: Seq<char>|
                path != target ==> #[trigger] after.is_file(path) == world.is_file(path),
            forall|file: Seq<char>|
                self.frame.in_source(file) && file != self.counterpart(target)
                    ==> #[trigger] self.file_unchanged(world, after, file),
    {
        let home = self.placed(state.current.path);
        self.frame.lemma_there_and_back(state.current.path);
        self.frame.lemma_child_counterpart(target, home);
        self.frame.lemma_mirror_below_destination(target);
        assert(after.holds(home) == world.holds(home));
        assert forall|path: Seq<char>| path != target implies #[trigger] after.is_file(path)
            == world.is_file(path) by {
            assert(after.holds(path) == world.holds(path));
        }
        assert forall|path: Seq<char>| self.frame.in_source(path) implies #[trigger] self.same_at(
            after,
            path,
        ) by {
            assert(self.same_at(world, path));
            self.frame.lemma_apart(path, target);
            assert(after.holds(path) == world.holds(path));
        }
        assert forall|path: Seq<char>, parent: Seq<char>|
            after.holds(path) && #[trigger] child_of(path, parent) implies after.is_directory(
            parent,
        ) by {
            if path == target && !world.holds(target) {
                lemma_one_parent(target, parent, home);
            } else {
                assert(after.holds(path) == world.holds(path) || path == target);
                assert(world.is_directory(parent));
                assert(after.holds(parent) == world.holds(parent));
            }
        }
        assert forall|file: Seq<char>|
            self.frame.in_source(file) && file != self.counterpart(
                target,
            ) implies #[trigger] self.file_unchanged(world, after, file) by {
            self.frame.lemma_there_and_back(file);
            assert(after.holds(self.placed(file)) == world.holds(self.placed(file)));
        }
        assert forall|k: int| 0 <= k < state.finished.len() implies {
            let directory = #[trigger] state.finished[k];
            &&& self.before.is_directory(directory)
            &&& self.frame.in_source(directory)
            &&& self.mirrored(after, directory)
            &&& self.children_seen(state, directory)
        } by {
            let directory = state.finished[k];
            assert(self.mirrored(world, directory));
            assert(after.holds(self.placed(directory)) == world.holds(self.placed(directory)));
            assert forall|file: Seq<char>| #[trigger]
                child_of(file, directory) && self.before.is_file(file) implies self.settled(
                after,
                file,
            ) by {
                assert(self.settled(world, file));
                self.frame.lemma_child_placed(file, directory);
                if file != self.counterpart(target) {
                    assert(self.file_unchanged(world, after, file));
                }
            }
            assert forall|path: Seq<char>| #[trigger]
                child_of(path, self.placed(directory)) && after.is_file(
                    path,
                ) implies self.has_origin(path) by {
                if path != target {
                    assert(after.is_file(path) == world.is_file(path));
                }
            }
        }
    }
}

} // verus!
