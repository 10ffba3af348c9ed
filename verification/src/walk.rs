//! The walk through a directory tree that collects the files to take.
//!
//! The caller reads the directories. It tells the walk of each entry that it finds in the innermost
//! open directory, opens the directories that the walk wants to enter, and tells the walk when the
//! innermost directory has no more entries.

use crate::args::Args;
use crate::args::ArgsView;
use crate::args::PatternType;
use crate::filter::git_dir;
use crate::filter::is_entered;
use crate::filter::is_in_git_dir;
use crate::filter::is_taken;
use crate::filter::law_exclude_enters_the_rest;
use crate::filter::law_include_enters_all;
use crate::filter::law_taken_by_size_and_match;
use crate::filter::passes_patterns;
use crate::filter::path_matches;
use crate::filter::should_enter;
use crate::filter::should_keep;
use crate::path::components;
use crate::path::is_absolute;
use crate::path::is_name;
use crate::path::joined;
use crate::path::law_entry_names;
use crate::path::law_entry_names_make_the_path;
use crate::path::law_join_adds_component;
use crate::path::raw;
use crate::path::RawPath;
use crate::text::join;
use vstd::prelude::*;

verus! {

/// What an entry of a directory is.
#[derive(Clone, Copy, Debug, PartialEq, Eq, Structural)]
pub enum EntryKind {
    /// A directory.
    Dir,
    /// A file of that many bytes.
    File(u64),
    /// Neither.
    Other,
}

/// A walk: the open directories, the innermost last, and the files that were taken.
#[derive(Debug)]
pub struct Walk {
    dirs: Vec<RawPath>,
    files: Vec<RawPath>,
}

/// The contents of [`Walk`].
#[verifier::ext_equal]
pub struct WalkView {
    pub dirs: Seq<Seq<u8>>,
    pub files: Seq<Seq<u8>>,
}

impl View for Walk {
    type V = WalkView;

    closed spec fn view(&self) -> WalkView {
        WalkView { dirs: raw(self.dirs@), files: raw(self.files@) }
    }
}

/// The walk after an entry of the innermost directory.
pub open spec fn after_entry(
    walk: WalkView,
    name: Seq<u8>,
    kind: EntryKind,
    args: ArgsView,
) -> WalkView {
    let path = joined(walk.dirs.last(), name);
    match kind {
        EntryKind::Dir => if is_entered(path, args) {
            WalkView { dirs: walk.dirs.push(path), ..walk }
        } else {
            walk
        },
        EntryKind::File(size) => if is_taken(path, size as nat, args) {
            WalkView { files: walk.files.push(path), ..walk }
        } else {
            walk
        },
        EntryKind::Other => walk,
    }
}

impl Walk {
    /// A walk that starts at the top directory, whose own path is empty.
    pub fn new() -> (walk: Walk)
        ensures
            walk@ == (WalkView { dirs: seq![Seq::empty()], files: Seq::empty() }),
    {
        let top: Vec<u8> = Vec::new();
        let mut dirs: Vec<RawPath> = Vec::new();
        dirs.push(RawPath::new(top));
        let walk = Walk { dirs, files: Vec::new() };
        assert(walk@.dirs =~= seq![Seq::empty()]);
        assert(walk@.files =~= Seq::empty());
        walk
    }

    /// Whether a directory is open.
    pub fn is_open(&self) -> (open: bool)
        ensures
            open == (self@.dirs.len() > 0),
    {
        self.dirs.len() > 0
    }

    /// Takes note of an entry of the innermost directory. Returns whether that entry is a directory
    /// to enter, which is then the innermost one.
    pub fn visit(&mut self, name: &[u8], kind: EntryKind, args: &Args) -> (enter: bool)
        requires
            old(self)@.dirs.len() > 0,
        ensures
            final(self)@ == after_entry(old(self)@, name@, kind, args@),
            enter == (kind is Dir && is_entered(joined(old(self)@.dirs.last(), name@), args@)),
    {
        let ghost before = self@;
        assert(before.dirs.last() == self.dirs@.last()@);
        let path = self.dirs[self.dirs.len() - 1].join(name);
        match kind {
            EntryKind::Dir => {
                if !should_enter(&path, args) {
                    return false;
                }
                self.dirs.push(path);
                assert(self@.dirs =~= before.dirs.push(path@));
                true
            },
            EntryKind::File(size) => {
                if should_keep(&path, size, args) {
                    self.files.push(path);
                    assert(self@.files =~= before.files.push(path@));
                }
                false
            },
            EntryKind::Other => false,
        }
    }

    /// Takes note that the innermost directory has no more entries.
    pub fn leave(&mut self)
        requires
            old(self)@.dirs.len() > 0,
        ensures
            final(self)@ == (WalkView { dirs: old(self)@.dirs.drop_last(), ..old(self)@ }),
    {
        let ghost before = self@;
        let _ = self.dirs.pop();
        assert(self@.dirs =~= before.dirs.drop_last());
    }

    /// The files that were taken, in the order in which they were found.
    pub fn into_files(self) -> (files: Vec<RawPath>)
        ensures
            raw(files@) == self@.files,
    {
        self.files
    }
}

/// What lies under a name in a directory tree.
pub enum Node {
    Dir(Seq<(Seq<u8>, Node)>),
    File(u64),
    Other,
}

/// What the walk is told of a node.
pub open spec fn kind_of(node: Node) -> EntryKind {
    match node {
        Node::Dir(_) => EntryKind::Dir,
        Node::File(size) => EntryKind::File(size),
        Node::Other => EntryKind::Other,
    }
}

/// What a walk is told.
pub enum Event {
    Entry(Seq<u8>, EntryKind),
    End,
}

/// The walk after an event.
pub open spec fn after_event(walk: WalkView, event: Event, args: ArgsView) -> WalkView {
    match event {
        Event::Entry(name, kind) => after_entry(walk, name, kind, args),
        Event::End => WalkView { dirs: walk.dirs.drop_last(), ..walk },
    }
}

/// The walk after some events.
pub open spec fn after_events(walk: WalkView, events: Seq<Event>, args: ArgsView) -> WalkView
    decreases events.len(),
{
    if events.len() == 0 {
        walk
    } else {
        after_event(after_events(walk, events.drop_last(), args), events.last(), args)
    }
}

/// What a walk is told of the entries of `dir` when a directory is read where it is entered.
pub open spec fn events_of(
    dir: Seq<u8>,
    entries: Seq<(Seq<u8>, Node)>,
    args: ArgsView,
) -> Seq<Event>
    decreases entries,
{
    if entries.len() == 0 {
        Seq::empty()
    } else {
        let (name, node) = entries.last();
        let path = joined(dir, name);
        let before = events_of(dir, entries.drop_last(), args).push(
            Event::Entry(name, kind_of(node)),
        );
        match node {
            Node::Dir(below) => if is_entered(path, args) {
                before + events_of(path, below, args).push(Event::End)
            } else {
                before
            },
            _ => before,
        }
    }
}

/// The files that are taken from the entries of `dir`, those of the directories below included
/// where they are entered.
pub open spec fn collected(
    dir: Seq<u8>,
    entries: Seq<(Seq<u8>, Node)>,
    args: ArgsView,
) -> Seq<Seq<u8>>
    decreases entries,
{
    if entries.len() == 0 {
        Seq::empty()
    } else {
        collected(dir, entries.drop_last(), args) + collected_at(dir, entries.last(), args)
    }
}

/// The files that are taken from one entry of `dir`.
pub open spec fn collected_at(
    dir: Seq<u8>,
    entry: (Seq<u8>, Node),
    args: ArgsView,
) -> Seq<Seq<u8>>
    decreases entry,
{
    let path = joined(dir, entry.0);
    match entry.1 {
        Node::Dir(below) => if is_entered(path, args) {
            collected(path, below, args)
        } else {
            Seq::empty()
        },
        Node::File(size) => if is_taken(path, size as nat, args) {
            seq![path]
        } else {
            Seq::empty()
        },
        Node::Other => Seq::empty(),
    }
}

proof fn lemma_events_in_turn(walk: WalkView, a: Seq<Event>, b: Seq<Event>, args: ArgsView)
    ensures
        after_events(walk, a + b, args) == after_events(after_events(walk, a, args), b, args),
    decreases b.len(),
{
    if b.len() == 0 {
        assert(a + b == a);
    } else {
        lemma_events_in_turn(walk, a, b.drop_last(), args);
        assert((a + b).drop_last() == a + b.drop_last());
    }
}

/// A walk that is told of all entries of the innermost directory, and of those below the
/// directories that it enters, takes exactly the files that are to be collected, after those that
/// it has, and leaves every directory that it entered.
pub proof fn law_walk_collects(
    walk: WalkView,
    entries: Seq<(Seq<u8>, Node)>,
    args: ArgsView,
)
    requires
        walk.dirs.len() > 0,
    ensures
        after_events(walk, events_of(walk.dirs.last(), entries, args), args) == (WalkView {
            dirs: walk.dirs,
            files: walk.files + collected(walk.dirs.last(), entries, args),
        }),
    decreases entries,
{
    let dir = walk.dirs.last();
    if entries.len() == 0 {
        assert(walk.files + collected(dir, entries, args) =~= walk.files);
    } else {
        let front = entries.drop_last();
        let (name, node) = entries.last();
        let path = joined(dir, name);
        law_walk_collects(walk, front, args);
        let first = events_of(dir, front, args);
        let entry = Event::Entry(name, kind_of(node));
        let middle = after_events(walk, first, args);
        assert(first.push(entry).drop_last() =~= first);
        let seen = after_events(walk, first.push(entry), args);
        assert(seen == after_event(middle, entry, args));
        match node {
            Node::Dir(below) => {
                if is_entered(path, args) {
                    let inner = events_of(path, below, args);
                    assert(seen.dirs.last() == path);
                    law_walk_collects(seen, below, args);
                    assert(inner.push(Event::End).drop_last() =~= inner);
                    lemma_events_in_turn(walk, first.push(entry), inner.push(Event::End), args);
                    assert(seen.dirs.drop_last() =~= walk.dirs);
                    let end = after_events(seen, inner.push(Event::End), args);
                    assert(end == after_event(after_events(seen, inner, args), Event::End, args));
                    assert(events_of(dir, entries, args) == first.push(entry) + inner.push(
                        Event::End,
                    ));
                    assert(end.files == middle.files + collected(path, below, args));
                } else {
                    assert(events_of(dir, entries, args) == first.push(entry));
                }
            },
            _ => {
                assert(events_of(dir, entries, args) == first.push(entry));
            },
        }
        let last = after_events(walk, events_of(dir, entries, args), args);
        assert(last.files =~= middle.files + collected_at(dir, entries.last(), args));
        assert(last.files =~= walk.files + collected(dir, entries, args));
    }
}

/// Whether `path` is a file of `size` bytes among the entries of `dir`, or below a directory that
/// is entered, reached through entered directories only.
pub open spec fn is_reached(
    dir: Seq<u8>,
    entries: Seq<(Seq<u8>, Node)>,
    args: ArgsView,
    path: Seq<u8>,
    size: u64,
) -> bool
    decreases entries,
{
    exists|i: int|
        0 <= i < entries.len() && match (#[trigger] entries[i]).1 {
            Node::Dir(below) => is_entered(joined(dir, entries[i].0), args) && is_reached(
                joined(dir, entries[i].0),
                below,
                args,
                path,
                size,
            ),
            Node::File(length) => joined(dir, entries[i].0) == path && length == size,
            Node::Other => false,
        }
}

proof fn lemma_collected_parts(
    dir: Seq<u8>,
    entries: Seq<(Seq<u8>, Node)>,
    args: ArgsView,
    path: Seq<u8>,
)
    ensures
        collected(dir, entries, args).contains(path) <==> exists|i: int|
            0 <= i < entries.len() && collected_at(dir, #[trigger] entries[i], args).contains(path),
    decreases entries.len(),
{
    if entries.len() > 0 {
        let front = entries.drop_last();
        let a = collected(dir, front, args);
        let b = collected_at(dir, entries.last(), args);
        lemma_collected_parts(dir, front, args, path);
        if collected(dir, entries, args).contains(path) {
            let k = choose|k: int| 0 <= k < (a + b).len() && (a + b)[k] == path;
            if k < a.len() {
                assert(a[k] == path);
                let i = choose|i: int|
                    0 <= i < front.len() && collected_at(dir, #[trigger] front[i], args).contains(
                        path,
                    );
                assert(entries[i] == front[i]);
            } else {
                assert(b[k - a.len()] == path);
                assert(collected_at(dir, entries[entries.len() - 1], args).contains(path));
            }
        }
        if exists|i: int|
            0 <= i < entries.len() && collected_at(dir, #[trigger] entries[i], args).contains(
                path,
            ) {
            let i = choose|i: int|
                0 <= i < entries.len() && collected_at(dir, #[trigger] entries[i], args).contains(
                    path,
                );
            if i < front.len() {
                assert(front[i] == entries[i]);
                let k = choose|k: int| 0 <= k < a.len() && a[k] == path;
                assert((a + b)[k] == path);
            } else {
                let k = choose|k: int| 0 <= k < b.len() && b[k] == path;
                assert((a + b)[a.len() + k] == path);
            }
        }
    }
}

/// A file is collected exactly if it is reached through entered directories, its size is within
/// the limit and the patterns let it through.
pub proof fn law_collected_exactly(
    dir: Seq<u8>,
    entries: Seq<(Seq<u8>, Node)>,
    args: ArgsView,
    path: Seq<u8>,
)
    ensures
        collected(dir, entries, args).contains(path) <==> exists|size: u64|
            #[trigger] is_reached(dir, entries, args, path, size) && size <= args.max_file_size_kb
                * 1024 && passes_patterns(path, args),
    decreases entries,
{
    lemma_collected_parts(dir, entries, args, path);
    if collected(dir, entries, args).contains(path) {
        let i = choose|i: int|
            0 <= i < entries.len() && collected_at(dir, #[trigger] entries[i], args).contains(path);
        let at = joined(dir, entries[i].0);
        match entries[i].1 {
            Node::Dir(below) => {
                law_collected_exactly(at, below, args, path);
                let size = choose|size: u64|
                    #[trigger] is_reached(at, below, args, path, size) && size
                        <= args.max_file_size_kb * 1024 && passes_patterns(path, args);
                assert(is_reached(dir, entries, args, path, size));
            },
            Node::File(size) => {
                assert(is_reached(dir, entries, args, path, size));
            },
            Node::Other => {},
        }
    }
    if exists|size: u64|
        #[trigger] is_reached(dir, entries, args, path, size) && size <= args.max_file_size_kb
            * 1024 && passes_patterns(path, args) {
        let size = choose|size: u64|
            #[trigger] is_reached(dir, entries, args, path, size) && size <= args.max_file_size_kb
                * 1024 && passes_patterns(path, args);
        let i = choose|i: int|
            0 <= i < entries.len() && match (#[trigger] entries[i]).1 {
                Node::Dir(below) => is_entered(joined(dir, entries[i].0), args) && is_reached(
                    joined(dir, entries[i].0),
                    below,
                    args,
                    path,
                    size,
                ),
                Node::File(length) => joined(dir, entries[i].0) == path && length == size,
                Node::Other => false,
            };
        let at = joined(dir, entries[i].0);
        match entries[i].1 {
            Node::Dir(below) => {
                law_collected_exactly(at, below, args, path);
                assert(collected_at(dir, entries[i], args).contains(path));
            },
            Node::File(_) => {
                assert(seq![path][0] == path);
                assert(collected_at(dir, entries[i], args).contains(path));
            },
            Node::Other => {},
        }
    }
}

/// Whether the entries of a directory, and those below, have names, and no two of one directory
/// the same.
pub open spec fn is_well_named(entries: Seq<(Seq<u8>, Node)>) -> bool
    decreases entries,
{
    &&& forall|i: int, j: int|
        0 <= i < j < entries.len() ==> (#[trigger] entries[i]).0 != (#[trigger] entries[j]).0
    &&& forall|i: int|
        0 <= i < entries.len() ==> {
            &&& is_name((#[trigger] entries[i]).0)
            &&& match entries[i].1 {
                Node::Dir(below) => is_well_named(below),
                _ => true,
            }
        }
}

/// Every path that is collected goes through the directory and one of its entries.
proof fn lemma_collected_below(
    dir: Seq<u8>,
    entries: Seq<(Seq<u8>, Node)>,
    args: ArgsView,
    path: Seq<u8>,
)
    requires
        is_well_named(entries),
        collected(dir, entries, args).contains(path),
    ensures
        components(dir).len() < components(path).len(),
        components(dir) == components(path).take(components(dir).len() as int),
        exists|i: int|
            0 <= i < entries.len() && (#[trigger] entries[i]).0 == components(path)[components(
                dir,
            ).len() as int] && collected_at(dir, entries[i], args).contains(path),
    decreases entries,
{
    lemma_collected_parts(dir, entries, args, path);
    let i = choose|i: int|
        0 <= i < entries.len() && collected_at(dir, #[trigger] entries[i], args).contains(path);
    lemma_collected_through(dir, entries, args, path, i);
}

proof fn lemma_collected_through(
    dir: Seq<u8>,
    entries: Seq<(Seq<u8>, Node)>,
    args: ArgsView,
    path: Seq<u8>,
    i: int,
)
    requires
        is_well_named(entries),
        0 <= i < entries.len(),
        collected_at(dir, entries[i], args).contains(path),
    ensures
        components(dir).len() < components(path).len(),
        components(dir) == components(path).take(components(dir).len() as int),
        entries[i].0 == components(path)[components(dir).len() as int],
    decreases entries, 0int,
{
    let at = joined(dir, entries[i].0);
    let length = components(dir).len() as int;
    law_join_adds_component(dir, entries[i].0);
    match entries[i].1 {
        Node::Dir(below) => {
            lemma_collected_parts(at, below, args, path);
            let k = choose|k: int|
                0 <= k < below.len() && collected_at(at, #[trigger] below[k], args).contains(path);
            lemma_collected_through(at, below, args, path, k);
            assert(components(at)[length] == components(path).take(length + 1)[length]);
            assert(components(dir) =~= components(at).take(length));
            assert(components(path).take(length + 1).take(length) =~= components(path).take(
                length,
            ));
        },
        _ => {
            assert(path == at);
            assert(components(path).take(length) =~= components(dir));
        },
    }
}

/// Every directory on the way to a collected path is entered; so nothing is collected from a
/// directory that is left out, however deep it lies.
pub proof fn law_ancestors_are_entered(
    dir: Seq<u8>,
    entries: Seq<(Seq<u8>, Node)>,
    args: ArgsView,
    path: Seq<u8>,
    depth: int,
)
    requires
        is_well_named(entries),
        collected(dir, entries, args).contains(path),
        components(dir).len() < depth < components(path).len(),
    ensures
        exists|above: Seq<u8>|
            #[trigger] is_entered(above, args) && components(above) == components(path).take(depth),
    decreases entries,
{
    lemma_collected_parts(dir, entries, args, path);
    let i = choose|i: int|
        0 <= i < entries.len() && collected_at(dir, #[trigger] entries[i], args).contains(path);
    let at = joined(dir, entries[i].0);
    law_join_adds_component(dir, entries[i].0);
    lemma_collected_through(dir, entries, args, path, i);
    match entries[i].1 {
        Node::Dir(below) => {
            if depth == components(at).len() {
                assert(components(at) =~= components(path).take(depth));
                assert(is_entered(at, args));
            } else {
                law_ancestors_are_entered(at, below, args, path, depth);
            }
        },
        _ => {
            assert(path == at);
        },
    }
}

/// No file below the directory of git's own data is collected: the only path there can be is that
/// of a file that has the directory's name.
pub proof fn law_git_data_is_left_out(
    entries: Seq<(Seq<u8>, Node)>,
    args: ArgsView,
    path: Seq<u8>,
)
    requires
        is_well_named(entries),
        collected(Seq::empty(), entries, args).contains(path),
    ensures
        is_in_git_dir(path) ==> components(path) == seq![git_dir()],
{
    let top = Seq::<u8>::empty();
    lemma_collected_parts(top, entries, args, path);
    let i = choose|i: int|
        0 <= i < entries.len() && collected_at(top, #[trigger] entries[i], args).contains(path);
    let at = joined(top, entries[i].0);
    lemma_top_has_no_components();
    law_join_adds_component(top, entries[i].0);
    lemma_collected_through(top, entries, args, path, i);
    match entries[i].1 {
        Node::Dir(below) => {
            assert(components(at)[0] == entries[i].0);
            assert(components(path)[0] == entries[i].0);
        },
        _ => {
            assert(path == at);
            assert(components(path) =~= seq![entries[i].0]);
        },
    }
}

proof fn lemma_top_has_no_components()
    ensures
        components(Seq::<u8>::empty()).len() == 0,
{
    reveal(Seq::filter);
    reveal_with_fuel(Seq::filter, 3);
}

/// No path is collected twice.
pub proof fn law_collected_once(dir: Seq<u8>, entries: Seq<(Seq<u8>, Node)>, args: ArgsView)
    requires
        is_well_named(entries),
    ensures
        collected(dir, entries, args).no_duplicates(),
    decreases entries,
{
    if entries.len() > 0 {
        let front = entries.drop_last();
        let last = entries.len() - 1;
        let a = collected(dir, front, args);
        let b = collected_at(dir, entries.last(), args);
        lemma_front_is_well_named(entries);
        law_collected_once(dir, front, args);
        match entries[last].1 {
            Node::Dir(below) => {
                law_collected_once(joined(dir, entries[last].0), below, args);
            },
            _ => {},
        }
        assert forall|i: int, j: int|
            0 <= i < j < (a + b).len() implies (a + b)[i] != (a + b)[j] by {
            if i < a.len() && a.len() <= j {
                let path = (a + b)[i];
                if path == (a + b)[j] {
                    assert(a[i] == path && b[j - a.len()] == path);
                    lemma_collected_below(dir, front, args, path);
                    assert(collected_at(dir, entries[last], args).contains(path));
                    lemma_collected_through(dir, entries, args, path, last);
                    let k = choose|k: int|
                        0 <= k < front.len() && (#[trigger] front[k]).0 == components(
                            path,
                        )[components(dir).len() as int];
                    assert(entries[k].0 == entries[last].0);
                }
            }
        }
    }
}

proof fn lemma_front_is_well_named(entries: Seq<(Seq<u8>, Node)>)
    requires
        is_well_named(entries),
        entries.len() > 0,
    ensures
        is_well_named(entries.drop_last()),
{
    let front = entries.drop_last();
    assert forall|i: int, j: int| 0 <= i < j < front.len() implies (#[trigger] front[i]).0 != (
    #[trigger] front[j]).0 by {
        assert(front[i] == entries[i] && front[j] == entries[j]);
    }
    assert forall|i: int| 0 <= i < front.len() implies {
        &&& is_name((#[trigger] front[i]).0)
        &&& match front[i].1 {
            Node::Dir(below) => is_well_named(below),
            _ => true,
        }
    } by {
        assert(front[i] == entries[i]);
    }
}

/// Whether the names lead through directories of the tree to a file of `size` bytes.
pub open spec fn leads_to_file(
    entries: Seq<(Seq<u8>, Node)>,
    names: Seq<Seq<u8>>,
    size: u64,
) -> bool
    decreases names.len(),
{
    names.len() > 0 && exists|i: int|
        0 <= i < entries.len() && (#[trigger] entries[i]).0 == names[0] && match entries[i].1 {
            Node::Dir(below) => names.len() > 1 && leads_to_file(below, names.drop_first(), size),
            Node::File(length) => names.len() == 1 && length == size,
            Node::Other => false,
        }
}

/// The path that some names make, with slashes between them.
pub open spec fn path_through(names: Seq<Seq<u8>>) -> Seq<u8> {
    join(names, seq![47u8])
}

spec fn are_names(names: Seq<Seq<u8>>) -> bool {
    forall|i: int| 0 <= i < names.len() ==> is_name(#[trigger] names[i])
}

proof fn lemma_names_of_path(names: Seq<Seq<u8>>)
    requires
        are_names(names),
    ensures
        components(path_through(names)) == names,
{
    assert forall|i: int| 0 <= i < names.len() implies (#[trigger] names[i]).len() > 0
        && !names[i].contains(47u8) && names[i] != seq![46u8] && names[i] != seq![46u8, 46u8] by {
        law_entry_names(names[i]);
    }
    law_entry_names_make_the_path(names);
}

/// One name more.
proof fn lemma_path_through_one_more(names: Seq<Seq<u8>>, name: Seq<u8>)
    requires
        are_names(names),
        is_name(name),
    ensures
        joined(path_through(names), name) == path_through(names.push(name)),
        are_names(names.push(name)),
{
    let dir = path_through(names);
    let longer = names.push(name);
    assert(longer.drop_last() =~= names);
    assert(!is_absolute(name)) by {
        if is_absolute(name) {
            assert(name.contains(name[0]));
        }
    }
    if names.len() == 0 {
        assert(dir + name =~= name);
        assert(path_through(longer) == longer[0]);
    } else {
        let last = names.last();
        assert(is_name(names[names.len() - 1]));
        assert(dir.len() > 0 && dir.last() == last.last()) by {
            if names.len() > 1 {
                assert(dir == join(names.drop_last(), seq![47u8]) + seq![47u8] + last);
            }
        }
        assert(last.contains(last.last()));
        assert(dir + seq![47u8] + name =~= dir.push(47u8) + name);
    }
}

/// Whether the directories on the way are entered.
spec fn way_is_entered(done: Seq<Seq<u8>>, names: Seq<Seq<u8>>, args: ArgsView) -> bool {
    forall|depth: int|
        done.len() < depth < done.len() + names.len() ==> is_entered(
            path_through(#[trigger] (done + names).take(depth)),
            args,
        )
}

proof fn lemma_way_step(done: Seq<Seq<u8>>, names: Seq<Seq<u8>>, args: ArgsView)
    requires
        names.len() > 1,
    ensures
        way_is_entered(done, names, args) <==> is_entered(path_through(done.push(names[0])), args)
            && way_is_entered(done.push(names[0]), names.drop_first(), args),
{
    let next = done.push(names[0]);
    let rest = names.drop_first();
    assert(next + rest =~= done + names);
    assert((done + names).take(done.len() as int + 1) =~= next);
    if way_is_entered(done, names, args) {
        assert(is_entered(path_through((done + names).take(done.len() as int + 1)), args));
        assert forall|depth: int| next.len() < depth < next.len() + rest.len() implies is_entered(
            path_through(#[trigger] (next + rest).take(depth)),
            args,
        ) by {
            assert(is_entered(path_through((done + names).take(depth)), args));
        }
    }
    if is_entered(path_through(next), args) && way_is_entered(next, rest, args) {
        assert forall|depth: int| done.len() < depth < done.len() + names.len() implies is_entered(
            path_through(#[trigger] (done + names).take(depth)),
            args,
        ) by {
            if depth > done.len() + 1 {
                assert(is_entered(path_through((next + rest).take(depth)), args));
            }
        }
    }
}

proof fn lemma_reached_by_names(
    done: Seq<Seq<u8>>,
    entries: Seq<(Seq<u8>, Node)>,
    args: ArgsView,
    path: Seq<u8>,
    size: u64,
) -> (names: Seq<Seq<u8>>)
    requires
        are_names(done),
        is_well_named(entries),
        is_reached(path_through(done), entries, args, path, size),
    ensures
        are_names(names),
        path == path_through(done + names),
        leads_to_file(entries, names, size),
        way_is_entered(done, names, args),
    decreases entries,
{
    let dir = path_through(done);
    let i = choose|i: int|
        0 <= i < entries.len() && match (#[trigger] entries[i]).1 {
            Node::Dir(below) => is_entered(joined(dir, entries[i].0), args) && is_reached(
                joined(dir, entries[i].0),
                below,
                args,
                path,
                size,
            ),
            Node::File(length) => joined(dir, entries[i].0) == path && length == size,
            Node::Other => false,
        };
    let name = entries[i].0;
    assert(is_name(name));
    lemma_path_through_one_more(done, name);
    match entries[i].1 {
        Node::Dir(below) => {
            let rest = lemma_reached_by_names(done.push(name), below, args, path, size);
            let names = seq![name] + rest;
            assert(names.drop_first() =~= rest);
            assert(done + names =~= done.push(name) + rest);
            assert forall|k: int| 0 <= k < names.len() implies is_name(#[trigger] names[k]) by {
                if k > 0 {
                    assert(names[k] == rest[k - 1]);
                }
            }
            lemma_way_step(done, names, args);
            assert(entries[i].0 == names[0]);
            names
        },
        _ => {
            let names = seq![name];
            assert(done + names =~= done.push(name));
            assert(entries[i].0 == names[0]);
            names
        },
    }
}

proof fn lemma_names_are_reached(
    done: Seq<Seq<u8>>,
    entries: Seq<(Seq<u8>, Node)>,
    args: ArgsView,
    names: Seq<Seq<u8>>,
    size: u64,
)
    requires
        are_names(done),
        is_well_named(entries),
        leads_to_file(entries, names, size),
        way_is_entered(done, names, args),
    ensures
        is_reached(path_through(done), entries, args, path_through(done + names), size),
    decreases names.len(),
{
    let i = choose|i: int|
        0 <= i < entries.len() && (#[trigger] entries[i]).0 == names[0] && match entries[i].1 {
            Node::Dir(below) => names.len() > 1 && leads_to_file(below, names.drop_first(), size),
            Node::File(length) => names.len() == 1 && length == size,
            Node::Other => false,
        };
    let name = entries[i].0;
    assert(is_name(name));
    lemma_path_through_one_more(done, name);
    match entries[i].1 {
        Node::Dir(below) => {
            lemma_way_step(done, names, args);
            lemma_names_are_reached(done.push(name), below, args, names.drop_first(), size);
            assert(done.push(name) + names.drop_first() =~= done + names);
        },
        _ => {
            assert(done + names =~= done.push(name));
        },
    }
}

/// What a walk through a directory tree collects, said of the tree alone. A file of the tree whose
/// size is within the limit is collected exactly if
///
/// - it does not lie below a `.git` of the top directory,
/// - its path matches where matching files are asked for, at whatever depth it lies,
/// - neither its path nor that of a directory on the way to it matches where matching files are left
///   out.
pub proof fn law_files_of_the_tree(
    entries: Seq<(Seq<u8>, Node)>,
    args: ArgsView,
    names: Seq<Seq<u8>>,
)
    requires
        is_well_named(entries),
        forall|i: int|
            0 <= i < names.len() ==> (#[trigger] names[i]).len() > 0 && !names[i].contains(47u8)
                && names[i] != seq![46u8] && names[i] != seq![46u8, 46u8],
    ensures
        collected(Seq::empty(), entries, args).contains(path_through(names)) <==> {
            &&& exists|size: u64|
                #[trigger] leads_to_file(entries, names, size) && size <= args.max_file_size_kb
                    * 1024
            &&& names.len() > 1 ==> names[0] != seq![46u8, 103u8, 105u8, 116u8]
            &&& args.pattern_type is Include ==> path_matches(path_through(names), args.patterns)
            &&& args.pattern_type is Exclude ==> forall|depth: int|
                0 < depth <= names.len() ==> !path_matches(
                    path_through(#[trigger] names.take(depth)),
                    args.patterns,
                )
        },
{
    let top = Seq::<u8>::empty();
    let none = Seq::<Seq<u8>>::empty();
    let path = path_through(names);
    assert forall|i: int| 0 <= i < names.len() implies is_name(#[trigger] names[i]) by {
        law_entry_names(names[i]);
    }
    assert(path_through(none) =~= top);
    assert(none + names =~= names);
    assert(names.take(names.len() as int) =~= names);
    law_collected_exactly(top, entries, args, path);
    lemma_way_is_entered(names, args);
    let matched = exists|depth: int|
        0 < depth <= names.len() && path_matches(
            path_through(#[trigger] names.take(depth)),
            args.patterns,
        );
    if collected(top, entries, args).contains(path) {
        let size = choose|size: u64|
            #[trigger] is_reached(top, entries, args, path, size) && size <= args.max_file_size_kb
                * 1024 && passes_patterns(path, args);
        let others = lemma_reached_by_names(none, entries, args, path, size);
        assert(none + others =~= others);
        lemma_names_of_path(names);
        lemma_names_of_path(others);
        assert(leads_to_file(entries, names, size));
        law_taken_by_size_and_match(path, size as nat, args);
        assert(is_taken(path, size as nat, args));
    }
    if (exists|size: u64|
        #[trigger] leads_to_file(entries, names, size) && size <= args.max_file_size_kb * 1024) && (
    names.len() > 1 ==> names[0] != seq![46u8, 103u8, 105u8, 116u8]) && (
    args.pattern_type is Include ==> path_matches(path, args.patterns)) && (
    args.pattern_type is Exclude ==> !matched) {
        let size = choose|size: u64|
            #[trigger] leads_to_file(entries, names, size) && size <= args.max_file_size_kb * 1024;
        assert(names.len() > 0);
        lemma_names_are_reached(none, entries, args, names, size);
        if args.pattern_type is Exclude {
            assert(!path_matches(path_through(names.take(names.len() as int)), args.patterns));
        }
        law_taken_by_size_and_match(path, size as nat, args);
        assert(is_taken(path, size as nat, args));
    }
}

proof fn lemma_way_is_entered(names: Seq<Seq<u8>>, args: ArgsView)
    requires
        are_names(names),
    ensures
        way_is_entered(Seq::empty(), names, args) <==> {
            &&& names.len() > 1 ==> names[0] != seq![46u8, 103u8, 105u8, 116u8]
            &&& args.pattern_type is Exclude ==> forall|depth: int|
                0 < depth < names.len() ==> !path_matches(
                    path_through(#[trigger] names.take(depth)),
                    args.patterns,
                )
        },
{
    let none = Seq::<Seq<u8>>::empty();
    assert(none + names =~= names);
    assert forall|depth: int| 0 < depth < names.len() implies (is_entered(
        path_through(#[trigger] names.take(depth)),
        args,
    ) <==> names[0] != seq![46u8, 103u8, 105u8, 116u8] && (args.pattern_type is Exclude
        ==> !path_matches(path_through(names.take(depth)), args.patterns))) by {
        let part = names.take(depth);
        assert forall|i: int| 0 <= i < part.len() implies is_name(#[trigger] part[i]) by {
            assert(part[i] == names[i]);
        }
        lemma_names_of_path(part);
        let dir = path_through(part);
        assert(components(dir)[0] == names[0]);
        match args.pattern_type {
            PatternType::Include => {
                law_include_enters_all(dir, args);
            },
            PatternType::Exclude => {
                law_exclude_enters_the_rest(dir, args);
            },
        }
    }
    if way_is_entered(none, names, args) {
        assert forall|depth: int| 0 < depth < names.len() implies is_entered(
            path_through(#[trigger] names.take(depth)),
            args,
        ) by {
            assert((none + names).take(depth) == names.take(depth));
        }
        if names.len() > 1 {
            assert(is_entered(path_through(names.take(1)), args));
        }
    }
}

/// A walk through a directory tree collects nothing but files of the tree.
pub proof fn law_only_files_of_the_tree(
    entries: Seq<(Seq<u8>, Node)>,
    args: ArgsView,
    path: Seq<u8>,
)
    requires
        is_well_named(entries),
        collected(Seq::empty(), entries, args).contains(path),
    ensures
        exists|names: Seq<Seq<u8>>, size: u64|
            path == path_through(names) && #[trigger] leads_to_file(entries, names, size),
{
    let top = Seq::<u8>::empty();
    let none = Seq::<Seq<u8>>::empty();
    assert(path_through(none) =~= top);
    law_collected_exactly(top, entries, args, path);
    let size = choose|size: u64|
        #[trigger] is_reached(top, entries, args, path, size) && size <= args.max_file_size_kb
            * 1024 && passes_patterns(path, args);
    let names = lemma_reached_by_names(none, entries, args, path, size);
    assert(none + names =~= names);
    assert(leads_to_file(entries, names, size));
}

} // verus!
