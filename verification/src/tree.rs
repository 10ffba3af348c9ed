//! The directory tree of a list of paths, and its drawing.

use crate::path::byte_strings;
use crate::path::bytes_before;
use crate::path::components;
use crate::path::decode_lossy;
use crate::path::is_bytes_before;
use crate::path::is_normal;
use crate::path::is_normal_component;
use crate::path::law_entry_names_make_the_path;
use crate::path::lemma_bytes_order;
use crate::path::lemma_filter_next;
use crate::path::names;
use crate::path::raw;
use crate::path::text_of;
use crate::path::RawPath;
use crate::text::is_ascending;
use crate::text::join;
use crate::text::law_join_then_split;
use crate::text::lemma_ascending_lists_are_equal;
use crate::text::lemma_encoding_is_injective;
use crate::text::same_text;
use crate::text::texts;
use vstd::prelude::*;
use vstd::utf8::encode_utf8;

verus! {

/// A directory of the tree, or a file, which has no entries.
#[derive(Debug)]
pub struct TreeNode {
    /// The entries, in the order of their names.
    pub entries: Vec<TreeEntry>,
}

/// A name in a directory of the tree, with what it stands for.
#[derive(Debug)]
pub struct TreeEntry {
    pub name: String,
    pub child: TreeNode,
}

/// Whether name `a` comes before name `b`: names are ordered by their bytes.
pub open spec fn name_before(a: Seq<char>, b: Seq<char>) -> bool {
    bytes_before(encode_utf8(a), encode_utf8(b))
}

/// What stands before a name: the branch to it.
pub open spec fn connector(is_last: bool) -> Seq<char> {
    if is_last {
        "└── "@
    } else {
        "├── "@
    }
}

/// What stands before the entries below a name.
pub open spec fn indent(is_last: bool) -> Seq<char> {
    if is_last {
        "    "@
    } else {
        "│   "@
    }
}

impl TreeNode {
    /// Whether every directory lists its entries in the order of their names, and no name twice.
    pub open spec fn well_formed(self) -> bool
        decreases self,
    {
        &&& forall|i: int, j: int|
            0 <= i < j < self.entries@.len() ==> name_before(
                (#[trigger] self.entries@[i]).name@,
                (#[trigger] self.entries@[j]).name@,
            )
        &&& forall|i: int|
            0 <= i < self.entries@.len() ==> (#[trigger] self.entries@[i]).child.well_formed()
    }

    /// Whether the names lead from this directory to an entry. No names lead to the directory.
    pub open spec fn has(self, path: Seq<Seq<char>>) -> bool
        decreases path.len(),
    {
        path.len() == 0 || exists|i: int|
            0 <= i < self.entries@.len() && (#[trigger] self.entries@[i]).name@ == path[0]
                && self.entries@[i].child.has(path.drop_first())
    }

    /// The drawing of the first `count` entries: for each a line with its name, then the drawing
    /// of what lies below it.
    pub open spec fn drawing_of_first(self, prefix: Seq<char>, count: nat) -> Seq<char>
        decreases self, count,
    {
        if count == 0 || count > self.entries@.len() {
            Seq::empty()
        } else {
            let entry = self.entries@[count - 1];
            let is_last = count == self.entries@.len();
            self.drawing_of_first(prefix, (count - 1) as nat) + prefix + connector(is_last)
                + entry.name@ + "\n"@ + entry.child.drawing_of_first(
                prefix + indent(is_last),
                entry.child.entries@.len(),
            )
        }
    }

    /// The drawing of the tree below this directory, each line behind `prefix`.
    pub open spec fn drawing(self, prefix: Seq<char>) -> Seq<char> {
        self.drawing_of_first(prefix, self.entries@.len())
    }

    /// The place of `name` among the entries, or where it belongs.
    fn find(&self, name: &str) -> (place: (usize, bool))
        requires
            self.well_formed(),
        ensures
            place.0 <= self.entries@.len(),
            forall|k: int|
                0 <= k < place.0 ==> name_before((#[trigger] self.entries@[k]).name@, name@),
            place.1 ==> place.0 < self.entries@.len() && self.entries@[place.0 as int].name@
                == name@,
            !place.1 ==> forall|k: int|
                place.0 <= k < self.entries@.len() ==> name_before(
                    name@,
                    (#[trigger] self.entries@[k]).name@,
                ),
    {
        let mut low: usize = 0;
        let mut high: usize = self.entries.len();
        while low < high
            invariant
                low <= high <= self.entries@.len(),
                self.well_formed(),
                forall|k: int|
                    0 <= k < low ==> name_before((#[trigger] self.entries@[k]).name@, name@),
                forall|k: int|
                    high <= k < self.entries@.len() ==> !name_before(
                        (#[trigger] self.entries@[k]).name@,
                        name@,
                    ),
            decreases high - low,
        {
            let middle: usize = low + (high - low) / 2;
            let ghost pivot = self.entries@[middle as int].name@;
            if is_bytes_before(self.entries[middle].name.as_str().as_bytes(), name.as_bytes()) {
                assert forall|k: int| 0 <= k < middle + 1 implies name_before(
                    (#[trigger] self.entries@[k]).name@,
                    name@,
                ) by {
                    lemma_name_order(self.entries@[k].name@, pivot, name@);
                }
                low = middle + 1;
            } else {
                assert forall|k: int| middle <= k < self.entries@.len() implies !name_before(
                    (#[trigger] self.entries@[k]).name@,
                    name@,
                ) by {
                    lemma_name_order(pivot, self.entries@[k].name@, name@);
                }
                high = middle;
            }
        }
        let found = low < self.entries.len() && same_text(self.entries[low].name.as_str(), name);
        proof {
            assert forall|k: int| !found && low <= k < self.entries@.len() implies name_before(
                name@,
                (#[trigger] self.entries@[k]).name@,
            ) by {
                let first = self.entries@[low as int].name@;
                lemma_name_order(first, name@, first);
                lemma_name_order(name@, first, self.entries@[k].name@);
            }
        }
        (low, found)
    }

    /// Adds the path of names from `from` on, with all directories on the way.
    pub fn insert(&mut self, names: &[String], from: usize)
        requires
            old(self).well_formed(),
            from <= names@.len(),
        ensures
            final(self).well_formed(),
            forall|path: Seq<Seq<char>>| #[trigger]
                final(self).has(path) <==> old(self).has(path) || path.is_prefix_of(
                    texts(names@).skip(from as int),
                ),
        decreases names@.len() - from,
    {
        let ghost start = *self;
        let ghost all = texts(names@);
        if from == names.len() {
            assert(all.skip(from as int).len() == 0);
            return ;
        }
        let ghost name = names@[from as int]@;
        let (place, found) = self.find(names[from].as_str());
        if !found {
            let entry = TreeEntry { name: names[from].clone(), child: TreeNode { entries: Vec::new() } };
            self.entries.insert(place, entry);
        }
        let ghost wide = *self;
        proof {
            if !found {
                lemma_insert_entry(start, wide, place as int, name);
            }
        }
        self.entries[place].child.insert(names, from + 1);
        proof {
            assert(all[from as int] == name);
            assert(all.skip(from as int).drop_first() =~= all.skip(from + 1));
            lemma_replace_child(wide, *self, place as int, name, all.skip(from as int));
            assert forall|path: Seq<Seq<char>>| #[trigger]
                self.has(path) <==> start.has(path) || path.is_prefix_of(all.skip(from as int)) by {
                if !found {
                    lemma_new_entry_paths(start, wide, place as int, name, path);
                    if path.len() == 1 && path[0] == name {
                        assert(path =~= all.skip(from as int).subrange(0, 1));
                    }
                }
            }
        }
    }
}

impl Default for TreeNode {
    /// A directory without entries.
    fn default() -> (node: TreeNode)
        ensures
            node.entries@.len() == 0,
    {
        TreeNode { entries: Vec::new() }
    }
}

proof fn lemma_name_order(a: Seq<char>, b: Seq<char>, c: Seq<char>)
    ensures
        !name_before(a, a),
        name_before(a, b) ==> !name_before(b, a),
        a == b || name_before(a, b) || name_before(b, a),
        name_before(a, b) && name_before(b, c) ==> name_before(a, c),
{
    lemma_bytes_order(encode_utf8(a), encode_utf8(b), encode_utf8(c));
    lemma_encoding_is_injective(a, b);
}

/// Where the entries are after an insertion.
proof fn lemma_entries_after_insertion(
    before: Seq<TreeEntry>,
    after: Seq<TreeEntry>,
    place: int,
)
    requires
        0 <= place <= before.len(),
        after == before.insert(place, after[place]),
    ensures
        after.len() == before.len() + 1,
        forall|i: int|
            0 <= i < after.len() ==> #[trigger] after[i] == if i < place {
                before[i]
            } else if i == place {
                after[place]
            } else {
                before[i - 1]
            },
{
}

/// A new entry in its place leaves the directory well formed.
proof fn lemma_insert_entry(start: TreeNode, wide: TreeNode, place: int, name: Seq<char>)
    requires
        start.well_formed(),
        0 <= place <= start.entries@.len(),
        wide.entries@ == start.entries@.insert(place, wide.entries@[place]),
        wide.entries@[place].name@ == name,
        wide.entries@[place].child.entries@.len() == 0,
        forall|k: int| 0 <= k < place ==> name_before((#[trigger] start.entries@[k]).name@, name),
        forall|k: int|
            place <= k < start.entries@.len() ==> name_before(
                name,
                (#[trigger] start.entries@[k]).name@,
            ),
    ensures
        wide.well_formed(),
{
    let old_entries = start.entries@;
    let entries = wide.entries@;
    lemma_entries_after_insertion(old_entries, entries, place);
    assert forall|i: int, j: int| 0 <= i < j < entries.len() implies name_before(
        (#[trigger] entries[i]).name@,
        (#[trigger] entries[j]).name@,
    ) by {
        lemma_name_order(entries[i].name@, name, entries[j].name@);
    }
    assert(entries[place].child.well_formed());
}

/// A new entry adds its own name and nothing else.
proof fn lemma_new_entry_paths(
    start: TreeNode,
    wide: TreeNode,
    place: int,
    name: Seq<char>,
    path: Seq<Seq<char>>,
)
    requires
        0 <= place <= start.entries@.len(),
        wide.entries@ == start.entries@.insert(place, wide.entries@[place]),
        wide.entries@[place].name@ == name,
        wide.entries@[place].child.entries@.len() == 0,
    ensures
        wide.has(path) <==> start.has(path) || path == seq![name],
{
    let old_entries = start.entries@;
    let entries = wide.entries@;
    lemma_entries_after_insertion(old_entries, entries, place);
    if path.len() > 0 {
        let tail = path.drop_first();
        if start.has(path) {
            let i = choose|i: int|
                0 <= i < old_entries.len() && (#[trigger] old_entries[i]).name@ == path[0]
                    && old_entries[i].child.has(tail);
            if i < place {
                assert(entries[i] == old_entries[i]);
            } else {
                assert(entries[i + 1] == old_entries[i]);
            }
        }
        if path == seq![name] {
            assert(tail.len() == 0);
            assert(entries[place].child.has(tail));
        }
        if wide.has(path) {
            let i = choose|i: int|
                0 <= i < entries.len() && (#[trigger] entries[i]).name@ == path[0]
                    && entries[i].child.has(tail);
            if i < place {
                assert(old_entries[i] == entries[i]);
            } else if i > place {
                assert(old_entries[i - 1] == entries[i]);
            } else {
                assert(tail.len() == 0);
                assert(path =~= seq![name]);
            }
        }
    }
}

/// Adding to the child of one entry adds the paths through that entry.
proof fn lemma_replace_child(
    before: TreeNode,
    after: TreeNode,
    place: int,
    name: Seq<char>,
    added: Seq<Seq<char>>,
)
    requires
        before.well_formed(),
        0 <= place < before.entries@.len(),
        before.entries@[place].name@ == name,
        added.len() > 0,
        added[0] == name,
        after.entries@.len() == before.entries@.len(),
        forall|i: int|
            0 <= i < before.entries@.len() && i != place ==> #[trigger] after.entries@[i]
                == before.entries@[i],
        after.entries@[place].name == before.entries@[place].name,
        after.entries@[place].child.well_formed(),
        forall|path: Seq<Seq<char>>| #[trigger]
            after.entries@[place].child.has(path) <==> before.entries@[place].child.has(path)
                || path.is_prefix_of(added.drop_first()),
    ensures
        after.well_formed(),
        forall|path: Seq<Seq<char>>| #[trigger]
            after.has(path) <==> before.has(path) || path.is_prefix_of(added),
{
    let old_entries = before.entries@;
    let entries = after.entries@;
    assert forall|i: int| 0 <= i < entries.len() implies (#[trigger] entries[i]).name
        == old_entries[i].name && entries[i].child.well_formed() by {
        if i != place {
            assert(entries[i] == old_entries[i]);
        }
    }
    assert forall|i: int, j: int| 0 <= i < j < entries.len() implies name_before(
        (#[trigger] entries[i]).name@,
        (#[trigger] entries[j]).name@,
    ) by {
        assert(entries[i].name == old_entries[i].name && entries[j].name == old_entries[j].name);
    }
    assert forall|path: Seq<Seq<char>>| #[trigger]
        after.has(path) <==> before.has(path) || path.is_prefix_of(added) by {
        if path.len() == 0 {
            assert(path =~= added.subrange(0, 0));
        } else {
            let tail = path.drop_first();
            lemma_prefix_step(path, added);
            if before.has(path) {
                let i = choose|i: int|
                    0 <= i < old_entries.len() && (#[trigger] old_entries[i]).name@ == path[0]
                        && old_entries[i].child.has(tail);
                assert(entries[i].name@ == path[0]);
                assert(entries[i].child.has(tail));
            }
            if path.is_prefix_of(added) {
                assert(entries[place].child.has(tail));
            }
            if after.has(path) {
                let i = choose|i: int|
                    0 <= i < entries.len() && (#[trigger] entries[i]).name@ == path[0]
                        && entries[i].child.has(tail);
                if i != place {
                    assert(old_entries[i] == entries[i]);
                } else if before.entries@[place].child.has(tail) {
                    assert(old_entries[place].name@ == path[0]);
                }
            }
        }
    }
}

proof fn lemma_prefix_step(path: Seq<Seq<char>>, whole: Seq<Seq<char>>)
    requires
        path.len() > 0,
        whole.len() > 0,
    ensures
        path.is_prefix_of(whole) <==> path[0] == whole[0] && path.drop_first().is_prefix_of(
            whole.drop_first(),
        ),
{
    let a = path.drop_first();
    let b = whole.drop_first();
    if path.is_prefix_of(whole) {
        assert(path[0] == whole.subrange(0, path.len() as int)[0]);
        assert(a =~= b.subrange(0, a.len() as int)) by {
            assert forall|k: int| 0 <= k < a.len() implies a[k] == b[k] by {
                assert(path[k + 1] == whole.subrange(0, path.len() as int)[k + 1]);
            }
        }
    }
    if path[0] == whole[0] && a.is_prefix_of(b) {
        assert(path =~= whole.subrange(0, path.len() as int)) by {
            assert forall|k: int| 0 <= k < path.len() implies path[k] == whole[k] by {
                if k > 0 {
                    assert(a[k - 1] == b.subrange(0, a.len() as int)[k - 1]);
                }
            }
        }
    }
}

/// The texts of the names among the components of a path.
pub fn path_names(path: &RawPath) -> (list: Vec<String>)
    ensures
        texts(list@) == names(path@),
{
    let parts = path.components();
    let ghost all = components(path@);
    let ghost keep = |c: Seq<u8>| is_normal(c);
    let mut list: Vec<String> = Vec::new();
    let mut i: usize = 0;
    proof {
        reveal(Seq::filter);
        assert(all.take(0).filter(keep) =~= Seq::empty());
        assert(texts(list@) =~= all.take(0).filter(keep).map_values(|c: Seq<u8>| text_of(c)));
    }
    while i < parts.len()
        invariant
            i <= parts@.len(),
            byte_strings(parts@) == all,
            keep == (|c: Seq<u8>| is_normal(c)),
            texts(list@) == all.take(i as int).filter(keep).map_values(
                |c: Seq<u8>| text_of(c),
            ),
        decreases parts@.len() - i,
    {
        let part = parts[i].as_slice();
        let ghost so_far = texts(list@);
        proof {
            assert(byte_strings(parts@)[i as int] == part@);
            lemma_filter_next(all, keep, i as int);
        }
        if is_normal_component(part) {
            list.push(decode_lossy(part));
            assert(texts(list@) =~= so_far.push(text_of(part@)));
            assert(all.take(i + 1).filter(keep).map_values(|c: Seq<u8>| text_of(c))
                =~= so_far.push(text_of(part@)));
        }
        i += 1;
    }
    assert(all.take(all.len() as int) =~= all);
    list
}

/// Whether `tree` is the tree of some paths: it is well formed, and has the names of each path
/// with all directories on the way, and nothing else.
pub open spec fn is_tree_of(tree: TreeNode, paths: Seq<Seq<u8>>) -> bool {
    &&& tree.well_formed()
    &&& forall|path: Seq<Seq<char>>| #[trigger]
        tree.has(path) <==> path.len() == 0 || exists|i: int|
            0 <= i < paths.len() && path.is_prefix_of(names(#[trigger] paths[i]))
}

/// The tree of some paths.
pub fn build_tree(paths: &[RawPath]) -> (tree: TreeNode)
    ensures
        is_tree_of(tree, raw(paths@)),
{
    let ghost all = raw(paths@);
    let mut tree = TreeNode { entries: Vec::new() };
    let mut i: usize = 0;
    while i < paths.len()
        invariant
            i <= paths@.len(),
            all == raw(paths@),
            is_tree_of(tree, all.take(i as int)),
        decreases paths@.len() - i,
    {
        let list = path_names(&paths[i]);
        let ghost before = tree;
        assert(texts(list@).skip(0) =~= texts(list@));
        tree.insert(list.as_slice(), 0);
        proof {
            let done = all.take(i as int);
            let more = all.take(i + 1);
            assert forall|path: Seq<Seq<char>>| #[trigger]
                tree.has(path) <==> path.len() == 0 || exists|k: int|
                    0 <= k < more.len() && path.is_prefix_of(names(#[trigger] more[k])) by {
                if before.has(path) && path.len() > 0 {
                    let k = choose|k: int|
                        0 <= k < done.len() && path.is_prefix_of(names(#[trigger] done[k]));
                    assert(more[k] == done[k]);
                }
                if path.is_prefix_of(texts(list@)) {
                    assert(more[i as int] == paths@[i as int]@);
                }
                if path.len() > 0 && exists|k: int|
                    0 <= k < more.len() && path.is_prefix_of(names(#[trigger] more[k])) {
                    let k = choose|k: int|
                        0 <= k < more.len() && path.is_prefix_of(names(#[trigger] more[k]));
                    if k < i {
                        assert(done[k] == more[k]);
                        assert(before.has(path));
                    }
                }
            }
        }
        i += 1;
    }
    assert(all.take(all.len() as int) =~= all);
    tree
}

/// Draws the tree below a directory, each line behind `prefix`, at the end of `out`.
pub fn print_tree(tree: &TreeNode, prefix: &str, out: &mut String)
    ensures
        final(out)@ == old(out)@ + tree.drawing(prefix@),
    decreases tree,
{
    let ghost start = out@;
    let mut i: usize = 0;
    assert(start + tree.drawing_of_first(prefix@, 0) =~= start);
    while i < tree.entries.len()
        invariant
            i <= tree.entries@.len(),
            out@ == start + tree.drawing_of_first(prefix@, i as nat),
        decreases tree.entries@.len() - i,
    {
        let entry = &tree.entries[i];
        let is_last = i + 1 == tree.entries.len();
        let ghost so_far = tree.drawing_of_first(prefix@, i as nat);
        out.append(prefix);
        out.append(
            if is_last {
                "└── "
            } else {
                "├── "
            },
        );
        out.append(entry.name.as_str());
        out.append("\n");
        let mut deeper = prefix.to_owned();
        deeper.append(
            if is_last {
                "    "
            } else {
                "│   "
            },
        );
        if entry.child.entries.len() > 0 {
            print_tree(&entry.child, deeper.as_str(), out);
        } else {
            assert(entry.child.drawing(deeper@) =~= Seq::empty());
        }
        assert(out@ =~= start + (so_far + prefix@ + connector(is_last) + entry.name@ + "\n"@
            + entry.child.drawing(deeper@)));
        i += 1;
    }
}

spec fn entry_names(tree: TreeNode) -> Seq<Seq<char>> {
    tree.entries@.map_values(|e: TreeEntry| e.name@)
}

proof fn lemma_entry_name_is_a_path(tree: TreeNode, name: Seq<char>)
    ensures
        entry_names(tree).contains(name) <==> tree.has(seq![name]),
{
    let path = seq![name];
    assert(path.drop_first().len() == 0);
    if entry_names(tree).contains(name) {
        let i = choose|i: int| 0 <= i < entry_names(tree).len() && entry_names(tree)[i] == name;
        assert(tree.entries@[i].name@ == path[0]);
        assert(tree.entries@[i].child.has(path.drop_first()));
    }
    if tree.has(path) {
        let i = choose|i: int|
            0 <= i < tree.entries@.len() && (#[trigger] tree.entries@[i]).name@ == path[0]
                && tree.entries@[i].child.has(path.drop_first());
        assert(entry_names(tree)[i] == name);
    }
}

/// The paths below an entry are the paths through it.
proof fn lemma_paths_below(tree: TreeNode, i: int, path: Seq<Seq<char>>)
    requires
        tree.well_formed(),
        0 <= i < tree.entries@.len(),
    ensures
        tree.entries@[i].child.has(path) <==> tree.has(seq![tree.entries@[i].name@] + path),
{
    let name = tree.entries@[i].name@;
    let whole = seq![name] + path;
    assert(whole.drop_first() =~= path);
    if tree.has(whole) {
        let k = choose|k: int|
            0 <= k < tree.entries@.len() && (#[trigger] tree.entries@[k]).name@ == whole[0]
                && tree.entries@[k].child.has(whole.drop_first());
        lemma_name_order(name, name, name);
        assert(k == i) by {
            if k < i {
                assert(name_before(tree.entries@[k].name@, tree.entries@[i].name@));
            } else if i < k {
                assert(name_before(tree.entries@[i].name@, tree.entries@[k].name@));
            }
        }
    }
    if tree.entries@[i].child.has(path) {
        assert(tree.entries@[i].name@ == whole[0]);
    }
}

/// The drawing of a tree depends on nothing but the paths in it.
pub proof fn law_same_paths_same_drawing(a: TreeNode, b: TreeNode, prefix: Seq<char>)
    requires
        a.well_formed(),
        b.well_formed(),
        forall|path: Seq<Seq<char>>| #[trigger] a.has(path) <==> b.has(path),
    ensures
        a.drawing(prefix) == b.drawing(prefix),
    decreases a, a.entries@.len() + 1,
{
    let before = |x: Seq<char>, y: Seq<char>| name_before(x, y);
    assert forall|x: Seq<char>, y: Seq<char>| #[trigger] before(x, y) implies !before(y, x) by {
        lemma_name_order(x, y, x);
    }
    assert(is_ascending(entry_names(a), before));
    assert(is_ascending(entry_names(b), before));
    assert forall|name: Seq<char>| entry_names(a).contains(name) <==> entry_names(b).contains(
        name,
    ) by {
        lemma_entry_name_is_a_path(a, name);
        lemma_entry_name_is_a_path(b, name);
        assert(a.has(seq![name]) <==> b.has(seq![name]));
    }
    lemma_ascending_lists_are_equal(entry_names(a), entry_names(b), before);
    assert(entry_names(a).len() == a.entries@.len());
    assert(entry_names(b).len() == b.entries@.len());
    lemma_same_drawing_of_first(a, b, prefix, a.entries@.len());
}

proof fn lemma_same_drawing_of_first(a: TreeNode, b: TreeNode, prefix: Seq<char>, count: nat)
    requires
        a.well_formed(),
        b.well_formed(),
        forall|path: Seq<Seq<char>>| #[trigger] a.has(path) <==> b.has(path),
        entry_names(a) == entry_names(b),
        count <= a.entries@.len(),
    ensures
        a.drawing_of_first(prefix, count) == b.drawing_of_first(prefix, count),
    decreases a, count,
{
    assert(entry_names(a).len() == a.entries@.len());
    assert(entry_names(b).len() == b.entries@.len());
    if count > 0 {
        let i = count - 1;
        let is_last = count == a.entries@.len();
        lemma_same_drawing_of_first(a, b, prefix, (count - 1) as nat);
        assert(entry_names(a)[i] == entry_names(b)[i]);
        let name = a.entries@[i].name@;
        let x = a.entries@[i].child;
        let y = b.entries@[i].child;
        assert forall|path: Seq<Seq<char>>| #[trigger] x.has(path) <==> y.has(path) by {
            lemma_paths_below(a, i, path);
            lemma_paths_below(b, i, path);
            assert(a.has(seq![name] + path) <==> b.has(seq![name] + path));
        }
        law_same_paths_same_drawing(x, y, prefix + indent(is_last));
    }
}

/// The drawing of the tree of some paths does not depend on their order, nor on how often a path
/// is listed.
pub proof fn law_drawing_ignores_order(
    a: TreeNode,
    b: TreeNode,
    paths: Seq<Seq<u8>>,
    others: Seq<Seq<u8>>,
    prefix: Seq<char>,
)
    requires
        is_tree_of(a, paths),
        is_tree_of(b, others),
        forall|path: Seq<u8>| #[trigger] paths.contains(path) <==> others.contains(path),
    ensures
        a.drawing(prefix) == b.drawing(prefix),
{
    assert forall|path: Seq<Seq<char>>| #[trigger] a.has(path) <==> b.has(path) by {
        if path.len() > 0 && a.has(path) {
            let i = choose|i: int|
                0 <= i < paths.len() && path.is_prefix_of(names(#[trigger] paths[i]));
            assert(paths.contains(paths[i]));
            let k = choose|k: int| 0 <= k < others.len() && others[k] == paths[i];
            assert(path.is_prefix_of(names(others[k])));
        }
        if path.len() > 0 && b.has(path) {
            let i = choose|i: int|
                0 <= i < others.len() && path.is_prefix_of(names(#[trigger] others[i]));
            assert(others.contains(others[i]));
            assert(paths.contains(others[i]));
            let k = choose|k: int| 0 <= k < paths.len() && paths[k] == others[i];
            assert(path.is_prefix_of(names(paths[k])));
        }
    }
    law_same_paths_same_drawing(a, b, prefix);
}

/// How many line ends a text has.
pub open spec fn line_ends(text: Seq<char>) -> nat
    decreases text.len(),
{
    if text.len() == 0 {
        0
    } else {
        line_ends(text.drop_last()) + if text.last() == '\n' {
            1nat
        } else {
            0nat
        }
    }
}

proof fn lemma_line_ends_of_concat(a: Seq<char>, b: Seq<char>)
    ensures
        line_ends(a + b) == line_ends(a) + line_ends(b),
    decreases b.len(),
{
    if b.len() == 0 {
        assert(a + b =~= a);
    } else {
        lemma_line_ends_of_concat(a, b.drop_last());
        assert((a + b).drop_last() =~= a + b.drop_last());
    }
}

impl TreeNode {
    /// How many entries the first `count` entries and the directories below them have.
    pub open spec fn size_of_first(self, count: nat) -> nat
        decreases self, count,
    {
        if count == 0 || count > self.entries@.len() {
            0
        } else {
            let child = self.entries@[count - 1].child;
            self.size_of_first((count - 1) as nat) + 1 + child.size_of_first(child.entries@.len())
        }
    }

    /// Whether no name has a line end in it.
    pub open spec fn has_plain_names(self) -> bool
        decreases self,
    {
        forall|i: int|
            0 <= i < self.entries@.len() ==> line_ends((#[trigger] self.entries@[i]).name@) == 0
                && self.entries@[i].child.has_plain_names()
    }
}

/// A drawing has one line for each entry of the tree, where no name has a line end in it.
pub proof fn law_one_line_for_each_entry(tree: TreeNode, prefix: Seq<char>)
    requires
        tree.has_plain_names(),
        line_ends(prefix) == 0,
    ensures
        line_ends(tree.drawing(prefix)) == tree.size_of_first(tree.entries@.len()),
{
    lemma_lines_of_first(tree, prefix, tree.entries@.len());
}

proof fn lemma_lines_of_first(tree: TreeNode, prefix: Seq<char>, count: nat)
    requires
        tree.has_plain_names(),
        line_ends(prefix) == 0,
        count <= tree.entries@.len(),
    ensures
        line_ends(tree.drawing_of_first(prefix, count)) == tree.size_of_first(count),
    decreases tree, count,
{
    if count > 0 {
        let entry = tree.entries@[count - 1];
        let is_last = count == tree.entries@.len();
        let before = tree.drawing_of_first(prefix, (count - 1) as nat);
        let deeper = prefix + indent(is_last);
        lemma_lines_of_first(tree, prefix, (count - 1) as nat);
        lemma_line_ends_of_literals();
        lemma_line_ends_of_concat(prefix, indent(is_last));
        lemma_lines_of_first(entry.child, deeper, entry.child.entries@.len());
        lemma_line_ends_of_concat(before, prefix);
        lemma_line_ends_of_concat(before + prefix, connector(is_last));
        lemma_line_ends_of_concat(before + prefix + connector(is_last), entry.name@);
        lemma_line_ends_of_concat(before + prefix + connector(is_last) + entry.name@, "\n"@);
        lemma_line_ends_of_concat(
            before + prefix + connector(is_last) + entry.name@ + "\n"@,
            entry.child.drawing(deeper),
        );
    }
}

proof fn lemma_line_ends_of_literals()
    ensures
        line_ends("\n"@) == 1,
        forall|is_last: bool| line_ends(#[trigger] connector(is_last)) == 0,
        forall|is_last: bool| line_ends(#[trigger] indent(is_last)) == 0,
{
    reveal_strlit("\n");
    reveal_strlit("└── ");
    reveal_strlit("├── ");
    reveal_strlit("    ");
    reveal_strlit("│   ");
    reveal_with_fuel(line_ends, 5);
}

/// Some lines, each behind `head`.
pub open spec fn behind(head: Seq<char>, lines: Seq<Seq<char>>) -> Seq<Seq<char>> {
    lines.map_values(|line: Seq<char>| head + line)
}

/// Some lines one after the other, each with its line end.
pub open spec fn text_of_lines(lines: Seq<Seq<char>>) -> Seq<char>
    decreases lines.len(),
{
    if lines.len() == 0 {
        Seq::empty()
    } else {
        text_of_lines(lines.drop_last()) + lines.last() + "\n"@
    }
}

impl TreeNode {
    /// The lines of the drawing of the first `count` entries, without a prefix.
    pub open spec fn lines_of_first(self, count: nat) -> Seq<Seq<char>>
        decreases self, count,
    {
        if count == 0 || count > self.entries@.len() {
            Seq::empty()
        } else {
            let entry = self.entries@[count - 1];
            let is_last = count == self.entries@.len();
            self.lines_of_first((count - 1) as nat).push(connector(is_last) + entry.name@)
                + behind(
                indent(is_last),
                entry.child.lines_of_first(entry.child.entries@.len()),
            )
        }
    }

    /// The lines of the drawing, without a prefix.
    pub open spec fn lines(self) -> Seq<Seq<char>> {
        self.lines_of_first(self.entries@.len())
    }
}

proof fn lemma_text_of_lines_concat(a: Seq<Seq<char>>, b: Seq<Seq<char>>)
    ensures
        text_of_lines(a + b) == text_of_lines(a) + text_of_lines(b),
    decreases b.len(),
{
    if b.len() == 0 {
        assert(a + b =~= a);
        assert(text_of_lines(a) + text_of_lines(b) =~= text_of_lines(a));
    } else {
        lemma_text_of_lines_concat(a, b.drop_last());
        assert((a + b).drop_last() =~= a + b.drop_last());
        assert(text_of_lines(a + b) =~= text_of_lines(a) + text_of_lines(b));
    }
}

/// A prefix only goes in front of each line of a drawing.
pub proof fn law_prefix_goes_before_each_line(tree: TreeNode, prefix: Seq<char>)
    ensures
        tree.drawing(prefix) == text_of_lines(behind(prefix, tree.lines())),
{
    lemma_prefix_of_first(tree, prefix, tree.entries@.len());
}

proof fn lemma_prefix_of_first(tree: TreeNode, prefix: Seq<char>, count: nat)
    requires
        count <= tree.entries@.len(),
    ensures
        tree.drawing_of_first(prefix, count) == text_of_lines(
            behind(prefix, tree.lines_of_first(count)),
        ),
    decreases tree, count,
{
    if count == 0 {
        assert(behind(prefix, tree.lines_of_first(0)).len() == 0);
    } else {
        let entry = tree.entries@[count - 1];
        let is_last = count == tree.entries@.len();
        let before = tree.lines_of_first((count - 1) as nat);
        let line = connector(is_last) + entry.name@;
        let below = entry.child.lines();
        let deeper = prefix + indent(is_last);
        lemma_prefix_of_first(tree, prefix, (count - 1) as nat);
        lemma_prefix_of_first(entry.child, deeper, entry.child.entries@.len());
        let first = behind(prefix, before).push(prefix + line);
        let second = behind(deeper, below);
        assert(behind(prefix, behind(indent(is_last), below)) =~= second) by {
            assert forall|i: int| 0 <= i < below.len() implies prefix + (indent(is_last) + below[i])
                == #[trigger] second[i] by {
                assert(prefix + (indent(is_last) + below[i]) =~= deeper + below[i]);
            }
        }
        assert(behind(prefix, tree.lines_of_first(count)) =~= first + second);
        lemma_text_of_lines_concat(first, second);
        assert(first.drop_last() =~= behind(prefix, before));
        assert(tree.drawing_of_first(prefix, count) =~= text_of_lines(first + second));
    }
}

/// The lines fix the text, and where no line has a line end in it, the text fixes the lines.
proof fn lemma_lines_are_read_back(a: Seq<Seq<char>>, b: Seq<Seq<char>>)
    requires
        forall|i: int| 0 <= i < a.len() ==> !(#[trigger] a[i]).contains('\n'),
        forall|i: int| 0 <= i < b.len() ==> !(#[trigger] b[i]).contains('\n'),
        text_of_lines(a) == text_of_lines(b),
    ensures
        a == b,
{
    let c = a.push(Seq::empty());
    let d = b.push(Seq::empty());
    lemma_text_is_join(a);
    lemma_text_is_join(b);
    assert forall|i: int| 0 <= i < c.len() implies !(#[trigger] c[i]).contains('\n') by {
        if i < a.len() {
            assert(c[i] == a[i]);
        }
    }
    assert forall|i: int| 0 <= i < d.len() implies !(#[trigger] d[i]).contains('\n') by {
        if i < b.len() {
            assert(d[i] == b[i]);
        }
    }
    law_join_then_split(c, '\n');
    law_join_then_split(d, '\n');
    assert(c.drop_last() =~= a);
    assert(d.drop_last() =~= b);
}

proof fn lemma_text_is_join(lines: Seq<Seq<char>>)
    ensures
        text_of_lines(lines) == join(lines.push(Seq::empty()), seq!['\n']),
    decreases lines.len(),
{
    reveal_strlit("\n");
    assert("\n"@ =~= seq!['\n']);
    let all = lines.push(Seq::empty());
    assert(all.drop_last() =~= lines);
    if lines.len() > 0 {
        lemma_text_is_join(lines.drop_last());
        let shorter = lines.drop_last().push(Seq::empty());
        assert(shorter.drop_last() =~= lines.drop_last());
        if lines.len() == 1 {
            assert(text_of_lines(lines.drop_last()) =~= Seq::empty());
            assert(join(lines, seq!['\n']) == lines[0]);
            assert(text_of_lines(lines) =~= lines[0] + seq!['\n'] + Seq::<char>::empty());
        } else {
            let head = join(lines.drop_last(), seq!['\n']);
            assert(join(shorter, seq!['\n']) == head + seq!['\n'] + Seq::<char>::empty());
            assert(join(lines, seq!['\n']) == head + seq!['\n'] + lines.last());
            assert(text_of_lines(lines) =~= (head + seq!['\n'] + lines.last()) + seq!['\n']
                + Seq::<char>::empty());
        }
    }
}

proof fn lemma_no_line_end(text: Seq<char>)
    requires
        line_ends(text) == 0,
    ensures
        !text.contains('\n'),
    decreases text.len(),
{
    if text.len() > 0 {
        lemma_no_line_end(text.drop_last());
        assert forall|i: int| 0 <= i < text.len() implies text[i] != '\n' by {
            if i < text.len() - 1 {
                assert(text.drop_last()[i] == text[i]);
                assert(text.drop_last().contains(text[i]));
            }
        }
    }
}

/// The lines of a tree without line ends in its names have no line ends.
proof fn lemma_plain_lines(tree: TreeNode, count: nat)
    requires
        tree.has_plain_names(),
        count <= tree.entries@.len(),
    ensures
        forall|i: int|
            0 <= i < tree.lines_of_first(count).len() ==> line_ends(
                #[trigger] tree.lines_of_first(count)[i],
            ) == 0,
    decreases tree, count,
{
    if count > 0 {
        let entry = tree.entries@[count - 1];
        let is_last = count == tree.entries@.len();
        let before = tree.lines_of_first((count - 1) as nat);
        let below = entry.child.lines();
        let all = tree.lines_of_first(count);
        lemma_plain_lines(tree, (count - 1) as nat);
        lemma_plain_lines(entry.child, entry.child.entries@.len());
        lemma_line_ends_of_literals();
        assert forall|i: int| 0 <= i < all.len() implies line_ends(#[trigger] all[i]) == 0 by {
            if i < before.len() {
                assert(all[i] == before[i]);
            } else if i == before.len() {
                lemma_line_ends_of_concat(connector(is_last), entry.name@);
            } else {
                let line = below[i - before.len() - 1];
                assert(all[i] == indent(is_last) + line);
                lemma_line_ends_of_concat(indent(is_last), line);
            }
        }
    }
}

spec fn starts_an_entry(line: Seq<char>) -> bool {
    line.len() > 0 && (line[0] == '├' || line[0] == '└')
}

proof fn lemma_line_starts()
    ensures
        forall|is_last: bool, rest: Seq<char>|
            starts_an_entry(#[trigger] (connector(is_last) + rest)),
        forall|is_last: bool, rest: Seq<char>|
            !starts_an_entry(#[trigger] (indent(is_last) + rest)),
{
    reveal_strlit("└── ");
    reveal_strlit("├── ");
    reveal_strlit("    ");
    reveal_strlit("│   ");
    assert forall|is_last: bool, rest: Seq<char>| starts_an_entry(
        #[trigger] (connector(is_last) + rest),
    ) by {
        assert((connector(is_last) + rest)[0] == connector(is_last)[0]);
    }
    assert forall|is_last: bool, rest: Seq<char>| !starts_an_entry(
        #[trigger] (indent(is_last) + rest),
    ) by {
        assert((indent(is_last) + rest)[0] == indent(is_last)[0]);
    }
}

/// What stands behind the same text is the same where the whole is.
proof fn lemma_same_rest(head: Seq<char>, a: Seq<char>, b: Seq<char>)
    requires
        head + a == head + b,
    ensures
        a == b,
{
    assert((head + a).skip(head.len() as int) =~= a);
    assert((head + b).skip(head.len() as int) =~= b);
}

proof fn lemma_same_lines_behind(head: Seq<char>, a: Seq<Seq<char>>, b: Seq<Seq<char>>)
    requires
        behind(head, a) == behind(head, b),
    ensures
        a == b,
{
    assert(behind(head, a).len() == a.len());
    assert(behind(head, b).len() == b.len());
    assert forall|i: int| 0 <= i < a.len() implies a[i] == b[i] by {
        assert(behind(head, a)[i] == head + a[i]);
        assert(behind(head, b)[i] == head + b[i]);
        lemma_same_rest(head, a[i], b[i]);
    }
    assert(a =~= b);
}

/// Trees with the same lines have the same paths.
proof fn lemma_same_lines_same_paths(a: TreeNode, b: TreeNode)
    requires
        a.lines() == b.lines(),
    ensures
        forall|path: Seq<Seq<char>>| #[trigger] a.has(path) <==> b.has(path),
    decreases a, a.entries@.len() + 1,
{
    let x = a.entries@;
    let y = b.entries@;
    lemma_same_lines_of_first(a, b, x.len(), y.len());
    assert forall|path: Seq<Seq<char>>| #[trigger] a.has(path) <==> b.has(path) by {
        if path.len() > 0 {
            let tail = path.drop_first();
            if a.has(path) {
                let i = choose|i: int|
                    0 <= i < x.len() && (#[trigger] x[i]).name@ == path[0] && x[i].child.has(tail);
                assert(y[i].name@ == path[0] && y[i].child.has(tail));
            }
            if b.has(path) {
                let i = choose|i: int|
                    0 <= i < y.len() && (#[trigger] y[i]).name@ == path[0] && y[i].child.has(tail);
                assert(x[i].name@ == path[0] && x[i].child.has(tail));
            }
        }
    }
}

/// Equal lines fix the entries that they draw: the last line that starts an entry is that of the
/// last entry, and what follows it is drawn for what lies below.
proof fn lemma_same_lines_of_first(a: TreeNode, b: TreeNode, m: nat, n: nat)
    requires
        m <= a.entries@.len(),
        n <= b.entries@.len(),
        m == a.entries@.len() <==> n == b.entries@.len(),
        a.lines_of_first(m) == b.lines_of_first(n),
    ensures
        m == n,
        forall|i: int|
            0 <= i < m ==> (#[trigger] a.entries@[i]).name@ == (#[trigger] b.entries@[i]).name@,
        forall|i: int, path: Seq<Seq<char>>|
            0 <= i < m ==> (#[trigger] a.entries@[i].child.has(path) <==> b.entries@[i].child.has(
                path,
            )),
    decreases a, m,
{
    if m > 0 && n > 0 {
        let is_last = m == a.entries@.len();
        let x = a.entries@[m - 1];
        let y = b.entries@[n - 1];
        let all = a.lines_of_first(m);
        let before_x = a.lines_of_first((m - 1) as nat);
        let before_y = b.lines_of_first((n - 1) as nat);
        let below_x = behind(indent(is_last), x.child.lines());
        let below_y = behind(indent(is_last), y.child.lines());
        let p = before_x.len() as int;
        let q = before_y.len() as int;
        lemma_line_starts();
        assert(all == before_x.push(connector(is_last) + x.name@) + below_x);
        assert(all == before_y.push(connector(is_last) + y.name@) + below_y);
        assert(all[p] == connector(is_last) + x.name@);
        assert(all[q] == connector(is_last) + y.name@);
        assert(p == q) by {
            if p < q {
                assert(all[q] == below_x[q - p - 1]);
                assert(below_x[q - p - 1] == indent(is_last) + x.child.lines()[q - p - 1]);
            } else if q < p {
                assert(all[p] == below_y[p - q - 1]);
                assert(below_y[p - q - 1] == indent(is_last) + y.child.lines()[p - q - 1]);
            }
        }
        assert(all.take(p) =~= before_x);
        assert(all.take(p) =~= before_y);
        assert(all.skip(p + 1) =~= below_x);
        assert(all.skip(p + 1) =~= below_y);
        lemma_same_rest(connector(is_last), x.name@, y.name@);
        lemma_same_lines_behind(indent(is_last), x.child.lines(), y.child.lines());
        lemma_same_lines_same_paths(x.child, y.child);
        lemma_same_lines_of_first(a, b, (m - 1) as nat, (n - 1) as nat);
    } else if m > 0 {
        assert(a.lines_of_first(m).len() > 0);
    } else if n > 0 {
        assert(b.lines_of_first(n).len() > 0);
    }
}

/// The paths of a tree can be read back from its drawing, where no name has a line end in it.
pub proof fn law_drawing_tells_paths(a: TreeNode, b: TreeNode, prefix: Seq<char>)
    requires
        a.has_plain_names(),
        b.has_plain_names(),
        line_ends(prefix) == 0,
        a.drawing(prefix) == b.drawing(prefix),
    ensures
        forall|path: Seq<Seq<char>>| #[trigger] a.has(path) <==> b.has(path),
{
    law_prefix_goes_before_each_line(a, prefix);
    law_prefix_goes_before_each_line(b, prefix);
    lemma_plain_lines_behind(a, prefix);
    lemma_plain_lines_behind(b, prefix);
    lemma_lines_are_read_back(behind(prefix, a.lines()), behind(prefix, b.lines()));
    lemma_same_lines_behind(prefix, a.lines(), b.lines());
    lemma_same_lines_same_paths(a, b);
}

proof fn lemma_plain_lines_behind(tree: TreeNode, prefix: Seq<char>)
    requires
        tree.has_plain_names(),
        line_ends(prefix) == 0,
    ensures
        forall|i: int|
            0 <= i < behind(prefix, tree.lines()).len() ==> !(#[trigger] behind(
                prefix,
                tree.lines(),
            )[i]).contains('\n'),
{
    lemma_plain_lines(tree, tree.entries@.len());
    assert forall|i: int| 0 <= i < behind(prefix, tree.lines()).len() implies !(
    #[trigger] behind(prefix, tree.lines())[i]).contains('\n') by {
        lemma_line_ends_of_concat(prefix, tree.lines()[i]);
        lemma_no_line_end(prefix + tree.lines()[i]);
    }
}

/// Whether some names are those of a path or of a directory on the way to one.
pub open spec fn is_on_a_way(paths: Seq<Seq<u8>>, way: Seq<Seq<char>>) -> bool {
    way.len() > 0 && exists|i: int|
        0 <= i < paths.len() && way.is_prefix_of(names(#[trigger] paths[i]))
}

/// Whether something on a way stands behind this in the same directory.
pub open spec fn has_more_behind(paths: Seq<Seq<u8>>, way: Seq<Seq<char>>) -> bool {
    exists|name: Seq<char>|
        bytes_before(encode_utf8(way.last()), encode_utf8(name)) && #[trigger] is_on_a_way(
            paths,
            way.drop_last().push(name),
        )
}

/// What is drawn left of all that lies below this: for each directory on the way a bar that leads
/// on to what stands behind it, or a blank.
pub open spec fn margin(paths: Seq<Seq<u8>>, way: Seq<Seq<char>>) -> Seq<char>
    decreases way.len(),
{
    if way.len() == 0 {
        Seq::empty()
    } else {
        margin(paths, way.drop_last()) + if has_more_behind(paths, way) {
            "│   "@
        } else {
            "    "@
        }
    }
}

/// The line that is drawn for this: the margin of its directory, a branch that leads on or ends
/// here, and its name.
pub open spec fn line_for(paths: Seq<Seq<u8>>, way: Seq<Seq<char>>) -> Seq<char> {
    margin(paths, way.drop_last()) + (if has_more_behind(paths, way) {
        "├── "@
    } else {
        "└── "@
    }) + way.last()
}

/// Whether this is drawn above that: a directory above what lies below it, and else the one whose
/// name comes first where the ways part, by the bytes of the names.
pub open spec fn is_drawn_above(a: Seq<Seq<char>>, b: Seq<Seq<char>>) -> bool {
    exists|depth: int|
        0 <= depth <= a.len() && depth < b.len() && #[trigger] a.take(depth) == b.take(depth) && (
        depth == a.len() || bytes_before(encode_utf8(a[depth]), encode_utf8(b[depth])))
}

/// Whether a list has everything on a way once, each above what is drawn below it.
pub open spec fn lists_all_ways(list: Seq<Seq<Seq<char>>>, paths: Seq<Seq<u8>>) -> bool {
    &&& forall|way: Seq<Seq<char>>| #[trigger] list.contains(way) <==> is_on_a_way(paths, way)
    &&& forall|i: int, j: int|
        0 <= i < j < list.len() ==> is_drawn_above(#[trigger] list[i], #[trigger] list[j])
}

impl TreeNode {
    /// The ways to the first `count` entries and to what lies below them.
    spec fn ways_of_first(self, count: nat) -> Seq<Seq<Seq<char>>>
        decreases self, count,
    {
        if count == 0 || count > self.entries@.len() {
            Seq::empty()
        } else {
            let entry = self.entries@[count - 1];
            let first = seq![entry.name@];
            self.ways_of_first((count - 1) as nat).push(first) + entry.child.ways_of_first(
                entry.child.entries@.len(),
            ).map_values(|way: Seq<Seq<char>>| first + way)
        }
    }
}

/// Where the ways to one entry more are.
proof fn lemma_ways_step(tree: TreeNode, count: nat)
    requires
        0 < count <= tree.entries@.len(),
    ensures
        ({
            let entry = tree.entries@[count - 1];
            let before = tree.ways_of_first((count - 1) as nat);
            let below = entry.child.ways_of_first(entry.child.entries@.len());
            let all = tree.ways_of_first(count);
            &&& all.len() == before.len() + 1 + below.len()
            &&& forall|k: int|
                0 <= k < all.len() ==> #[trigger] all[k] == if k < before.len() {
                    before[k]
                } else if k == before.len() {
                    seq![entry.name@]
                } else {
                    seq![entry.name@] + below[k - before.len() - 1]
                }
        }),
{
}

proof fn lemma_ways_start(tree: TreeNode, count: nat)
    requires
        count <= tree.entries@.len(),
    ensures
        forall|k: int|
            0 <= k < tree.ways_of_first(count).len() ==> {
                let way = #[trigger] tree.ways_of_first(count)[k];
                way.len() > 0 && exists|i: int|
                    0 <= i < count && (#[trigger] tree.entries@[i]).name@ == way[0]
            },
    decreases count,
{
    if count > 0 {
        let entry = tree.entries@[count - 1];
        let before = tree.ways_of_first((count - 1) as nat);
        let all = tree.ways_of_first(count);
        lemma_ways_step(tree, count);
        lemma_ways_start(tree, (count - 1) as nat);
        assert forall|k: int| 0 <= k < all.len() implies {
            let way = #[trigger] all[k];
            way.len() > 0 && exists|i: int|
                0 <= i < count && (#[trigger] tree.entries@[i]).name@ == way[0]
        } by {
            if k < before.len() {
                assert(all[k] == before[k]);
            } else {
                assert(all[k][0] == entry.name@);
                assert(tree.entries@[count - 1].name@ == all[k][0]);
            }
        }
    }
}

/// The ways to the entries are listed from the top to the bottom.
proof fn lemma_ways_ascend(tree: TreeNode, count: nat)
    requires
        tree.well_formed(),
        count <= tree.entries@.len(),
    ensures
        forall|i: int, j: int|
            0 <= i < j < tree.ways_of_first(count).len() ==> is_drawn_above(
                #[trigger] tree.ways_of_first(count)[i],
                #[trigger] tree.ways_of_first(count)[j],
            ),
    decreases tree, count,
{
    if count > 0 {
        let entry = tree.entries@[count - 1];
        let name = entry.name@;
        let before = tree.ways_of_first((count - 1) as nat);
        let below = entry.child.ways_of_first(entry.child.entries@.len());
        let all = tree.ways_of_first(count);
        let p = before.len() as int;
        lemma_ways_step(tree, count);
        lemma_ways_start(tree, (count - 1) as nat);
        lemma_ways_start(entry.child, entry.child.entries@.len());
        lemma_ways_ascend(tree, (count - 1) as nat);
        lemma_ways_ascend(entry.child, entry.child.entries@.len());
        assert forall|i: int, j: int| 0 <= i < j < all.len() implies is_drawn_above(
            #[trigger] all[i],
            #[trigger] all[j],
        ) by {
            if j < p {
                assert(is_drawn_above(before[i], before[j]));
            } else if i < p {
                assert(all[i] == before[i]);
                assert(all[j][0] == name);
                let k = choose|k: int|
                    0 <= k < count - 1 && (#[trigger] tree.entries@[k]).name@ == all[i][0];
                assert(name_before(tree.entries@[k].name@, tree.entries@[count - 1].name@));
                assert(all[i].take(0) =~= all[j].take(0));
            } else if i == p {
                let way = below[j - p - 1];
                assert(all[j] == seq![name] + way);
                assert(all[i].take(1) =~= all[j].take(1));
            } else {
                let a = below[i - p - 1];
                let b = below[j - p - 1];
                assert(is_drawn_above(a, b));
                let depth = choose|depth: int|
                    0 <= depth <= a.len() && depth < b.len() && #[trigger] a.take(depth) == b.take(
                        depth,
                    ) && (depth == a.len() || bytes_before(
                        encode_utf8(a[depth]),
                        encode_utf8(b[depth]),
                    ));
                assert(all[i] == seq![name] + a);
                assert(all[j] == seq![name] + b);
                assert(all[i].take(depth + 1) =~= seq![name] + a.take(depth));
                assert(all[j].take(depth + 1) =~= seq![name] + b.take(depth));
                assert(all[i].take(depth + 1) == all[j].take(depth + 1));
                assert(all[j][depth + 1] == b[depth]);
                if depth < a.len() {
                    assert(all[i][depth + 1] == a[depth]);
                }
            }
        }
    }
}

/// The ways to the first entries are the paths through them.
proof fn lemma_ways_are_paths(tree: TreeNode, count: nat, way: Seq<Seq<char>>)
    requires
        count <= tree.entries@.len(),
    ensures
        tree.ways_of_first(count).contains(way) <==> way.len() > 0 && exists|i: int|
            0 <= i < count && (#[trigger] tree.entries@[i]).name@ == way[0]
                && tree.entries@[i].child.has(way.drop_first()),
    decreases tree, count,
{
    let all = tree.ways_of_first(count);
    if count > 0 {
        let last = count - 1;
        let entry = tree.entries@[last];
        let before = tree.ways_of_first(last as nat);
        let below = entry.child.ways_of_first(entry.child.entries@.len());
        let p = before.len() as int;
        lemma_ways_step(tree, count);
        lemma_ways_are_paths(tree, last as nat, way);
        if way.len() > 0 {
            lemma_ways_are_paths(entry.child, entry.child.entries@.len(), way.drop_first());
        }
        if all.contains(way) {
            let k = choose|k: int| 0 <= k < all.len() && all[k] == way;
            if k < p {
                assert(before[k] == way);
                assert(before.contains(way));
            } else if k == p {
                assert(way.drop_first().len() == 0);
                assert(tree.entries@[last].name@ == way[0]);
                assert(tree.entries@[last].child.has(way.drop_first()));
            } else {
                let rest = below[k - p - 1];
                assert(way.drop_first() =~= rest);
                assert(below.contains(rest));
                assert(tree.entries@[last].name@ == way[0]);
                assert(tree.entries@[last].child.has(way.drop_first()));
            }
        }
        if way.len() > 0 && exists|i: int|
            0 <= i < count && (#[trigger] tree.entries@[i]).name@ == way[0]
                && tree.entries@[i].child.has(way.drop_first()) {
            let i = choose|i: int|
                0 <= i < count && (#[trigger] tree.entries@[i]).name@ == way[0]
                    && tree.entries@[i].child.has(way.drop_first());
            let rest = way.drop_first();
            assert(way =~= seq![way[0]] + rest);
            if i < last {
                assert(before.contains(way));
                let k = choose|k: int| 0 <= k < before.len() && before[k] == way;
                assert(all[k] == way);
            } else if rest.len() == 0 {
                assert(way =~= seq![entry.name@]);
                assert(all[p] == way);
            } else {
                assert(below.contains(rest));
                let k = choose|k: int| 0 <= k < below.len() && below[k] == rest;
                assert(all[p + 1 + k] == seq![entry.name@] + below[k]);
                assert(all[p + 1 + k] == way);
            }
        }
    }
}

/// Whether an entry stands behind the entry at `place`.
proof fn lemma_more_behind(
    tree: TreeNode,
    above: Seq<Seq<char>>,
    paths: Seq<Seq<u8>>,
    place: int,
)
    requires
        tree.well_formed(),
        forall|way: Seq<Seq<char>>| #[trigger]
            tree.has(way) && way.len() > 0 ==> is_on_a_way(paths, above + way),
        forall|way: Seq<Seq<char>>| #[trigger]
            is_on_a_way(paths, above + way) && way.len() > 0 ==> tree.has(way),
        0 <= place < tree.entries@.len(),
    ensures
        has_more_behind(paths, above.push(tree.entries@[place].name@)) <==> place + 1
            < tree.entries@.len(),
{
    let name = tree.entries@[place].name@;
    let here = above.push(name);
    assert(here.drop_last() =~= above);
    if place + 1 < tree.entries@.len() {
        let next = tree.entries@[place + 1].name@;
        assert(name_before(tree.entries@[place].name@, tree.entries@[place + 1].name@));
        lemma_entry_name_is_a_path(tree, next);
        assert(entry_names(tree)[place + 1] == next);
        assert(tree.has(seq![next]));
        assert(above + seq![next] =~= above.push(next));
        assert(is_on_a_way(paths, here.drop_last().push(next)));
    }
    if has_more_behind(paths, here) {
        let next = choose|next: Seq<char>|
            bytes_before(encode_utf8(here.last()), encode_utf8(next)) && #[trigger] is_on_a_way(
                paths,
                here.drop_last().push(next),
            );
        assert(above + seq![next] =~= above.push(next));
        assert(is_on_a_way(paths, above + seq![next]));
        assert(tree.has(seq![next]));
        lemma_entry_name_is_a_path(tree, next);
        let k = choose|k: int| 0 <= k < entry_names(tree).len() && entry_names(tree)[k] == next;
        assert(tree.entries@[k].name@ == next);
        lemma_name_order(name, next, name);
        if k < place {
            assert(name_before(tree.entries@[k].name@, tree.entries@[place].name@));
        }
        assert(k > place);
    }
}

/// Each line is the line for the way in its place.
proof fn lemma_lines_for_ways(
    tree: TreeNode,
    count: nat,
    above: Seq<Seq<char>>,
    paths: Seq<Seq<u8>>,
)
    requires
        tree.well_formed(),
        forall|way: Seq<Seq<char>>| #[trigger]
            tree.has(way) && way.len() > 0 ==> is_on_a_way(paths, above + way),
        forall|way: Seq<Seq<char>>| #[trigger]
            is_on_a_way(paths, above + way) && way.len() > 0 ==> tree.has(way),
        count <= tree.entries@.len(),
    ensures
        tree.lines_of_first(count).len() == tree.ways_of_first(count).len(),
        forall|k: int|
            0 <= k < tree.lines_of_first(count).len() ==> margin(paths, above)
                + #[trigger] tree.lines_of_first(count)[k] == line_for(
                paths,
                above + tree.ways_of_first(count)[k],
            ),
    decreases tree, count,
{
    if count > 0 {
        let last = count - 1;
        let entry = tree.entries@[last];
        let name = entry.name@;
        let is_last = count == tree.entries@.len();
        let here = above.push(name);
        let before = tree.lines_of_first(last as nat);
        let ways = tree.ways_of_first(last as nat);
        let below = entry.child.lines();
        let ways_below = entry.child.ways_of_first(entry.child.entries@.len());
        let all = tree.lines_of_first(count);
        let all_ways = tree.ways_of_first(count);
        let p = before.len() as int;
        lemma_ways_step(tree, count);
        lemma_lines_for_ways(tree, last as nat, above, paths);
        lemma_more_behind(tree, above, paths, last);
        assert(here.drop_last() =~= above);
        assert(margin(paths, here) == margin(paths, above) + indent(is_last));
        assert forall|way: Seq<Seq<char>>| #[trigger]
            entry.child.has(way) && way.len() > 0 implies is_on_a_way(paths, here + way) by {
            lemma_paths_below(tree, last, way);
            assert(tree.has(seq![name] + way));
            assert(here + way =~= above + (seq![name] + way));
        }
        assert forall|way: Seq<Seq<char>>| #[trigger]
            is_on_a_way(paths, here + way) && way.len() > 0 implies entry.child.has(way) by {
            lemma_paths_below(tree, last, way);
            assert(here + way =~= above + (seq![name] + way));
            assert(is_on_a_way(paths, above + (seq![name] + way)));
            assert(tree.has(seq![name] + way));
        }
        lemma_lines_for_ways(entry.child, entry.child.entries@.len(), here, paths);
        assert(all == before.push(connector(is_last) + name) + behind(indent(is_last), below));
        assert forall|k: int| 0 <= k < all.len() implies margin(paths, above) + #[trigger] all[k]
            == line_for(paths, above + all_ways[k]) by {
            if k < p {
                assert(all[k] == before[k]);
                assert(all_ways[k] == ways[k]);
            } else if k == p {
                assert(above + all_ways[k] =~= here);
                assert(margin(paths, above) + (connector(is_last) + name) =~= margin(paths, above)
                    + connector(is_last) + name);
            } else {
                let line = below[k - p - 1];
                assert(all[k] == indent(is_last) + line);
                assert(above + all_ways[k] =~= here + ways_below[k - p - 1]);
                assert(margin(paths, above) + (indent(is_last) + line) =~= margin(paths, here)
                    + line);
            }
        }
    }
}

/// The drawing of the tree of some paths, said of the paths alone. There is one line for every name
/// on the way to a path, that of the path itself with them, each once. A directory is drawn above
/// what lies below it, and names in one directory by their bytes. A line shows the name behind a
/// branch, and left of it a bar for each directory on the way that another entry follows.
pub proof fn law_drawing_of_paths(tree: TreeNode, paths: Seq<Seq<u8>>, prefix: Seq<char>)
    requires
        is_tree_of(tree, paths),
    ensures
        exists|list: Seq<Seq<Seq<char>>>| #[trigger]
            lists_all_ways(list, paths) && tree.drawing(prefix) == join(
                list.map_values(|way: Seq<Seq<char>>| prefix + line_for(paths, way)).push(
                    Seq::empty(),
                ),
                seq!['\n'],
            ),
{
    let count = tree.entries@.len();
    let none = Seq::<Seq<char>>::empty();
    let list = tree.ways_of_first(count);
    assert forall|way: Seq<Seq<char>>| #[trigger] tree.has(way) && way.len() > 0 implies
        is_on_a_way(paths, none + way) by {
        assert(none + way =~= way);
    }
    assert forall|way: Seq<Seq<char>>| #[trigger]
        is_on_a_way(paths, none + way) && way.len() > 0 implies tree.has(way) by {
        assert(none + way =~= way);
    }
    lemma_lines_for_ways(tree, count, none, paths);
    lemma_ways_ascend(tree, count);
    assert forall|way: Seq<Seq<char>>| #[trigger] list.contains(way) <==> is_on_a_way(
        paths,
        way,
    ) by {
        lemma_ways_are_paths(tree, count, way);
        assert(tree.has(way) <==> way.len() == 0 || is_on_a_way(paths, way));
    }
    law_prefix_goes_before_each_line(tree, prefix);
    let lines = list.map_values(|way: Seq<Seq<char>>| prefix + line_for(paths, way));
    assert(behind(prefix, tree.lines()) =~= lines) by {
        assert forall|k: int| 0 <= k < list.len() implies prefix + tree.lines()[k]
            == #[trigger] lines[k] by {
            assert(none + list[k] =~= list[k]);
            assert(margin(paths, none) + tree.lines()[k] =~= tree.lines()[k]);
        }
    }
    lemma_text_is_join(lines);
    assert(lists_all_ways(list, paths));
}

/// A path of entry names with slashes between them is drawn with all its names: each of them has
/// its line, below that of the name before it.
pub proof fn law_every_entry_name_is_drawn(
    paths: Seq<Seq<u8>>,
    i: int,
    entries: Seq<Seq<u8>>,
    count: int,
)
    requires
        0 <= i < paths.len(),
        paths[i] == join(entries, seq![47u8]),
        forall|k: int|
            0 <= k < entries.len() ==> (#[trigger] entries[k]).len() > 0 && !entries[k].contains(
                47u8,
            ) && entries[k] != seq![46u8] && entries[k] != seq![46u8, 46u8],
        0 < count <= entries.len(),
    ensures
        is_on_a_way(paths, entries.take(count).map_values(|entry: Seq<u8>| text_of(entry))),
{
    law_entry_names_make_the_path(entries);
    let way = entries.take(count).map_values(|entry: Seq<u8>| text_of(entry));
    assert(way =~= names(paths[i]).subrange(0, count));
    assert(way.is_prefix_of(names(paths[i])));
}

} // verus!
