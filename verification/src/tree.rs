//! The directory trees of a repository.

use vstd::prelude::*;
use vstd::utf8::{encode_utf8, is_ascii_chars_encode_utf8};

use crate::bytes::push_bytes;
use crate::object::{object_id, PackObjectKind};
use crate::pack::{
    added_all, all_sound, fits, lemma_added_all_in_two, lemma_added_all_keeps, lemma_fits_before_all, packed,
    PackError, PackWriter, PackedObject,
};
use crate::sort::{
    is_sorted, lemma_stable_sort_map, lemma_stable_sort_permutes, lemma_stable_sorted, sort,
    stable_sorted, Rank, Ranked,
};

verus! {

/// A directory below another one.
pub struct DirEntry {
    name: Vec<u8>,
    node: TreeNode,
}

/// A file in a directory.
pub struct FileEntry {
    name: Vec<u8>,
    sha: [u8; 20],
}

/// A directory with all that is below it. No two directories in it have the same name, and no two
/// files.
pub struct TreeNode {
    /// The directories in it, in the order in which they came.
    dirs: Vec<DirEntry>,
    /// The files in it, in the order in which they came.
    files: Vec<FileEntry>,
}

/// What a [`TreeNode`] stands for.
pub struct TreeModel {
    /// The directories in it: name and content.
    pub dirs: Seq<(Seq<u8>, TreeModel)>,
    /// The files in it: name and blob id.
    pub files: Seq<(Seq<u8>, Seq<u8>)>,
}

impl View for TreeNode {
    type V = TreeModel;

    closed spec fn view(&self) -> TreeModel {
        tree_model(*self)
    }
}

spec fn tree_model(node: TreeNode) -> TreeModel
    decreases node,
{
    TreeModel {
        dirs: Seq::new(
            node.dirs@.len(),
            |i: int|
                if 0 <= i < node.dirs@.len() {
                    (node.dirs@[i].name@, tree_model(node.dirs@[i].node))
                } else {
                    arbitrary()
                },
        ),
        files: Seq::new(
            node.files@.len(),
            |i: int| (node.files@[i].name@, node.files@[i].sha@),
        ),
    }
}

/// A directory with nothing in it.
pub open spec fn empty_tree() -> TreeModel {
    TreeModel { dirs: Seq::empty(), files: Seq::empty() }
}

/// What is listed under a name.
pub open spec fn listed<V>(entries: Seq<(Seq<u8>, V)>, name: Seq<u8>) -> Option<V>
    decreases entries.len(),
{
    if entries.len() == 0 {
        None
    } else if entries[0].0 == name {
        Some(entries[0].1)
    } else {
        listed(entries.drop_first(), name)
    }
}

/// The list with `value` under the name, in the place of what was there, or else at the end.
pub open spec fn relisted<V>(entries: Seq<(Seq<u8>, V)>, name: Seq<u8>, value: V) -> Seq<
    (Seq<u8>, V),
>
    decreases entries.len(),
{
    if entries.len() == 0 {
        seq![(name, value)]
    } else if entries[0].0 == name {
        seq![(name, value)] + entries.drop_first()
    } else {
        seq![entries[0]] + relisted(entries.drop_first(), name, value)
    }
}

/// The blob id of the file at a path.
pub open spec fn lookup(tree: TreeModel, path: Seq<Seq<u8>>) -> Option<Seq<u8>>
    decreases path.len(),
{
    if path.len() == 0 {
        None
    } else if path.len() == 1 {
        listed(tree.files, path[0])
    } else {
        match listed(tree.dirs, path[0]) {
            Some(below) => lookup(below, path.drop_first()),
            None => None,
        }
    }
}

/// The tree with a file of the given blob id at a path. Directories that the path needs come into
/// being.
pub open spec fn inserted(tree: TreeModel, path: Seq<Seq<u8>>, id: Seq<u8>) -> TreeModel
    decreases path.len(),
{
    if path.len() == 0 {
        tree
    } else if path.len() == 1 {
        TreeModel { files: relisted(tree.files, path[0], id), ..tree }
    } else {
        let below = match listed(tree.dirs, path[0]) {
            Some(below) => below,
            None => empty_tree(),
        };
        TreeModel {
            dirs: relisted(tree.dirs, path[0], inserted(below, path.drop_first(), id)),
            ..tree
        }
    }
}

/// No two entries have the same name.
pub open spec fn distinct_names<V>(entries: Seq<(Seq<u8>, V)>) -> bool {
    forall|i: int, j: int|
        0 <= i < j < entries.len() ==> (#[trigger] entries[i]).0 != (#[trigger] entries[j]).0
}

impl TreeModel {
    /// Here and in each directory below, no two directories and no two files have the same name.
    pub open spec fn wf(self) -> bool
        decreases self,
    {
        &&& distinct_names(self.files)
        &&& distinct_names(self.dirs)
        &&& forall|i: int| 0 <= i < self.dirs.len() ==> (#[trigger] self.dirs[i]).1.wf()
    }
}

/// One line of a tree object.
pub struct TreeItem {
    pub is_tree: bool,
    pub name: Seq<u8>,
    pub id: Seq<u8>,
}

/// One line of a tree object stands before another: the first byte in which the names differ
/// decides. Where one name is the beginning of the other, the line of the shorter name stands first,
/// unless it is that of a directory: then it stands before the names that go on with more than a
/// slash, and behind the others. Of a file and a directory of one name the file stands first.
pub open spec fn line_before(a_tree: bool, a: Seq<u8>, b_tree: bool, b: Seq<u8>) -> bool
    decreases a.len(),
{
    if a.len() > 0 && b.len() > 0 {
        if a[0] != b[0] {
            a[0] < b[0]
        } else {
            line_before(a_tree, a.drop_first(), b_tree, b.drop_first())
        }
    } else if a.len() > 0 {
        b_tree && a[0] <= 0x2fu8
    } else if b.len() > 0 {
        !a_tree || 0x2fu8 < b[0]
    } else {
        !a_tree && b_tree
    }
}

proof fn lemma_line_asymmetric(a_tree: bool, a: Seq<u8>, b_tree: bool, b: Seq<u8>)
    ensures
        line_before(a_tree, a, b_tree, b) ==> !line_before(b_tree, b, a_tree, a),
    decreases a.len(),
{
    if a.len() > 0 && b.len() > 0 {
        lemma_line_asymmetric(a_tree, a.drop_first(), b_tree, b.drop_first());
    }
}

proof fn lemma_line_transitive(
    a_tree: bool,
    a: Seq<u8>,
    b_tree: bool,
    b: Seq<u8>,
    c_tree: bool,
    c: Seq<u8>,
)
    ensures
        !line_before(b_tree, b, a_tree, a) && !line_before(c_tree, c, b_tree, b) ==> !line_before(
            c_tree,
            c,
            a_tree,
            a,
        ),
    decreases a.len(),
{
    if a.len() > 0 && b.len() > 0 && c.len() > 0 {
        lemma_line_transitive(
            a_tree,
            a.drop_first(),
            b_tree,
            b.drop_first(),
            c_tree,
            c.drop_first(),
        );
    }
}

proof fn lemma_line_skip(a_tree: bool, a: Seq<u8>, b_tree: bool, b: Seq<u8>, k: int)
    requires
        0 <= k <= a.len(),
        k <= b.len(),
        forall|i: int| 0 <= i < k ==> a[i] == b[i],
    ensures
        line_before(a_tree, a, b_tree, b) == line_before(a_tree, a.skip(k), b_tree, b.skip(k)),
    decreases k,
{
    if k == 0 {
        assert(a.skip(0) =~= a);
        assert(b.skip(0) =~= b);
    } else {
        lemma_line_skip(a_tree, a.drop_first(), b_tree, b.drop_first(), k - 1);
        assert(a.drop_first().skip(k - 1) =~= a.skip(k));
        assert(b.drop_first().skip(k - 1) =~= b.skip(k));
    }
}

impl Rank for TreeItem {
    open spec fn precedes(self, other: Self) -> bool {
        line_before(self.is_tree, self.name, other.is_tree, other.name)
    }

    proof fn lemma_asymmetric(a: Self, b: Self) {
        lemma_line_asymmetric(a.is_tree, a.name, b.is_tree, b.name);
    }

    proof fn lemma_transitive(a: Self, b: Self, c: Self) {
        lemma_line_transitive(a.is_tree, a.name, b.is_tree, b.name, c.is_tree, c.name);
    }
}

/// The byte of a line's name at an index. Behind the name of a directory comes a slash, behind that
/// of a file a NUL.
pub open spec fn name_byte(item: TreeItem, i: int) -> u8 {
    if i < item.name.len() {
        item.name[i]
    } else if item.is_tree {
        0x2f
    } else {
        0
    }
}

/// Two lines of a tree object are in the order of the first bytes in which their names differ, or
/// of those at the end of the shorter name where they do not differ before. Where these bytes are
/// the same, a file stands before a directory.
pub proof fn lemma_line_order(a: TreeItem, b: TreeItem, k: int)
    requires
        0 <= k <= a.name.len(),
        k <= b.name.len(),
        forall|i: int| 0 <= i < k ==> a.name[i] == b.name[i],
        k == a.name.len() || k == b.name.len() || a.name[k] != b.name[k],
    ensures
        name_byte(a, k) < name_byte(b, k) ==> a.precedes(b),
        name_byte(a, k) == name_byte(b, k) && !a.is_tree && b.is_tree ==> a.precedes(b),
{
    lemma_line_skip(a.is_tree, a.name, b.is_tree, b.name, k);
}

/// The bytes of a line of a tree object.
pub open spec fn item_bytes(item: TreeItem) -> Seq<u8> {
    (if item.is_tree {
        encode_utf8("40000 "@)
    } else {
        encode_utf8("100644 "@)
    }) + item.name + seq![0u8] + item.id
}

/// The lines of a tree object, one after the other.
pub open spec fn listing_bytes(items: Seq<TreeItem>) -> Seq<u8>
    decreases items.len(),
{
    if items.len() == 0 {
        Seq::empty()
    } else {
        listing_bytes(items.drop_last()) + item_bytes(items.last())
    }
}

/// The lines for the files of a directory.
pub open spec fn file_items(files: Seq<(Seq<u8>, Seq<u8>)>) -> Seq<TreeItem> {
    files.map_values(
        |f: (Seq<u8>, Seq<u8>)| TreeItem { is_tree: false, name: f.0, id: f.1 },
    )
}

/// The lines for the directories of a directory.
pub open spec fn dir_items(tree: TreeModel) -> Seq<TreeItem>
    decreases tree, 0nat,
{
    Seq::new(
        tree.dirs.len(),
        |i: int|
            if 0 <= i < tree.dirs.len() {
                TreeItem { is_tree: true, name: tree.dirs[i].0, id: tree_id(tree.dirs[i].1) }
            } else {
                arbitrary()
            },
    )
}

/// The content of the tree object of a directory: its lines in their order.
pub open spec fn tree_bytes(tree: TreeModel) -> Seq<u8>
    decreases tree, 1nat,
{
    listing_bytes(stable_sorted(file_items(tree.files) + dir_items(tree)))
}

/// The id of the tree object of a directory.
pub open spec fn tree_id(tree: TreeModel) -> Seq<u8>
    decreases tree, 2nat,
{
    object_id(PackObjectKind::Tree, tree_bytes(tree))
}

/// The tree objects of the first directories in a directory and of all that is below them.
pub open spec fn dir_objects(tree: TreeModel, n: nat) -> Seq<PackedObject>
    decreases tree, n,
{
    if n == 0 || n > tree.dirs.len() {
        Seq::empty()
    } else {
        dir_objects(tree, (n - 1) as nat) + tree_objects(tree.dirs[n - 1].1)
    }
}

/// The tree objects of a directory and of all that is below it, each behind those below it.
pub open spec fn tree_objects(tree: TreeModel) -> Seq<PackedObject>
    decreases tree, tree.dirs.len() + 1,
{
    dir_objects(tree, tree.dirs.len()).push(packed(PackObjectKind::Tree, tree_bytes(tree)))
}

/// Here and in each directory below, the ids of the files and of the tree object have the twenty
/// bytes of a digest.
pub open spec fn has_full_ids(tree: TreeModel) -> bool
    decreases tree,
{
    &&& tree_id(tree).len() == 20
    &&& forall|i: int| 0 <= i < tree.files.len() ==> (#[trigger] tree.files[i]).1.len() == 20
    &&& forall|i: int| 0 <= i < tree.dirs.len() ==> has_full_ids((#[trigger] tree.dirs[i]).1)
}

struct TreeEntry {
    is_tree: bool,
    name: Vec<u8>,
    sha: [u8; 20],
}

impl View for TreeEntry {
    type V = TreeItem;

    closed spec fn view(&self) -> TreeItem {
        TreeItem { is_tree: self.is_tree, name: self.name@, id: self.sha@ }
    }
}

impl Rank for TreeEntry {
    closed spec fn precedes(self, other: Self) -> bool {
        self@.precedes(other@)
    }

    proof fn lemma_asymmetric(a: Self, b: Self) {
        TreeItem::lemma_asymmetric(a@, b@);
    }

    proof fn lemma_transitive(a: Self, b: Self, c: Self) {
        TreeItem::lemma_transitive(a@, b@, c@);
    }
}

impl Ranked for TreeEntry {
    fn comes_before(&self, other: &Self) -> (r: bool) {
        let mut i: usize = 0;
        while i < self.name.len() && i < other.name.len() && self.name[i] == other.name[i]
            invariant
                i <= self.name@.len(),
                i <= other.name@.len(),
                forall|j: int| 0 <= j < i ==> self.name@[j] == other.name@[j],
            decreases self.name@.len() - i,
        {
            i += 1;
        }
        proof {
            lemma_line_skip(self.is_tree, self.name@, other.is_tree, other.name@, i as int);
        }
        if i < self.name.len() && i < other.name.len() {
            self.name[i] < other.name[i]
        } else if i < self.name.len() {
            other.is_tree && self.name[i] <= 0x2f
        } else if i < other.name.len() {
            !self.is_tree || 0x2f < other.name[i]
        } else {
            !self.is_tree && other.is_tree
        }
    }
}

/// The content of the tree object with the given lines, which come in any order.
fn tree_content(entries: Vec<TreeEntry>) -> (r: Vec<u8>)
    ensures
        r@ == listing_bytes(stable_sorted(entries@.map_values(|e: TreeEntry| e@))),
{
    let ghost all = entries@;
    let entries = sort(entries);
    let ghost views = entries@.map_values(|e: TreeEntry| e@);
    proof {
        let f = |e: TreeEntry| e@;
        assert forall|x: TreeEntry, y: TreeEntry| #[trigger]
            f(x).precedes(#[trigger] f(y)) == x.precedes(y) by {}
        lemma_stable_sort_map(entries@, all, f);
    }
    let mut body: Vec<u8> = Vec::new();
    let mut i: usize = 0;
    assert(views.take(0) =~= Seq::<TreeItem>::empty());
    while i < entries.len()
        invariant
            i <= entries@.len(),
            views == entries@.map_values(|e: TreeEntry| e@),
            body@ == listing_bytes(views.take(i as int)),
        decreases entries@.len() - i,
    {
        let ghost before = body@;
        let entry = &entries[i];
        if entry.is_tree {
            push_bytes(&mut body, "40000 ".as_bytes());
        } else {
            push_bytes(&mut body, "100644 ".as_bytes());
        }
        push_bytes(&mut body, entry.name.as_slice());
        body.push(0u8);
        push_bytes(&mut body, entry.sha.as_slice());
        proof {
            assert(views.take(i + 1).drop_last() =~= views.take(i as int));
            assert(views.take(i + 1).last() == entry@);
            assert(body@ =~= before + item_bytes(entry@));
        }
        i += 1;
    }
    assert(views.take(i as int) =~= views);
    body
}

/// Writes one tree node (and all of its children) to the pack, returning its id.
pub fn write_tree(node: &TreeNode, writer: &mut PackWriter) -> (r: Result<[u8; 20], PackError>)
    requires
        old(writer).wf(),
    ensures
        final(writer).wf(),
        final(writer).flushed() == old(writer).flushed(),
        old(writer).objects().is_prefix_of(final(writer).objects()),
        r is Ok == fits(added_all(old(writer).objects(), tree_objects(node@))),
        r matches Ok(sha) ==> sha@ == tree_id(node@) && final(writer).objects() == added_all(
            old(writer).objects(),
            tree_objects(node@),
        ),
        r is Ok ==> has_full_ids(node@),
        all_sound(old(writer).objects()) ==> all_sound(final(writer).objects()),
    decreases node,
{
    let ghost tree = node@;
    let ghost before = writer.objects();
    let mut dir_entries: Vec<TreeEntry> = Vec::new();
    let mut i: usize = 0;
    while i < node.dirs.len()
        invariant
            i <= node.dirs@.len(),
            tree == node@,
            before == old(writer).objects(),
            writer.wf(),
            writer.flushed() == old(writer).flushed(),
            writer.objects() == added_all(before, dir_objects(tree, i as nat)),
            all_sound(before) ==> all_sound(writer.objects()),
            dir_entries@.len() == i,
            forall|j: int|
                0 <= j < i ==> (#[trigger] dir_entries@[j])@ == dir_items(tree)[j],
            forall|j: int| 0 <= j < i ==> has_full_ids((#[trigger] tree.dirs[j]).1),
        decreases node.dirs@.len() - i,
    {
        let child = &node.dirs[i];
        let ghost done = dir_objects(tree, i as nat);
        let ghost more = tree_objects(child.node@);
        assert(tree.dirs[i as int] == (child.name@, child.node@));
        assert(dir_objects(tree, (i + 1) as nat) == done + more);
        proof {
            lemma_added_all_in_two(before, done, more);
        }
        match write_tree(&child.node, writer) {
            Ok(sha) => {
                let mut name: Vec<u8> = Vec::new();
                push_bytes(&mut name, child.name.as_slice());
                assert(name@ =~= child.name@);
                dir_entries.push(TreeEntry { is_tree: true, name, sha });
            },
            Err(error) => {
                proof {
                    lemma_added_all_keeps(before, done);
                    if fits(added_all(before, tree_objects(tree))) {
                        lemma_dir_objects_fit(before, tree, (i + 1) as nat);
                    }
                }
                return Err(error);
            },
        }
        i += 1;
    }
    let mut entries: Vec<TreeEntry> = Vec::new();
    let mut k: usize = 0;
    while k < node.files.len()
        invariant
            k <= node.files@.len(),
            tree == node@,
            entries@.len() == k,
            forall|j: int|
                0 <= j < k ==> (#[trigger] entries@[j])@ == file_items(tree.files)[j],
        decreases node.files@.len() - k,
    {
        let file = &node.files[k];
        let mut name: Vec<u8> = Vec::new();
        push_bytes(&mut name, file.name.as_slice());
        assert(name@ =~= file.name@);
        entries.push(TreeEntry { is_tree: false, name, sha: file.sha });
        k += 1;
    }
    entries.append(&mut dir_entries);
    assert(entries@.map_values(|e: TreeEntry| e@) =~= file_items(tree.files) + dir_items(tree));
    let body = tree_content(entries);
    assert(body@ == tree_bytes(tree));
    proof {
        let done = dir_objects(tree, tree.dirs.len());
        let last = packed(PackObjectKind::Tree, tree_bytes(tree));
        assert(tree_objects(tree).drop_last() =~= done);
        assert(tree_objects(tree).last() == last);
        lemma_added_all_keeps(before, done);
        lemma_added_all_keeps(before, tree_objects(tree));
    }
    match writer.write_object(PackObjectKind::Tree, body.as_slice()) {
        Ok(sha) => {
            assert(tree_id(tree) == sha@);
            assert forall|j: int| 0 <= j < tree.files.len() implies (#[trigger] tree.files[j]).1.len()
                == 20 by {
                assert(tree.files[j].1 == node.files@[j].sha@);
            }
            Ok(sha)
        },
        Err(error) => Err(error),
    }
}

proof fn lemma_dir_objects_fit(objects: Seq<PackedObject>, tree: TreeModel, n: nat)
    requires
        n <= tree.dirs.len(),
        fits(added_all(objects, tree_objects(tree))),
    ensures
        fits(added_all(objects, dir_objects(tree, n))),
    decreases tree.dirs.len() - n,
{
    if n == tree.dirs.len() {
        let done = dir_objects(tree, n);
        let last = seq![packed(PackObjectKind::Tree, tree_bytes(tree))];
        assert(tree_objects(tree) =~= done + last);
        lemma_added_all_in_two(objects, done, last);
        lemma_fits_before_all(added_all(objects, done), last);
    } else {
        lemma_dir_objects_fit(objects, tree, n + 1);
        let done = dir_objects(tree, n);
        let more = tree_objects(tree.dirs[n as int].1);
        assert(dir_objects(tree, n + 1) == done + more);
        lemma_added_all_in_two(objects, done, more);
        lemma_fits_before_all(added_all(objects, done), more);
    }
}

impl TreeNode {
    /// Creates an empty directory.
    pub fn new() -> (r: Self)
        ensures
            r@ == empty_tree(),
            r@.wf(),
    {
        let r = TreeNode { dirs: Vec::new(), files: Vec::new() };
        assert(r@.dirs =~= empty_tree().dirs);
        assert(r@.files =~= empty_tree().files);
        r
    }
}

proof fn lemma_relisted_at<V>(entries: Seq<(Seq<u8>, V)>, name: Seq<u8>, value: V, k: int)
    requires
        0 <= k <= entries.len(),
        forall|j: int| 0 <= j < k ==> (#[trigger] entries[j]).0 != name,
        k < entries.len() ==> entries[k].0 == name,
    ensures
        relisted(entries, name, value) == (if k < entries.len() {
            entries.update(k, (name, value))
        } else {
            entries.push((name, value))
        }),
        listed(entries, name) == (if k < entries.len() {
            Some(entries[k].1)
        } else {
            None
        }),
    decreases entries.len(),
{
    if entries.len() == 0 {
        assert(relisted(entries, name, value) =~= entries.push((name, value)));
    } else if k == 0 {
        assert(relisted(entries, name, value) =~= entries.update(0, (name, value)));
    } else {
        let rest = entries.drop_first();
        assert forall|j: int| 0 <= j < k - 1 implies (#[trigger] rest[j]).0 != name by {
            assert(rest[j] == entries[j + 1]);
        }
        assert(entries[0].0 != name);
        lemma_relisted_at(rest, name, value, k - 1);
        if k < entries.len() {
            assert(relisted(entries, name, value) =~= entries.update(k, (name, value)));
        } else {
            assert(relisted(entries, name, value) =~= entries.push((name, value)));
        }
    }
}

fn same_bytes(a: &Vec<u8>, b: &Vec<u8>) -> (r: bool)
    ensures
        r == (a@ == b@),
{
    if a.len() != b.len() {
        return false;
    }
    let mut i: usize = 0;
    while i < a.len()
        invariant
            i <= a@.len(),
            a@.len() == b@.len(),
            forall|j: int| 0 <= j < i ==> a@[j] == b@[j],
        decreases a@.len() - i,
    {
        if a[i] != b[i] {
            return false;
        }
        i += 1;
    }
    assert(a@ =~= b@);
    true
}

impl TreeNode {
    /// Inserts a leaf blob at the path made of the names from `at` on.
    pub fn insert(&mut self, path: &Vec<Vec<u8>>, at: usize, sha: [u8; 20])
        requires
            at < path@.len(),
        ensures
            final(self)@ == inserted(
                old(self)@,
                path_bytes(path@).skip(at as int),
                sha@,
            ),
            old(self)@.wf() ==> final(self)@.wf(),
        decreases path@.len() - at,
    {
        let ghost names = path_bytes(path@).skip(at as int);
        proof {
            if self@.wf() {
                lemma_inserted_wf(self@, names, sha@);
            }
        }
        let name = &path[at];
        assert(names[0] == name@);
        if at == path.len() - 1 {
            let mut k: usize = 0;
            while k < self.files.len() && !same_bytes(&self.files[k].name, name)
                invariant
                    k <= self.files@.len(),
                    *self == *old(self),
                    forall|j: int| 0 <= j < k ==> (#[trigger] self@.files[j]).0 != name@,
                decreases self.files@.len() - k,
            {
                assert(self@.files[k as int].0 == self.files@[k as int].name@);
                k += 1;
            }
            proof {
                lemma_relisted_at(self@.files, name@, sha@, k as int);
            }
            let mut copy: Vec<u8> = Vec::new();
            push_bytes(&mut copy, name.as_slice());
            assert(copy@ =~= name@);
            if k < self.files.len() {
                self.files[k].sha = sha;
            } else {
                self.files.push(FileEntry { name: copy, sha });
            }
            assert(self@.files =~= relisted(old(self)@.files, name@, sha@));
            assert(self@.dirs =~= old(self)@.dirs);
        } else {
            let mut k: usize = 0;
            while k < self.dirs.len() && !same_bytes(&self.dirs[k].name, name)
                invariant
                    k <= self.dirs@.len(),
                    *self == *old(self),
                    forall|j: int| 0 <= j < k ==> (#[trigger] self@.dirs[j]).0 != name@,
                decreases self.dirs@.len() - k,
            {
                assert(self@.dirs[k as int].0 == self.dirs@[k as int].name@);
                k += 1;
            }
            if k == self.dirs.len() {
                let mut copy: Vec<u8> = Vec::new();
                push_bytes(&mut copy, name.as_slice());
                assert(copy@ =~= name@);
                self.dirs.push(DirEntry { name: copy, node: TreeNode::new() });
            }
            let ghost mid = *self;
            let ghost below = mid.dirs@[k as int].node@;
            self.dirs[k].node.insert(path, at + 1, sha);
            proof {
                assert(names.drop_first() =~= path_bytes(path@).skip(at + 1));
                let sub = inserted(below, names.drop_first(), sha@);
                lemma_relisted_at(old(self)@.dirs, name@, sub, k as int);
                assert(self@.dirs =~= relisted(old(self)@.dirs, name@, sub));
                assert(self@.files =~= old(self)@.files);
            }
        }
    }
}

/// The names along a path.
pub open spec fn path_bytes(path: Seq<Vec<u8>>) -> Seq<Seq<u8>> {
    path.map_values(|name: Vec<u8>| name@)
}

proof fn lemma_listed<V>(entries: Seq<(Seq<u8>, V)>, name: Seq<u8>)
    ensures
        listed(entries, name) is Some ==> exists|k: int|
            0 <= k < entries.len() && (#[trigger] entries[k]) == (name, listed(entries, name)->0),
        listed(entries, name) is None ==> forall|k: int|
            0 <= k < entries.len() ==> (#[trigger] entries[k]).0 != name,
    decreases entries.len(),
{
    if entries.len() > 0 {
        let rest = entries.drop_first();
        lemma_listed(rest, name);
        if entries[0].0 == name {
            assert(entries[0] == (name, listed(entries, name)->0));
        } else if listed(rest, name) is Some {
            let k = choose|k: int|
                0 <= k < rest.len() && (#[trigger] rest[k]) == (name, listed(rest, name)->0);
            assert(entries[k + 1] == (name, listed(entries, name)->0));
        } else {
            assert forall|k: int| 0 <= k < entries.len() implies (#[trigger] entries[k]).0
                != name by {
                if k > 0 {
                    assert(rest[k - 1] == entries[k]);
                }
            }
        }
    }
}

proof fn lemma_relisted<V>(entries: Seq<(Seq<u8>, V)>, name: Seq<u8>, value: V, other: Seq<u8>)
    ensures
        listed(relisted(entries, name, value), other) == (if other == name {
            Some(value)
        } else {
            listed(entries, other)
        }),
    decreases entries.len(),
{
    let now = relisted(entries, name, value);
    if entries.len() == 0 {
        assert(now.drop_first() =~= Seq::<(Seq<u8>, V)>::empty());
        assert(listed(now.drop_first(), other) is None);
    } else if entries[0].0 == name {
        assert(now.drop_first() =~= entries.drop_first());
    } else {
        lemma_relisted(entries.drop_first(), name, value, other);
        assert(now.drop_first() =~= relisted(entries.drop_first(), name, value));
    }
}

proof fn lemma_relisted_members<V>(
    entries: Seq<(Seq<u8>, V)>,
    name: Seq<u8>,
    value: V,
    i: int,
)
    requires
        0 <= i < relisted(entries, name, value).len(),
    ensures
        relisted(entries, name, value)[i] == (name, value) || (exists|k: int|
            0 <= k < entries.len() && (#[trigger] entries[k]) == relisted(
                entries,
                name,
                value,
            )[i]),
    decreases entries.len(),
{
    let now = relisted(entries, name, value);
    if entries.len() > 0 {
        if entries[0].0 == name {
            if i > 0 {
                assert(entries[i] == now[i]);
            }
        } else {
            let rest = entries.drop_first();
            if i == 0 {
                assert(entries[0] == now[0]);
            } else {
                lemma_relisted_members(rest, name, value, i - 1);
                assert(now[i] == relisted(rest, name, value)[i - 1]);
                if now[i] != (name, value) {
                    let k = choose|k: int|
                        0 <= k < rest.len() && (#[trigger] rest[k]) == relisted(
                            rest,
                            name,
                            value,
                        )[i - 1];
                    assert(entries[k + 1] == now[i]);
                }
            }
        }
    }
}

proof fn lemma_relisted_distinct<V>(entries: Seq<(Seq<u8>, V)>, name: Seq<u8>, value: V)
    requires
        distinct_names(entries),
    ensures
        distinct_names(relisted(entries, name, value)),
    decreases entries.len(),
{
    let now = relisted(entries, name, value);
    if entries.len() > 0 {
        let rest = entries.drop_first();
        assert forall|i: int, j: int| 0 <= i < j < rest.len() implies (#[trigger] rest[i]).0 != (
        #[trigger] rest[j]).0 by {
            assert(rest[i] == entries[i + 1] && rest[j] == entries[j + 1]);
        }
        if entries[0].0 == name {
            assert forall|i: int, j: int| 0 <= i < j < now.len() implies (#[trigger] now[i]).0 != (
            #[trigger] now[j]).0 by {
                assert(now[j] == entries[j]);
                assert(now[i].0 == entries[i].0);
            }
        } else {
            lemma_relisted_distinct(rest, name, value);
            let tail = relisted(rest, name, value);
            assert forall|i: int, j: int| 0 <= i < j < now.len() implies (#[trigger] now[i]).0 != (
            #[trigger] now[j]).0 by {
                assert(now[j] == tail[j - 1]);
                if i > 0 {
                    assert(now[i] == tail[i - 1]);
                } else {
                    lemma_relisted_members(rest, name, value, j - 1);
                    if tail[j - 1] != (name, value) {
                        let k = choose|k: int|
                            0 <= k < rest.len() && (#[trigger] rest[k]) == tail[j - 1];
                        assert(entries[k + 1] == tail[j - 1]);
                        assert(entries[0].0 != entries[k + 1].0);
                    }
                }
            }
        }
    }
}

/// No two directories and no two files of one directory have the same name after an insertion if
/// none had before.
pub proof fn lemma_inserted_wf(tree: TreeModel, path: Seq<Seq<u8>>, id: Seq<u8>)
    requires
        tree.wf(),
    ensures
        inserted(tree, path, id).wf(),
    decreases path.len(),
{
    if path.len() == 1 {
        lemma_relisted_distinct(tree.files, path[0], id);
    } else if path.len() > 1 {
        let below = match listed(tree.dirs, path[0]) {
            Some(below) => below,
            None => empty_tree(),
        };
        lemma_listed(tree.dirs, path[0]);
        if listed(tree.dirs, path[0]) is Some {
            let k = choose|k: int|
                0 <= k < tree.dirs.len() && (#[trigger] tree.dirs[k]) == (
                    path[0],
                    listed(tree.dirs, path[0])->0,
                );
            assert(tree.dirs[k].1.wf());
        }
        lemma_inserted_wf(below, path.drop_first(), id);
        let sub = inserted(below, path.drop_first(), id);
        lemma_relisted_distinct(tree.dirs, path[0], sub);
        let now = inserted(tree, path, id);
        assert forall|i: int| 0 <= i < now.dirs.len() implies (#[trigger] now.dirs[i]).1.wf() by {
            lemma_relisted_members(tree.dirs, path[0], sub, i);
            if now.dirs[i] != (path[0], sub) {
                let k = choose|k: int|
                    0 <= k < tree.dirs.len() && (#[trigger] tree.dirs[k]) == now.dirs[i];
                assert(tree.dirs[k].1.wf());
            }
        }
    }
}

/// A file that was inserted is found at its path, and every other path shows what it showed
/// before.
pub proof fn lemma_lookup_inserted(
    tree: TreeModel,
    path: Seq<Seq<u8>>,
    id: Seq<u8>,
    other: Seq<Seq<u8>>,
)
    requires
        path.len() > 0,
    ensures
        lookup(inserted(tree, path, id), path) == Some(id),
        other != path ==> lookup(inserted(tree, path, id), other) == lookup(tree, other),
    decreases path.len(),
{
    if path.len() == 1 {
        lemma_relisted(tree.files, path[0], id, path[0]);
        if other.len() == 1 {
            lemma_relisted(tree.files, path[0], id, other[0]);
            if other[0] == path[0] {
                assert(other =~= path);
            }
        }
    } else {
        let below = match listed(tree.dirs, path[0]) {
            Some(below) => below,
            None => empty_tree(),
        };
        let sub = inserted(below, path.drop_first(), id);
        lemma_relisted(tree.dirs, path[0], sub, path[0]);
        lemma_lookup_inserted(below, path.drop_first(), id, other.drop_first());
        if other.len() > 1 {
            lemma_relisted(tree.dirs, path[0], sub, other[0]);
            if other[0] == path[0] && other != path {
                if other.drop_first() == path.drop_first() {
                    assert(other =~= seq![other[0]] + other.drop_first());
                    assert(path =~= seq![path[0]] + path.drop_first());
                }
                if listed(tree.dirs, path[0]) is None {
                    lemma_lookup_empty(other.drop_first());
                }
            }
        }
    }
}

proof fn lemma_lookup_empty(path: Seq<Seq<u8>>)
    ensures
        lookup(empty_tree(), path) is None,
{
}

/// Reads bytes up to the first NUL: what stands before it, and what stands behind it.
pub open spec fn read_name(bytes: Seq<u8>) -> Option<(Seq<u8>, Seq<u8>)>
    decreases bytes.len(),
{
    if bytes.len() == 0 {
        None
    } else if bytes[0] == 0 {
        Some((Seq::empty(), bytes.skip(1)))
    } else {
        match read_name(bytes.skip(1)) {
            Some((name, rest)) => Some((seq![bytes[0]] + name, rest)),
            None => None,
        }
    }
}

/// Reads the name and the id of a line of a tree object, behind its mode.
pub open spec fn read_entry(is_tree: bool, bytes: Seq<u8>) -> Option<(TreeItem, Seq<u8>)> {
    match read_name(bytes) {
        Some((name, rest)) => if rest.len() < 20 {
            None
        } else {
            Some((TreeItem { is_tree, name, id: rest.take(20) }, rest.skip(20)))
        },
        None => None,
    }
}

/// Reads a line of a tree object.
pub open spec fn read_item(bytes: Seq<u8>) -> Option<(TreeItem, Seq<u8>)> {
    if encode_utf8("40000 "@).is_prefix_of(bytes) {
        read_entry(true, bytes.skip(6))
    } else if encode_utf8("100644 "@).is_prefix_of(bytes) {
        read_entry(false, bytes.skip(7))
    } else {
        None
    }
}

/// Reads all lines of a tree object.
pub open spec fn read_listing(bytes: Seq<u8>) -> Option<Seq<TreeItem>>
    decreases bytes.len(),
{
    if bytes.len() == 0 {
        Some(Seq::empty())
    } else {
        match read_item(bytes) {
            Some((item, rest)) => if rest.len() < bytes.len() {
                match read_listing(rest) {
                    Some(more) => Some(seq![item] + more),
                    None => None,
                }
            } else {
                None
            },
            None => None,
        }
    }
}

/// The line can be told from the next one: its name holds no NUL, and its id has twenty bytes.
pub open spec fn is_listable(item: TreeItem) -> bool {
    !item.name.contains(0u8) && item.id.len() == 20
}

proof fn lemma_name_read_back(name: Seq<u8>, rest: Seq<u8>)
    requires
        !name.contains(0u8),
    ensures
        read_name(name + seq![0u8] + rest) == Some((name, rest)),
    decreases name.len(),
{
    let bytes = name + seq![0u8] + rest;
    if name.len() == 0 {
        assert(bytes.skip(1) =~= rest);
        assert(name =~= Seq::<u8>::empty());
    } else {
        let tail = name.drop_first();
        assert(name.contains(name[0]));
        assert forall|i: int| 0 <= i < tail.len() implies #[trigger] tail[i] != 0u8 by {
            assert(name.contains(name[i + 1]));
        }
        lemma_name_read_back(tail, rest);
        assert(bytes.skip(1) =~= tail + seq![0u8] + rest);
        assert(seq![bytes[0]] + tail =~= name);
    }
}

proof fn lemma_modes()
    ensures
        encode_utf8("40000 "@).len() == 6,
        encode_utf8("100644 "@).len() == 7,
        encode_utf8("40000 "@)[0] != encode_utf8("100644 "@)[0],
{
    reveal_strlit("40000 ");
    reveal_strlit("100644 ");
    is_ascii_chars_encode_utf8("40000 "@);
    is_ascii_chars_encode_utf8("100644 "@);
}

proof fn lemma_item_read_back(item: TreeItem, rest: Seq<u8>)
    requires
        is_listable(item),
    ensures
        read_item(item_bytes(item) + rest) == Some((item, rest)),
        item_bytes(item).len() > 0,
{
    lemma_modes();
    let bytes = item_bytes(item) + rest;
    let tree_mode = encode_utf8("40000 "@);
    let file_mode = encode_utf8("100644 "@);
    let mode = if item.is_tree {
        tree_mode
    } else {
        file_mode
    };
    let tail = item.name + seq![0u8] + (item.id + rest);
    assert(bytes =~= mode + tail);
    assert(mode.is_prefix_of(bytes));
    assert(bytes[0] == mode[0]);
    assert(bytes.skip(mode.len() as int) =~= tail);
    lemma_name_read_back(item.name, item.id + rest);
    assert((item.id + rest).take(20) =~= item.id);
    assert((item.id + rest).skip(20) =~= rest);
}

proof fn lemma_listing_first(items: Seq<TreeItem>)
    requires
        items.len() > 0,
    ensures
        listing_bytes(items) == item_bytes(items[0]) + listing_bytes(items.drop_first()),
    decreases items.len(),
{
    if items.len() == 1 {
        assert(items.drop_last() =~= Seq::<TreeItem>::empty());
        assert(items.drop_first() =~= Seq::<TreeItem>::empty());
        assert(listing_bytes(items) =~= item_bytes(items[0]) + listing_bytes(items.drop_first()));
    } else {
        lemma_listing_first(items.drop_last());
        assert(items.drop_last().drop_first() =~= items.drop_first().drop_last());
        assert(listing_bytes(items) =~= item_bytes(items[0]) + listing_bytes(items.drop_first()));
    }
}

proof fn lemma_line_read_back(item: TreeItem, tail: Seq<u8>, more: Seq<TreeItem>)
    requires
        is_listable(item),
        read_listing(tail) == Some(more),
    ensures
        read_listing(item_bytes(item) + tail) == Some(seq![item] + more),
{
    lemma_item_read_back(item, tail);
    let bytes = item_bytes(item) + tail;
    assert(bytes.len() > tail.len());
}

/// The lines of a tree object can be read back from its content.
#[verifier::spinoff_prover]
pub proof fn lemma_listing_read_back(items: Seq<TreeItem>)
    requires
        forall|i: int| 0 <= i < items.len() ==> is_listable(#[trigger] items[i]),
    ensures
        read_listing(listing_bytes(items)) == Some(items),
    decreases items.len(),
{
    if items.len() == 0 {
        assert(items =~= Seq::<TreeItem>::empty());
    } else {
        let rest = items.drop_first();
        assert forall|i: int| 0 <= i < rest.len() implies is_listable(#[trigger] rest[i]) by {
            assert(rest[i] == items[i + 1]);
        }
        assert(is_listable(items[0]));
        lemma_listing_read_back(rest);
        lemma_listing_first(items);
        lemma_line_read_back(items[0], listing_bytes(rest), rest);
        assert(seq![items[0]] + rest =~= items);
    }
}

/// Here and in each directory below, no name holds a NUL, which ends a name in a tree object.
pub open spec fn has_plain_names(tree: TreeModel) -> bool
    decreases tree,
{
    &&& forall|i: int| 0 <= i < tree.files.len() ==> !(#[trigger] tree.files[i]).0.contains(0u8)
    &&& forall|i: int|
        0 <= i < tree.dirs.len() ==> !(#[trigger] tree.dirs[i]).0.contains(0u8) && has_plain_names(
            tree.dirs[i].1,
        )
}

/// No name holds a NUL after an insertion if none did before and none along the path does.
pub proof fn lemma_inserted_plain(tree: TreeModel, path: Seq<Seq<u8>>, id: Seq<u8>)
    requires
        has_plain_names(tree),
        forall|i: int| 0 <= i < path.len() ==> !(#[trigger] path[i]).contains(0u8),
    ensures
        has_plain_names(inserted(tree, path, id)),
    decreases path.len(),
{
    let now = inserted(tree, path, id);
    if path.len() == 1 {
        assert forall|i: int| 0 <= i < now.files.len() implies !(#[trigger] now.files[i]).0.contains(
            0u8,
        ) by {
            lemma_relisted_members(tree.files, path[0], id, i);
        }
    } else if path.len() > 1 {
        let rest = path.drop_first();
        assert forall|i: int| 0 <= i < rest.len() implies !(#[trigger] rest[i]).contains(0u8) by {
            assert(rest[i] == path[i + 1]);
        }
        let below = match listed(tree.dirs, path[0]) {
            Some(below) => below,
            None => empty_tree(),
        };
        lemma_listed(tree.dirs, path[0]);
        assert(has_plain_names(below));
        lemma_inserted_plain(below, rest, id);
        let sub = inserted(below, rest, id);
        assert forall|i: int| 0 <= i < now.dirs.len() implies !(#[trigger] now.dirs[i]).0.contains(
            0u8,
        ) && has_plain_names(now.dirs[i].1) by {
            lemma_relisted_members(tree.dirs, path[0], sub, i);
        }
    }
}

/// The content of the tree object of a directory lists its files and directories, each once, in
/// the order of its lines.
pub proof fn lemma_tree_lists_all(tree: TreeModel)
    requires
        has_full_ids(tree),
        has_plain_names(tree),
    ensures
        read_listing(tree_bytes(tree)) matches Some(lines) && is_sorted(lines)
            && lines.to_multiset() == (file_items(tree.files) + dir_items(tree)).to_multiset(),
{
    let items = file_items(tree.files) + dir_items(tree);
    let lines = stable_sorted(items);
    lemma_stable_sorted(items);
    lemma_stable_sort_permutes(lines, items);
    assert forall|i: int| 0 <= i < lines.len() implies is_listable(#[trigger] lines[i]) by {
        broadcast use vstd::seq_lib::group_to_multiset_ensures;

        assert(lines.to_multiset().count(lines[i]) > 0) by {
            assert(lines.contains(lines[i]));
        }
        assert(items.contains(lines[i]));
        let k = choose|k: int| 0 <= k < items.len() && items[k] == lines[i];
        if k < tree.files.len() {
            assert(items[k].id == tree.files[k].1);
        } else {
            let below = tree.dirs[k - tree.files.len()];
            assert(has_full_ids(below.1));
            assert(items[k].id == tree_id(below.1));
        }
    }
    lemma_listing_read_back(lines);
}

/// A line of a tree object is the mode, which is 40000 for a directory and 100644 for a file, a space,
/// the name, a NUL and the id.
pub proof fn lemma_item_bytes(item: TreeItem)
    ensures
        item.is_tree ==> item_bytes(item) == seq![0x34u8, 0x30u8, 0x30u8, 0x30u8, 0x30u8, 0x20u8]
            + item.name + seq![0u8] + item.id,
        !item.is_tree ==> item_bytes(item) == seq![
            0x31u8,
            0x30u8,
            0x30u8,
            0x36u8,
            0x34u8,
            0x34u8,
            0x20u8,
        ] + item.name + seq![0u8] + item.id,
{
    reveal_strlit("40000 ");
    reveal_strlit("100644 ");
    is_ascii_chars_encode_utf8("40000 "@);
    is_ascii_chars_encode_utf8("100644 "@);
    assert(encode_utf8("40000 "@) =~= seq![0x34u8, 0x30u8, 0x30u8, 0x30u8, 0x30u8, 0x20u8]);
    assert(encode_utf8("100644 "@) =~= seq![
        0x31u8,
        0x30u8,
        0x30u8,
        0x36u8,
        0x34u8,
        0x34u8,
        0x20u8,
    ]);
}

/// The objects of a directory are those of the directories in it, one directory after the other, and
/// at the end its own.
pub proof fn lemma_tree_objects(tree: TreeModel, i: int)
    requires
        0 <= i < tree.dirs.len(),
    ensures
        ({
            let all = tree_objects(tree);
            let from = dir_objects(tree, i as nat).len() as int;
            let inner = tree_objects(tree.dirs[i].1);
            &&& all.last() == packed(PackObjectKind::Tree, tree_bytes(tree))
            &&& from + inner.len() < all.len()
            &&& all.subrange(from, from + inner.len()) == inner
            &&& dir_objects(tree, 0).len() == 0
            &&& i + 1 < tree.dirs.len() ==> dir_objects(tree, (i + 1) as nat).len() == from
                + inner.len()
            &&& i + 1 == tree.dirs.len() ==> all.len() == from + inner.len() + 1
        }),
{
    let from = dir_objects(tree, i as nat).len() as int;
    let inner = tree_objects(tree.dirs[i].1);
    assert(dir_objects(tree, (i + 1) as nat) == dir_objects(tree, i as nat) + inner);
    lemma_dir_objects_grow(tree, (i + 1) as nat, tree.dirs.len());
    let all = tree_objects(tree);
    let first = dir_objects(tree, (i + 1) as nat);
    let most = dir_objects(tree, tree.dirs.len());
    assert(all == most.push(packed(PackObjectKind::Tree, tree_bytes(tree))));
    assert forall|k: int| 0 <= k < inner.len() implies #[trigger] all.subrange(
        from,
        from + inner.len(),
    )[k] == inner[k] by {
        assert(first[from + k] == inner[k]);
        assert(first[from + k] == most.take(first.len() as int)[from + k]);
    }
    assert(all.subrange(from, from + inner.len()) =~= inner);
}

proof fn lemma_dir_objects_grow(tree: TreeModel, m: nat, n: nat)
    requires
        m <= n <= tree.dirs.len(),
    ensures
        dir_objects(tree, m).is_prefix_of(dir_objects(tree, n)),
    decreases n,
{
    if m < n {
        lemma_dir_objects_grow(tree, m, (n - 1) as nat);
    }
}

/// A directory without others in it has one object, its own.
pub proof fn lemma_leaf_objects(tree: TreeModel)
    requires
        tree.dirs.len() == 0,
    ensures
        tree_objects(tree) == seq![packed(PackObjectKind::Tree, tree_bytes(tree))],
{
}

} // verus!
