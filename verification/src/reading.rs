//! What can be read back from the objects of a repository.

use vstd::prelude::*;
use vstd::utf8::{decode_utf8, encode_utf8, encode_utf8_decode_utf8};

use crate::object::{
    hex_text, lemma_hex_injective, object_id, zlib_inflated, PackObjectKind,
};
use crate::pack::{all_sound, distinct_ids, has_id, is_sound, packed, PackedObject};
use crate::repo::{
    commit_bytes, commit_text, committed, lemma_commit_read_back, PeopleModel, RepoModel,
};
use crate::repo_path::PathModel;
use crate::tree::{
    dir_items, dir_objects, distinct_names, file_items, has_full_ids, has_plain_names,
    lemma_inserted_wf, lemma_tree_lists_all, listed, lookup, read_listing, tree_bytes, tree_id,
    tree_objects, TreeItem, TreeModel,
};

verus! {

/// The kind and the content of the first object of an id.
pub open spec fn read_object(objects: Seq<PackedObject>, id: Seq<u8>) -> Option<
    (PackObjectKind, Seq<u8>),
>
    decreases objects.len(),
{
    if objects.len() == 0 {
        None
    } else if objects[0].id == id {
        match zlib_inflated(objects[0].payload) {
            Some(data) => Some((objects[0].kind, data)),
            None => None,
        }
    } else {
        read_object(objects.drop_first(), id)
    }
}

/// No object holds other content than this under the id of this content.
pub open spec fn has_no_clash(
    objects: Seq<PackedObject>,
    kind: PackObjectKind,
    data: Seq<u8>,
) -> bool {
    forall|i: int|
        0 <= i < objects.len() && (#[trigger] objects[i]).id == object_id(kind, data)
            ==> objects[i].kind == kind && (zlib_inflated(objects[i].payload) matches Some(other)
            ==> other == data)
}

/// Content that was put into a pack is read back under its id, if no other content has that id.
pub proof fn lemma_object_read_back(
    objects: Seq<PackedObject>,
    kind: PackObjectKind,
    data: Seq<u8>,
)
    requires
        all_sound(objects),
        has_id(objects, object_id(kind, data)),
        has_no_clash(objects, kind, data),
    ensures
        read_object(objects, object_id(kind, data)) == Some((kind, data)),
    decreases objects.len(),
{
    let id = object_id(kind, data);
    let k = choose|k: int| 0 <= k < objects.len() && (#[trigger] objects[k]).id == id;
    assert(is_sound(objects[0]));
    if objects[0].id != id {
        let rest = objects.drop_first();
        assert(rest[k - 1].id == id);
        assert forall|i: int| 0 <= i < rest.len() implies is_sound(#[trigger] rest[i]) by {
            assert(is_sound(objects[i + 1]));
        }
        assert forall|i: int|
            0 <= i < rest.len() && (#[trigger] rest[i]).id == object_id(kind, data) implies rest[i].kind
            == kind && (zlib_inflated(rest[i].payload) matches Some(other) ==> other == data) by {
            assert(objects[i + 1].id == id);
        }
        lemma_object_read_back(rest, kind, data);
    }
}

/// The id in the first line of a listing for a name.
pub open spec fn find_line(lines: Seq<TreeItem>, is_tree: bool, name: Seq<u8>) -> Option<Seq<u8>>
    decreases lines.len(),
{
    if lines.len() == 0 {
        None
    } else if lines[0].is_tree == is_tree && lines[0].name == name {
        Some(lines[0].id)
    } else {
        find_line(lines.drop_first(), is_tree, name)
    }
}

proof fn lemma_find_line(lines: Seq<TreeItem>, is_tree: bool, name: Seq<u8>)
    ensures
        find_line(lines, is_tree, name) matches Some(id) ==> lines.contains(
            (TreeItem { is_tree, name, id }),
        ),
        find_line(lines, is_tree, name) is None ==> forall|id: Seq<u8>|
            !lines.contains((TreeItem { is_tree, name, id })),
    decreases lines.len(),
{
    if lines.len() > 0 {
        let rest = lines.drop_first();
        lemma_find_line(rest, is_tree, name);
        if lines[0].is_tree == is_tree && lines[0].name == name {
            assert(lines.contains(lines[0]));
        } else if let Some(id) = find_line(rest, is_tree, name) {
            let item = TreeItem { is_tree, name, id };
            let k = choose|k: int| 0 <= k < rest.len() && rest[k] == item;
            assert(lines[k + 1] == item);
        } else {
            assert forall|id: Seq<u8>| !lines.contains((TreeItem { is_tree, name, id })) by {
                let item = TreeItem { is_tree, name, id };
                if lines.contains(item) {
                    let k = choose|k: int| 0 <= k < lines.len() && lines[k] == item;
                    assert(rest[k - 1] == item);
                    assert(rest.contains(item));
                }
            }
        }
    }
}

proof fn lemma_listed_at<V>(entries: Seq<(Seq<u8>, V)>, k: int)
    requires
        distinct_names(entries),
        0 <= k < entries.len(),
    ensures
        listed(entries, entries[k].0) == Some(entries[k].1),
    decreases entries.len(),
{
    if k > 0 {
        assert(entries[0].0 != entries[k].0);
        let rest = entries.drop_first();
        assert forall|i: int, j: int| 0 <= i < j < rest.len() implies (#[trigger] rest[i]).0 != (
        #[trigger] rest[j]).0 by {
            assert(rest[i] == entries[i + 1] && rest[j] == entries[j + 1]);
        }
        lemma_listed_at(rest, k - 1);
    }
}

proof fn lemma_listed_nowhere<V>(entries: Seq<(Seq<u8>, V)>, name: Seq<u8>)
    requires
        forall|k: int| 0 <= k < entries.len() ==> (#[trigger] entries[k]).0 != name,
    ensures
        listed(entries, name) is None,
    decreases entries.len(),
{
    if entries.len() > 0 {
        let rest = entries.drop_first();
        assert(entries[0].0 != name);
        assert forall|k: int| 0 <= k < rest.len() implies (#[trigger] rest[k]).0 != name by {
            assert(rest[k] == entries[k + 1]);
        }
        lemma_listed_nowhere(rest, name);
    }
}

/// No object holds other content under the id of the tree object of this directory or of one below.
pub open spec fn trees_have_no_clash(objects: Seq<PackedObject>, tree: TreeModel) -> bool
    decreases tree,
{
    &&& has_no_clash(objects, PackObjectKind::Tree, tree_bytes(tree))
    &&& forall|i: int|
        0 <= i < tree.dirs.len() ==> trees_have_no_clash(objects, (#[trigger] tree.dirs[i]).1)
}

/// The tree objects of this directory and of all below are in the pack.
pub open spec fn holds_trees(objects: Seq<PackedObject>, tree: TreeModel) -> bool
    decreases tree,
{
    &&& has_id(objects, tree_id(tree))
    &&& forall|i: int| 0 <= i < tree.dirs.len() ==> holds_trees(objects, (#[trigger] tree.dirs[i]).1)
}

proof fn lemma_dir_objects_hold(objects: Seq<PackedObject>, tree: TreeModel, n: nat, i: int)
    requires
        i < n <= tree.dirs.len(),
        0 <= i,
        forall|k: int|
            0 <= k < dir_objects(tree, n).len() ==> has_id(
                objects,
                (#[trigger] dir_objects(tree, n)[k]).id,
            ),
    ensures
        forall|k: int|
            0 <= k < tree_objects(tree.dirs[i].1).len() ==> has_id(
                objects,
                (#[trigger] tree_objects(tree.dirs[i].1)[k]).id,
            ),
    decreases n,
{
    let before = dir_objects(tree, (n - 1) as nat);
    let last = tree_objects(tree.dirs[n - 1].1);
    let all = dir_objects(tree, n);
    assert(all == before + last);
    if i == n - 1 {
        assert forall|k: int| 0 <= k < last.len() implies has_id(objects, (#[trigger] last[k]).id) by {
            assert(all[before.len() + k] == last[k]);
        }
    } else {
        assert forall|k: int| 0 <= k < before.len() implies has_id(
            objects,
            (#[trigger] before[k]).id,
        ) by {
            assert(all[k] == before[k]);
        }
        lemma_dir_objects_hold(objects, tree, (n - 1) as nat, i);
    }
}

proof fn lemma_holds_trees(objects: Seq<PackedObject>, tree: TreeModel)
    requires
        forall|k: int|
            0 <= k < tree_objects(tree).len() ==> has_id(
                objects,
                (#[trigger] tree_objects(tree)[k]).id,
            ),
    ensures
        holds_trees(objects, tree),
    decreases tree,
{
    let all = tree_objects(tree);
    let below = dir_objects(tree, tree.dirs.len());
    let own = packed(PackObjectKind::Tree, tree_bytes(tree));
    assert(all == below.push(own));
    assert(all[below.len() as int] == own);
    assert(has_id(objects, own.id));
    assert forall|i: int| 0 <= i < tree.dirs.len() implies holds_trees(
        objects,
        (#[trigger] tree.dirs[i]).1,
    ) by {
        assert forall|k: int| 0 <= k < below.len() implies has_id(
            objects,
            (#[trigger] below[k]).id,
        ) by {
            assert(all[k] == below[k]);
        }
        lemma_dir_objects_hold(objects, tree, tree.dirs.len(), i);
        lemma_holds_trees(objects, tree.dirs[i].1);
    }
}

/// The blob id at a path, found by reading one tree object after the other.
pub open spec fn read_path(objects: Seq<PackedObject>, tree: Seq<u8>, path: Seq<Seq<u8>>) -> Option<
    Seq<u8>,
>
    decreases path.len(),
{
    if path.len() == 0 {
        None
    } else {
        match read_object(objects, tree) {
            Some((PackObjectKind::Tree, data)) => match read_listing(data) {
                Some(lines) => match find_line(lines, path.len() > 1, path[0]) {
                    Some(id) => if path.len() == 1 {
                        Some(id)
                    } else {
                        read_path(objects, id, path.drop_first())
                    },
                    None => None,
                },
                None => None,
            },
            _ => None,
        }
    }
}

proof fn lemma_lines_of_tree(tree: TreeModel, name: Seq<u8>) -> (lines: Seq<TreeItem>)
    requires
        tree.wf(),
        has_full_ids(tree),
        has_plain_names(tree),
    ensures
        read_listing(tree_bytes(tree)) == Some(lines),
        find_line(lines, false, name) == listed(tree.files, name),
        find_line(lines, true, name) == (match listed(tree.dirs, name) {
            Some(below) => Some(tree_id(below)),
            None => None,
        }),
{
    let files = file_items(tree.files);
    let dirs = dir_items(tree);
    let items = files + dirs;
    let lines = read_listing(tree_bytes(tree))->0;
    lemma_tree_lists_all(tree);
    lemma_find_line(lines, false, name);
    lemma_find_line(lines, true, name);
    assert forall|item: TreeItem| lines.contains(item) == items.contains(item) by {
        lines.to_multiset_ensures();
        items.to_multiset_ensures();
        assert(lines.contains(item) == (lines.to_multiset().count(item) > 0));
        assert(items.contains(item) == (items.to_multiset().count(item) > 0));
    }
    assert forall|item: TreeItem| items.contains(item) && !item.is_tree implies exists|k: int|
        0 <= k < tree.files.len() && #[trigger] tree.files[k] == (item.name, item.id) by {
        let k = choose|k: int| 0 <= k < items.len() && items[k] == item;
        if k >= files.len() {
            assert(items[k] == dirs[k - files.len()]);
        }
        assert(items[k] == files[k]);
        assert(tree.files[k] == (item.name, item.id));
    }
    assert forall|item: TreeItem| items.contains(item) && item.is_tree implies exists|k: int|
        0 <= k < tree.dirs.len() && (#[trigger] tree.dirs[k]).0 == item.name && tree_id(
            tree.dirs[k].1,
        ) == item.id by {
        let k = choose|k: int| 0 <= k < items.len() && items[k] == item;
        if k < files.len() {
            assert(items[k] == files[k]);
        }
        assert(items[k] == dirs[k - files.len()]);
        assert(tree.dirs[k - files.len()].0 == item.name);
    }
    match find_line(lines, false, name) {
        Some(id) => {
            let item = TreeItem { is_tree: false, name, id };
            assert(items.contains(item));
            let k = choose|k: int| 0 <= k < tree.files.len() && #[trigger] tree.files[k] == (name, id);
            lemma_listed_at(tree.files, k);
        },
        None => {
            assert forall|k: int| 0 <= k < tree.files.len() implies (#[trigger] tree.files[k]).0
                != name by {
                let item = TreeItem { is_tree: false, name: tree.files[k].0, id: tree.files[k].1 };
                assert(items[k] == item);
                assert(items.contains(item));
            }
            lemma_listed_nowhere(tree.files, name);
        },
    }
    match find_line(lines, true, name) {
        Some(id) => {
            let item = TreeItem { is_tree: true, name, id };
            assert(items.contains(item));
            let k = choose|k: int|
                0 <= k < tree.dirs.len() && (#[trigger] tree.dirs[k]).0 == item.name && tree_id(
                    tree.dirs[k].1,
                ) == item.id;
            lemma_listed_at(tree.dirs, k);
        },
        None => {
            assert forall|k: int| 0 <= k < tree.dirs.len() implies (#[trigger] tree.dirs[k]).0
                != name by {
                let item = TreeItem {
                    is_tree: true,
                    name: tree.dirs[k].0,
                    id: tree_id(tree.dirs[k].1),
                };
                assert(items[files.len() + k] == dirs[k]);
                assert(dirs[k] == item);
                assert(items.contains(item));
            }
            lemma_listed_nowhere(tree.dirs, name);
        },
    }
    lines
}

/// Reading one tree object after the other finds at each path the blob id that stands there.
pub proof fn lemma_path_read_back(
    objects: Seq<PackedObject>,
    tree: TreeModel,
    path: Seq<Seq<u8>>,
)
    requires
        all_sound(objects),
        tree.wf(),
        has_full_ids(tree),
        has_plain_names(tree),
        holds_trees(objects, tree),
        trees_have_no_clash(objects, tree),
    ensures
        read_path(objects, tree_id(tree), path) == lookup(tree, path),
    decreases path.len(),
{
    if path.len() > 0 {
        lemma_object_read_back(objects, PackObjectKind::Tree, tree_bytes(tree));
        let lines = lemma_lines_of_tree(tree, path[0]);
        if path.len() > 1 {
            match listed(tree.dirs, path[0]) {
                Some(below) => {
                    lemma_listed_is_below(tree.dirs, path[0]);
                    let k = choose|k: int|
                        0 <= k < tree.dirs.len() && (#[trigger] tree.dirs[k]).1 == below;
                    assert(tree.dirs[k].1.wf());
                    assert(has_full_ids(tree.dirs[k].1));
                    assert(has_plain_names(tree.dirs[k].1));
                    assert(holds_trees(objects, tree.dirs[k].1));
                    assert(trees_have_no_clash(objects, tree.dirs[k].1));
                    lemma_path_read_back(objects, below, path.drop_first());
                },
                None => {},
            }
        }
    }
}

proof fn lemma_listed_is_below<V>(entries: Seq<(Seq<u8>, V)>, name: Seq<u8>)
    requires
        listed(entries, name) is Some,
    ensures
        exists|k: int|
            0 <= k < entries.len() && (#[trigger] entries[k]).1 == listed(entries, name)->0,
    decreases entries.len(),
{
    if entries[0].0 == name {
        assert(entries[0].1 == listed(entries, name)->0);
    } else {
        let rest = entries.drop_first();
        lemma_listed_is_below(rest, name);
        let k = choose|k: int|
            0 <= k < rest.len() && (#[trigger] rest[k]).1 == listed(rest, name)->0;
        assert(entries[k + 1].1 == listed(entries, name)->0);
    }
}

/// The tree id that the first line of a commit names.
pub open spec fn named_tree(commit: Seq<u8>) -> Seq<u8> {
    choose|id: Seq<u8>| hex_text(id) == decode_utf8(commit).subrange(5, 45)
}

/// The content of the file at a path in a commit, found by reading one object after the other.
pub open spec fn show(
    objects: Seq<PackedObject>,
    commit: Seq<u8>,
    path: Seq<Seq<u8>>,
) -> Option<Seq<u8>> {
    match read_object(objects, commit) {
        Some((PackObjectKind::Commit, data)) => match read_path(objects, named_tree(data), path) {
            Some(blob) => match read_object(objects, blob) {
                Some((PackObjectKind::Blob, content)) => Some(content),
                _ => None,
            },
            None => None,
        },
        _ => None,
    }
}

proof fn lemma_tree_named(
    tree: Seq<u8>,
    parent: Option<Seq<u8>>,
    message: Seq<char>,
    people: PeopleModel,
    epoch: int,
)
    requires
        tree.len() == 20,
    ensures
        named_tree(encode_utf8(commit_text(tree, parent, message, people, epoch))) == tree,
{
    reveal_strlit("tree ");
    let text = commit_text(tree, parent, message, people, epoch);
    encode_utf8_decode_utf8(text);
    assert(hex_text(tree).len() == 40);
    assert(text.subrange(5, 45) =~= hex_text(tree));
    let found = named_tree(encode_utf8(text));
    assert(hex_text(found) == text.subrange(5, 45));
    lemma_hex_injective(found, tree);
}

/// What a commit puts at a path is read back from the repository: from the commit by way of its
/// trees to the blob. No two contents in the pack may have the same id for that.
pub proof fn lemma_document_read_back(
    repo: RepoModel,
    path: PathModel,
    content: Seq<u8>,
    message: Seq<char>,
    people: PeopleModel,
    epoch: int,
)
    requires
        distinct_ids(repo.objects),
        repo.tree.wf(),
        ({
            let blob = packed(PackObjectKind::Blob, content);
            let now = committed(repo, path, blob, message, people, epoch);
            let commit = commit_bytes(repo, path, blob.id, message, people, epoch);
            &&& all_sound(now.objects)
            &&& has_full_ids(now.tree)
            &&& has_plain_names(now.tree)
            &&& trees_have_no_clash(now.objects, now.tree)
            &&& has_no_clash(now.objects, PackObjectKind::Commit, commit)
            &&& has_no_clash(now.objects, PackObjectKind::Blob, content)
        }),
    ensures
        ({
            let blob = packed(PackObjectKind::Blob, content);
            let now = committed(repo, path, blob, message, people, epoch);
            show(now.objects, now.parent->0, path.names()) == Some(content)
        }),
{
    let blob = packed(PackObjectKind::Blob, content);
    let now = committed(repo, path, blob, message, people, epoch);
    let commit = commit_bytes(repo, path, blob.id, message, people, epoch);
    lemma_commit_read_back(repo, path, blob, message, people, epoch, path.names());
    lemma_inserted_wf(repo.tree, path.names(), blob.id);
    lemma_holds_trees(now.objects, now.tree);
    lemma_object_read_back(now.objects, PackObjectKind::Commit, commit);
    lemma_tree_named(tree_id(now.tree), repo.parent, message, people, epoch);
    lemma_path_read_back(now.objects, now.tree, path.names());
    lemma_object_read_back(now.objects, PackObjectKind::Blob, content);
}

} // verus!
