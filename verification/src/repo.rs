//! The history of a repository, commit by commit.

use vstd::prelude::*;
use vstd::string::StringExecFns;
use vstd::utf8::encode_utf8;

use crate::bytes::be32;
use crate::object::{hex, hex_text, object_id, precompute_blob, PackObjectKind};
use crate::pack::{
    added, added_all, all_sound, distinct_ids, fits, has_id, index_entries, is_sound,
    lemma_added_all_keeps, lemma_added_all_once, lemma_added_once, lemma_fits_before,
    lemma_fits_before_all, lemma_no_new_id, lemma_only_added, lemma_pack_wf, pack_stream, packed,
    PackError, PackWriter, PackedObject,
};
use crate::pack_index::index_file;
use crate::repo_path::{PathModel, RepoPathBuf};
use crate::text::{decimal, signed_decimal, to_decimal, to_signed_decimal};
use crate::timestamp::GitTimestampKst;
use crate::tree::{
    empty_tree, has_full_ids, inserted, lemma_lookup_inserted, lookup, path_bytes, tree_id,
    tree_objects, write_tree, TreeModel, TreeNode,
};

verus! {

/// Git identity pair used in commit objects.
#[derive(Debug, Clone, Copy)]
pub struct GitPerson<'a> {
    /// Display name in the commit header.
    pub name: &'a str,
    /// Email address in the commit header.
    pub email: &'a str,
}

/// Author/committer identities paired for one commit.
#[derive(Debug, Clone, Copy)]
pub struct CommitPeople<'a> {
    /// Author identity recorded in the commit body.
    pub author: GitPerson<'a>,
    /// Committer identity recorded in the commit body.
    pub committer: GitPerson<'a>,
}

/// What a [`GitPerson`] stands for.
pub struct PersonModel {
    pub name: Seq<char>,
    pub email: Seq<char>,
}

impl View for GitPerson<'_> {
    type V = PersonModel;

    open spec fn view(&self) -> PersonModel {
        PersonModel { name: self.name@, email: self.email@ }
    }
}

/// What a [`CommitPeople`] stands for.
pub struct PeopleModel {
    pub author: PersonModel,
    pub committer: PersonModel,
}

impl View for CommitPeople<'_> {
    type V = PeopleModel;

    open spec fn view(&self) -> PeopleModel {
        PeopleModel { author: self.author@, committer: self.committer@ }
    }
}

/// An identity with the time at which it acted, in the offset of Korea.
pub open spec fn stamp(person: PersonModel, epoch: int) -> Seq<char> {
    person.name + " <"@ + person.email + "> "@ + signed_decimal(epoch) + " +0900"@
}

/// The text of a commit object.
pub open spec fn commit_text(
    tree: Seq<u8>,
    parent: Option<Seq<u8>>,
    message: Seq<char>,
    people: PeopleModel,
    epoch: int,
) -> Seq<char> {
    "tree "@ + hex_text(tree) + "\n"@ + (match parent {
        Some(id) => "parent "@ + hex_text(id) + "\n"@,
        None => Seq::empty(),
    }) + "author "@ + stamp(people.author, epoch) + "\ncommitter "@ + stamp(
        people.committer,
        epoch,
    ) + "\n\n"@ + message
}

fn push_stamp(out: &mut String, person: GitPerson, epoch: i64)
    ensures
        final(out)@ == old(out)@ + stamp(person@, epoch as int),
{
    out.append(person.name);
    out.append(" <");
    out.append(person.email);
    out.append("> ");
    out.append(to_signed_decimal(epoch).as_str());
    out.append(" +0900");
    assert(out@ =~= old(out)@ + stamp(person@, epoch as int));
}

/// Renders the text of a commit object.
pub fn render_commit(
    tree: &[u8; 20],
    parent: &Option<[u8; 20]>,
    message: &str,
    people: CommitPeople,
    time: GitTimestampKst,
) -> (r: String)
    ensures
        r@ == commit_text(tree@, id_view(*parent), message@, people@, time@),
{
    let mut commit = "tree ".to_owned();
    commit.append(hex(tree).as_str());
    commit.append("\n");
    if let Some(id) = parent {
        commit.append("parent ");
        commit.append(hex(id).as_str());
        commit.append("\n");
    }
    commit.append("author ");
    push_stamp(&mut commit, people.author, time.epoch());
    commit.append("\ncommitter ");
    push_stamp(&mut commit, people.committer, time.epoch());
    commit.append("\n\n");
    commit.append(message);
    assert(commit@ =~= commit_text(tree@, id_view(*parent), message@, people@, time@));
    commit
}

/// The bytes of an optional object id.
pub open spec fn id_view(id: Option<[u8; 20]>) -> Option<Seq<u8>> {
    match id {
        Some(bytes) => Some(bytes@),
        None => None,
    }
}

/// What a [`BareRepoWriter`] stands for.
pub struct RepoModel {
    /// The objects in the pack.
    pub objects: Seq<PackedObject>,
    /// The files of the newest commit.
    pub tree: TreeModel,
    /// The id of the newest commit.
    pub parent: Option<Seq<u8>>,
}

/// A repository without commits.
pub open spec fn empty_repo() -> RepoModel {
    RepoModel { objects: Seq::empty(), tree: empty_tree(), parent: None }
}

/// The content of the commit that puts a blob at a path.
pub open spec fn commit_bytes(
    repo: RepoModel,
    path: PathModel,
    blob: Seq<u8>,
    message: Seq<char>,
    people: PeopleModel,
    epoch: int,
) -> Seq<u8> {
    let tree = inserted(repo.tree, path.names(), blob);
    encode_utf8(commit_text(tree_id(tree), repo.parent, message, people, epoch))
}

/// The repository with one more commit, which puts a blob at a path.
pub open spec fn committed(
    repo: RepoModel,
    path: PathModel,
    blob: PackedObject,
    message: Seq<char>,
    people: PeopleModel,
    epoch: int,
) -> RepoModel {
    let tree = inserted(repo.tree, path.names(), blob.id);
    let commit = commit_bytes(repo, path, blob.id, message, people, epoch);
    RepoModel {
        objects: added(
            added_all(added(repo.objects, blob), tree_objects(tree)),
            packed(PackObjectKind::Commit, commit),
        ),
        tree,
        parent: Some(object_id(PackObjectKind::Commit, commit)),
    }
}

/// How a repository may be left by a commit that did not fit: unchanged where not even the blob did,
/// and else with the blob at its path and some of the new objects, but with the same newest commit.
pub open spec fn left_unfinished(
    repo: RepoModel,
    path: PathModel,
    blob: PackedObject,
    now: RepoModel,
) -> bool {
    if fits(added(repo.objects, blob)) {
        &&& added(repo.objects, blob).is_prefix_of(now.objects)
        &&& now.tree == inserted(repo.tree, path.names(), blob.id)
        &&& now.parent == repo.parent
    } else {
        now == repo
    }
}

/// The identities under which all commits are written.
pub open spec fn bot_people() -> PeopleModel {
    let bot = PersonModel { name: "legalize-kr-bot"@, email: "bot@legalize.kr"@ };
    PeopleModel { author: bot, committer: bot }
}

/// The identities under which all commits are written.
pub fn bot() -> (r: CommitPeople<'static>)
    ensures
        r@ == bot_people(),
{
    let bot = GitPerson { name: "legalize-kr-bot", email: "bot@legalize.kr" };
    CommitPeople { author: bot, committer: bot }
}

/// What a finished repository consists of, besides its pack.
pub struct FinishedRepo {
    /// The name of the pack file.
    pub pack_name: String,
    /// The name of the index file.
    pub index_name: String,
    /// The content of the index file.
    pub index: Vec<u8>,
    /// The content of `refs/heads/main`, if there is a commit.
    pub main_ref: Option<String>,
    /// The content of `HEAD`.
    pub head: String,
}

/// Collects the generated ordinance history as the objects of a fresh bare Git repository.
pub struct BareRepoWriter {
    /// Streaming pack writer used for all objects.
    writer: PackWriter,
    /// Root node of the in-memory tree state.
    root: TreeNode,
    /// Parent commit id for the next commit object.
    parent_commit: Option<[u8; 20]>,
}

impl View for BareRepoWriter {
    type V = RepoModel;

    closed spec fn view(&self) -> RepoModel {
        RepoModel {
            objects: self.writer.objects(),
            tree: self.root@,
            parent: id_view(self.parent_commit),
        }
    }
}

impl BareRepoWriter {
    /// The pack bytes that have been handed out.
    pub closed spec fn flushed(&self) -> Seq<u8> {
        self.writer.flushed()
    }

    /// The pack bytes that wait to be handed out.
    pub closed spec fn pending(&self) -> Seq<u8> {
        self.writer.pending()
    }

    /// The pack agrees with its objects, and no directory lists a name twice.
    pub closed spec fn wf(&self) -> bool {
        self.writer.wf() && self.root@.wf()
    }

    /// Creates a repository without commits.
    pub fn create() -> (r: Self)
        ensures
            r.wf(),
            r@ == empty_repo(),
            r.flushed() == Seq::<u8>::empty(),
    {
        BareRepoWriter {
            writer: PackWriter::new(),
            root: TreeNode::new(),
            parent_commit: None,
        }
    }

    /// Commits one rendered ordinance markdown file using bot authorship.
    pub fn commit_ordinance(
        &mut self,
        path: &RepoPathBuf,
        markdown: &[u8],
        blob_sha: [u8; 20],
        compressed_blob: &[u8],
        message: &str,
        time: GitTimestampKst,
    ) -> (r: Result<(), PackError>)
        requires
            old(self).wf(),
        ensures
            final(self).wf(),
            final(self).flushed() == old(self).flushed(),
            ({
                let blob = PackedObject {
                    kind: PackObjectKind::Blob,
                    size: markdown@.len(),
                    id: blob_sha@,
                    payload: compressed_blob@,
                };
                let now = committed(
                    old(self)@,
                    path@,
                    blob,
                    message@,
                    bot_people(),
                    time@,
                );
                &&& r is Ok == fits(now.objects)
                &&& r is Ok ==> final(self)@ == now && has_full_ids(now.tree)
                &&& is_sound(blob) && all_sound(old(self)@.objects) ==> all_sound(
                    final(self)@.objects,
                )
            }),
            r is Err ==> left_unfinished(
                old(self)@,
                path@,
                PackedObject {
                    kind: PackObjectKind::Blob,
                    size: markdown@.len(),
                    id: blob_sha@,
                    payload: compressed_blob@,
                },
                final(self)@,
            ),
    {
        self.commit_blob(path, markdown.len(), blob_sha, compressed_blob, message, bot(), time)
    }

    /// Commits a static repository file (used for the seed README commit).
    pub fn commit_static(
        &mut self,
        path: &RepoPathBuf,
        content: &[u8],
        message: &str,
        epoch: i64,
    ) -> (r: Result<(), PackError>)
        requires
            old(self).wf(),
        ensures
            final(self).wf(),
            final(self).flushed() == old(self).flushed(),
            ({
                let now = committed(
                    old(self)@,
                    path@,
                    packed(PackObjectKind::Blob, content@),
                    message@,
                    bot_people(),
                    epoch as int,
                );
                &&& r is Ok == fits(now.objects)
                &&& r is Ok ==> final(self)@ == now && has_full_ids(now.tree)
            }),
            r is Err ==> left_unfinished(
                old(self)@,
                path@,
                packed(PackObjectKind::Blob, content@),
                final(self)@,
            ),
            all_sound(old(self)@.objects) ==> all_sound(final(self)@.objects),
    {
        let (blob_sha, compressed_blob) = precompute_blob(content);
        self.commit_blob(
            path,
            content.len(),
            blob_sha,
            compressed_blob.as_slice(),
            message,
            bot(),
            GitTimestampKst::from_epoch(epoch),
        )
    }

    /// Commits one blob whose id and compressed payload were prepared earlier.
    fn commit_blob(
        &mut self,
        path: &RepoPathBuf,
        size: usize,
        blob_sha: [u8; 20],
        compressed_blob: &[u8],
        message: &str,
        people: CommitPeople,
        time: GitTimestampKst,
    ) -> (r: Result<(), PackError>)
        requires
            old(self).wf(),
        ensures
            final(self).wf(),
            final(self).flushed() == old(self).flushed(),
            ({
                let blob = PackedObject {
                    kind: PackObjectKind::Blob,
                    size: size as nat,
                    id: blob_sha@,
                    payload: compressed_blob@,
                };
                let now = committed(old(self)@, path@, blob, message@, people@, time@);
                &&& r is Ok == fits(now.objects)
                &&& r is Ok ==> final(self)@ == now && has_full_ids(now.tree)
                &&& is_sound(blob) && all_sound(old(self)@.objects) ==> all_sound(
                    final(self)@.objects,
                )
            }),
            r is Err ==> left_unfinished(
                old(self)@,
                path@,
                PackedObject {
                    kind: PackObjectKind::Blob,
                    size: size as nat,
                    id: blob_sha@,
                    payload: compressed_blob@,
                },
                final(self)@,
            ),
    {
        let ghost blob = PackedObject {
            kind: PackObjectKind::Blob,
            size: size as nat,
            id: blob_sha@,
            payload: compressed_blob@,
        };
        let ghost objects = self.writer.objects();
        let ghost tree = inserted(self.root@, path@.names(), blob_sha@);
        let ghost with_blob = added(objects, blob);
        let ghost with_trees = added_all(with_blob, tree_objects(tree));
        let ghost commit = commit_bytes(self@, path@, blob_sha@, message@, people@, time@);
        let ghost last = packed(PackObjectKind::Commit, commit);
        proof {
            lemma_added_all_keeps(with_blob, tree_objects(tree));
            if fits(added(with_trees, last)) {
                lemma_fits_before(with_trees, last);
                lemma_fits_before_all(with_blob, tree_objects(tree));
            }
        }
        match self.writer.write_precompressed_object(
            PackObjectKind::Blob,
            size,
            blob_sha,
            compressed_blob,
        ) {
            Ok(_) => {},
            Err(error) => {
                return Err(error);
            },
        }
        self.insert_path(path, blob_sha);
        let root_sha = match self.materialize_root() {
            Ok(sha) => sha,
            Err(error) => {
                return Err(error);
            },
        };
        match self.write_commit(root_sha, message, people, time) {
            Ok(commit_sha) => {
                self.parent_commit = Some(commit_sha);
                Ok(())
            },
            Err(error) => Err(error),
        }
    }

    /// Inserts a new leaf blob into the in-memory tree at the given repo path.
    fn insert_path(&mut self, path: &RepoPathBuf, blob_sha: [u8; 20])
        requires
            old(self).wf(),
        ensures
            final(self).wf(),
            final(self).writer == old(self).writer,
            final(self).parent_commit == old(self).parent_commit,
            final(self).root@ == inserted(old(self).root@, path@.names(), blob_sha@),
    {
        let names = path.names();
        assert(path@.names().len() == path@.segments().len());
        assert(path_bytes(names@).skip(0) =~= path@.names());
        assert(path_bytes(names@).len() == names@.len());
        self.root.insert(&names, 0, blob_sha);
    }

    /// Materializes the root tree (and every subtree) and returns the root sha.
    fn materialize_root(&mut self) -> (r: Result<[u8; 20], PackError>)
        requires
            old(self).wf(),
        ensures
            final(self).wf(),
            final(self).writer.flushed() == old(self).writer.flushed(),
            final(self).root == old(self).root,
            final(self).parent_commit == old(self).parent_commit,
            old(self).writer.objects().is_prefix_of(final(self).writer.objects()),
            r is Ok == fits(added_all(old(self).writer.objects(), tree_objects(old(self).root@))),
            r matches Ok(sha) ==> sha@ == tree_id(old(self).root@)
                && final(self).writer.objects() == added_all(
                old(self).writer.objects(),
                tree_objects(old(self).root@),
            ) && has_full_ids(old(self).root@),
            all_sound(old(self).writer.objects()) ==> all_sound(final(self).writer.objects()),
    {
        write_tree(&self.root, &mut self.writer)
    }

    /// Serializes and appends one commit object to the pack stream.
    fn write_commit(
        &mut self,
        tree: [u8; 20],
        message: &str,
        people: CommitPeople,
        time: GitTimestampKst,
    ) -> (r: Result<[u8; 20], PackError>)
        requires
            old(self).wf(),
        ensures
            final(self).wf(),
            final(self).writer.flushed() == old(self).writer.flushed(),
            final(self).root == old(self).root,
            final(self).parent_commit == old(self).parent_commit,
            ({
                let commit = encode_utf8(
                    commit_text(tree@, id_view(old(self).parent_commit), message@, people@, time@),
                );
                let now = added(
                    old(self).writer.objects(),
                    packed(PackObjectKind::Commit, commit),
                );
                &&& r is Ok == fits(now)
                &&& r matches Ok(sha) ==> sha@ == object_id(PackObjectKind::Commit, commit)
                &&& final(self).writer.objects() == if r is Ok {
                    now
                } else {
                    old(self).writer.objects()
                }
            }),
            all_sound(old(self).writer.objects()) ==> all_sound(final(self).writer.objects()),
    {
        let commit = render_commit(&tree, &self.parent_commit, message, people, time);
        self.writer.write_object(PackObjectKind::Commit, commit.as_str().as_bytes())
    }

    /// Hands out the pack bytes that have come since the last call.
    pub fn take_pending(&mut self) -> (r: Vec<u8>)
        requires
            old(self).wf(),
        ensures
            final(self).wf(),
            r@ == old(self).pending(),
            final(self).pending() == Seq::<u8>::empty(),
            final(self).flushed() == old(self).flushed() + r@,
            final(self)@ == old(self)@,
    {
        self.writer.take_pending()
    }

    /// The number of objects, as it stands at [`crate::pack::COUNT_OFFSET`] in the finished pack.
    pub fn count_field(&self) -> (r: [u8; 4])
        requires
            self.wf(),
        ensures
            r@ == be32(self@.objects.len()),
    {
        self.writer.count_field()
    }

    /// Finishes the repository, given the checksum of the finished pack.
    pub fn finish(self, pack_checksum: &[u8; 20]) -> (r: FinishedRepo)
        requires
            self.wf(),
        ensures
            r.pack_name@ == "pack-"@ + hex_text(pack_checksum@) + ".pack"@,
            r.index_name@ == "pack-"@ + hex_text(pack_checksum@) + ".idx"@,
            r.index@ == index_file(index_entries(self@.objects), pack_checksum@),
            match self@.parent {
                Some(id) => r.main_ref matches Some(text) && text@ == hex_text(id) + "\n"@,
                None => r.main_ref is None,
            },
            r.head@ == "ref: refs/heads/main\n"@,
    {
        let checksum_hex = hex(pack_checksum);
        let mut pack_name = "pack-".to_owned();
        pack_name.append(checksum_hex.as_str());
        pack_name.append(".pack");
        let mut index_name = "pack-".to_owned();
        index_name.append(checksum_hex.as_str());
        index_name.append(".idx");
        let main_ref = match self.parent_commit {
            Some(id) => {
                let mut text = hex(&id);
                text.append("\n");
                Some(text)
            },
            None => None,
        };
        FinishedRepo {
            pack_name,
            index_name,
            index: self.writer.finish(pack_checksum),
            main_ref,
            head: "ref: refs/heads/main\n".to_owned(),
        }
    }
}

/// What was handed out of a repository and what waits make up its pack, but for the number of
/// objects in the header. The pack holds no object twice, and not more than can be written down. No
/// directory lists a name twice.
pub proof fn lemma_repo_wf(repo: BareRepoWriter)
    requires
        repo.wf(),
    ensures
        repo.flushed() + repo.pending() == pack_stream(0, repo@.objects),
        distinct_ids(repo@.objects),
        fits(repo@.objects),
        repo@.tree.wf(),
{
    lemma_pack_wf(repo.writer);
}

/// A commit shows its file at the file's path and every other path as it was. Its blob, its trees
/// and itself are in the pack, each once, behind all that was there before, and it names the commit
/// before it as its parent.
pub proof fn lemma_commit_read_back(
    repo: RepoModel,
    path: PathModel,
    blob: PackedObject,
    message: Seq<char>,
    people: PeopleModel,
    epoch: int,
    other: Seq<Seq<u8>>,
)
    requires
        distinct_ids(repo.objects),
    ensures
        ({
            let now = committed(repo, path, blob, message, people, epoch);
            let commit = encode_utf8(
                commit_text(tree_id(now.tree), repo.parent, message, people, epoch),
            );
            &&& lookup(now.tree, path.names()) == Some(blob.id)
            &&& other != path.names() ==> lookup(now.tree, other) == lookup(repo.tree, other)
            &&& repo.objects.is_prefix_of(now.objects)
            &&& distinct_ids(now.objects)
            &&& has_id(now.objects, blob.id)
            &&& forall|i: int|
                0 <= i < tree_objects(now.tree).len() ==> has_id(
                    now.objects,
                    (#[trigger] tree_objects(now.tree)[i]).id,
                )
            &&& now.parent == Some(object_id(PackObjectKind::Commit, commit))
            &&& has_id(now.objects, object_id(PackObjectKind::Commit, commit))
        }),
{
    let now = committed(repo, path, blob, message, people, epoch);
    let with_blob = added(repo.objects, blob);
    let with_trees = added_all(with_blob, tree_objects(now.tree));
    let last = packed(
        PackObjectKind::Commit,
        commit_bytes(repo, path, blob.id, message, people, epoch),
    );
    assert(path.names().len() == path.segments().len());
    lemma_lookup_inserted(repo.tree, path.names(), blob.id, other);
    lemma_added_once(repo.objects, blob);
    lemma_added_all_once(with_blob, tree_objects(now.tree));
    lemma_added_all_keeps(with_blob, tree_objects(now.tree));
    lemma_added_once(with_trees, last);
    assert(repo.objects.is_prefix_of(with_blob));
    assert(with_blob.is_prefix_of(with_trees));
    assert(with_trees.is_prefix_of(now.objects));
    lemma_has_id_stays(with_blob, now.objects, blob.id);
    assert forall|i: int| 0 <= i < tree_objects(now.tree).len() implies has_id(
        now.objects,
        (#[trigger] tree_objects(now.tree)[i]).id,
    ) by {
        lemma_has_id_stays(with_trees, now.objects, tree_objects(now.tree)[i].id);
    }
}

proof fn lemma_has_id_stays(objects: Seq<PackedObject>, longer: Seq<PackedObject>, id: Seq<u8>)
    requires
        objects.is_prefix_of(longer),
        has_id(objects, id),
    ensures
        has_id(longer, id),
{
    let k = choose|k: int| 0 <= k < objects.len() && (#[trigger] objects[k]).id == id;
    assert(longer[k].id == id);
}

/// The name of the directory in which a repository is built before it moves to its place.
pub open spec fn building_name(name: Seq<char>, process: nat) -> Seq<char> {
    "."@ + name + ".tmp-"@ + decimal(process)
}

/// The name of the directory in which a repository is built before it moves to its place.
pub fn temp_dir_name(name: &str, process: u32) -> (r: String)
    ensures
        r@ == building_name(name@, process as nat),
{
    let mut out = ".".to_owned();
    out.append(name);
    out.append(".tmp-");
    out.append(to_decimal(process as u64).as_str());
    out
}

/// The text of a commit: its tree, its parent where it has one, its author and its committer with the
/// time of the commit, an empty line and the message.
pub proof fn lemma_commit_text(
    tree: Seq<u8>,
    parent: Seq<u8>,
    message: Seq<char>,
    people: PeopleModel,
    epoch: int,
)
    ensures
        ({
            let rest = "author "@ + people.author.name + " <"@ + people.author.email + "> "@
                + signed_decimal(epoch) + " +0900\ncommitter "@ + people.committer.name + " <"@
                + people.committer.email + "> "@ + signed_decimal(epoch) + " +0900\n\n"@ + message;
            &&& commit_text(tree, None, message, people, epoch) == "tree "@ + hex_text(tree) + "\n"@
                + rest
            &&& commit_text(tree, Some(parent), message, people, epoch) == "tree "@ + hex_text(tree)
                + "\nparent "@ + hex_text(parent) + "\n"@ + rest
        }),
{
    lemma_commit_tail(message, people, epoch);
    reveal_strlit("\n");
    reveal_strlit("parent ");
    reveal_strlit("\nparent ");
    assert("\n"@ + "parent "@ =~= "\nparent "@);
    let front = "tree "@ + hex_text(tree) + "\n"@;
    let before = "author "@ + stamp(people.author, epoch) + "\ncommitter "@ + stamp(
        people.committer,
        epoch,
    ) + "\n\n"@ + message;
    assert(commit_text(tree, None, message, people, epoch) =~= front + before);
    assert(commit_text(tree, Some(parent), message, people, epoch) =~= front + ("parent "@
        + hex_text(parent) + "\n"@) + before);
    assert(front + ("parent "@ + hex_text(parent) + "\n"@) =~= "tree "@ + hex_text(tree)
        + "\nparent "@ + hex_text(parent) + "\n"@);
}

proof fn lemma_commit_tail(message: Seq<char>, people: PeopleModel, epoch: int)
    ensures
        "author "@ + stamp(people.author, epoch) + "\ncommitter "@ + stamp(people.committer, epoch)
            + "\n\n"@ + message == "author "@ + people.author.name + " <"@ + people.author.email
            + "> "@ + signed_decimal(epoch) + " +0900\ncommitter "@ + people.committer.name + " <"@
            + people.committer.email + "> "@ + signed_decimal(epoch) + " +0900\n\n"@ + message,
{
    reveal_strlit(" +0900");
    reveal_strlit("\ncommitter ");
    reveal_strlit(" +0900\ncommitter ");
    reveal_strlit("\n\n");
    reveal_strlit(" +0900\n\n");
    assert(" +0900"@ + "\ncommitter "@ =~= " +0900\ncommitter "@);
    assert(" +0900"@ + "\n\n"@ =~= " +0900\n\n"@);
    let a = people.author;
    let c = people.committer;
    let first = a.name + " <"@ + a.email + "> "@ + signed_decimal(epoch);
    let second = c.name + " <"@ + c.email + "> "@ + signed_decimal(epoch);
    assert(stamp(a, epoch) =~= first + " +0900"@);
    assert(stamp(c, epoch) =~= second + " +0900"@);
    let left = "author "@ + first + " +0900\ncommitter "@ + second + " +0900\n\n"@ + message;
    assert("author "@ + (first + " +0900"@) + "\ncommitter "@ + (second + " +0900"@) + "\n\n"@
        + message =~= left);
    assert("author "@ + a.name + " <"@ + a.email + "> "@ + signed_decimal(epoch)
        + " +0900\ncommitter "@ + c.name + " <"@ + c.email + "> "@ + signed_decimal(epoch)
        + " +0900\n\n"@ + message =~= left);
}

/// Who writes the commits, and what a repository is called while it is built.
pub proof fn lemma_names(name: Seq<char>, process: nat)
    ensures
        bot_people().author.name == "legalize-kr-bot"@,
        bot_people().author.email == "bot@legalize.kr"@,
        bot_people().committer == bot_people().author,
        building_name(name, process) == "."@ + name + ".tmp-"@ + decimal(process),
        empty_repo().objects.len() == 0 && empty_repo().parent is None,
{
}

/// A commit adds to the pack what is new of its blob, of its trees and of itself, and nothing else:
/// the blob comes first and the commit last.
pub proof fn lemma_commit_objects(
    repo: RepoModel,
    path: PathModel,
    blob: PackedObject,
    message: Seq<char>,
    people: PeopleModel,
    epoch: int,
)
    ensures
        ({
            let now = committed(repo, path, blob, message, people, epoch);
            let trees = tree_objects(now.tree);
            let commit = packed(
                PackObjectKind::Commit,
                encode_utf8(commit_text(tree_id(now.tree), repo.parent, message, people, epoch)),
            );
            &&& repo.objects.is_prefix_of(now.objects)
            &&& !has_id(repo.objects, blob.id) ==> repo.objects.push(blob).is_prefix_of(now.objects)
            &&& forall|i: int|
                repo.objects.len() <= i < now.objects.len() ==> {
                    ||| #[trigger] now.objects[i] == blob
                    ||| trees.contains(now.objects[i])
                    ||| now.objects[i] == commit
                }
            &&& !has_id(repo.objects, commit.id) && blob.id != commit.id && !has_id(
                trees,
                commit.id,
            ) ==> now.objects.last() == commit
        }),
{
    let now = committed(repo, path, blob, message, people, epoch);
    let trees = tree_objects(now.tree);
    let commit = packed(
        PackObjectKind::Commit,
        encode_utf8(commit_text(tree_id(now.tree), repo.parent, message, people, epoch)),
    );
    let with_blob = added(repo.objects, blob);
    let with_trees = added_all(with_blob, trees);
    lemma_added_all_keeps(with_blob, trees);
    assert(now.objects == added(with_trees, commit));
    assert(with_trees.is_prefix_of(now.objects));
    assert(repo.objects.is_prefix_of(with_blob));
    assert(repo.objects.is_prefix_of(now.objects));
    assert(with_blob.is_prefix_of(now.objects));
    assert forall|i: int| repo.objects.len() <= i < now.objects.len() implies ({
        ||| #[trigger] now.objects[i] == blob
        ||| trees.contains(now.objects[i])
        ||| now.objects[i] == commit
    }) by {
        if i < with_blob.len() {
            assert(now.objects[i] == with_trees[i]);
            assert(with_trees[i] == with_blob[i]);
        } else if i < with_trees.len() {
            lemma_only_added(with_blob, trees, i);
            assert(now.objects[i] == with_trees[i]);
        }
    }
    if !has_id(repo.objects, commit.id) && blob.id != commit.id && !has_id(trees, commit.id) {
        assert forall|i: int| 0 <= i < with_blob.len() implies (#[trigger] with_blob[i]).id
            != commit.id by {
            if i < repo.objects.len() {
                assert(with_blob[i] == repo.objects[i]);
            }
        }
        assert(!has_id(with_blob, commit.id));
        lemma_no_new_id(with_blob, trees, commit.id);
    }
}

} // verus!
