//! From planned documents to the commits of a repository.

use vstd::prelude::*;
use vstd::string::StringExecFns;
use vstd::utf8::encode_utf8;

use crate::object::{object_id, precompute_blob, PackObjectKind};
use crate::pack::{all_sound, distinct_ids, fits, is_sound, packed, PackError, PackedObject};
use crate::plan::{EntryModel, PlannedEntry};
use crate::render::document::{
    document_bytes, ordinance_to_markdown, render_error_chain, render_error_text, RenderError,
    RenderErrorModel,
};
use crate::render::message::{build_commit_message, commit_message};
use crate::repo::{
    bot_people, commit_text, committed, empty_repo, left_unfinished, lemma_commit_read_back, BareRepoWriter,
    RepoModel,
};
use crate::repo_path::{PathModel, RepoPathBuf};
use crate::timestamp::{promulgation_epoch, GitTimestampKst};
use crate::tree::{has_full_ids, lemma_lookup_inserted, lookup, tree_id};
use crate::xml_events::xml_events;
use crate::xml_parser::body::{
    body_outcome, body_result, body_start, parse_ordinance_body, BodyOutcome,
};
use crate::xml_parser::model::{
    parse_error_chain, parse_error_text, DetailModel, OrdinanceBody, OrdinanceDetail, ParseError,
    ParseErrorModel,
};

verus! {

/// Fully rendered output that is ready to commit.
pub struct Rendered {
    /// Destination repository path for the Markdown file.
    pub path: RepoPathBuf,
    /// Final Markdown bytes stored in Git.
    pub markdown: Vec<u8>,
    /// Canonical Git blob id for the rendered Markdown.
    pub blob_sha: [u8; 20],
    /// Precompressed PACK payload for the rendered Markdown blob.
    pub compressed_blob: Vec<u8>,
    /// Commit message for this revision.
    pub message: String,
    /// Deterministic KST commit timestamp.
    pub time: GitTimestampKst,
}

/// What a [`Rendered`] stands for.
pub struct RenderedModel {
    pub path: PathModel,
    pub markdown: Seq<u8>,
    pub blob: PackedObject,
    pub message: Seq<char>,
    pub epoch: int,
}

impl View for Rendered {
    type V = RenderedModel;

    open spec fn view(&self) -> RenderedModel {
        RenderedModel {
            path: self.path@,
            markdown: self.markdown@,
            blob: PackedObject {
                kind: PackObjectKind::Blob,
                size: self.markdown@.len(),
                id: self.blob_sha@,
                payload: self.compressed_blob@,
            },
            message: self.message@,
            epoch: self.time@,
        }
    }
}

/// Why a document could not be made ready to commit.
#[derive(Debug)]
pub enum EntryError {
    /// The document cannot be read.
    Parse(ParseError),
    /// The document cannot be rendered.
    Render(RenderError),
}

/// What an [`EntryError`] stands for.
pub enum EntryErrorModel {
    Parse(ParseErrorModel),
    Render(RenderErrorModel),
}

impl View for EntryError {
    type V = EntryErrorModel;

    open spec fn view(&self) -> EntryErrorModel {
        match *self {
            EntryError::Parse(error) => EntryErrorModel::Parse(error@),
            EntryError::Render(error) => EntryErrorModel::Render(error@),
        }
    }
}

impl EntryError {
    /// The message of this error, without its causes.
    pub fn to_string(&self) -> (r: String)
        ensures
            r@ == (match self@ {
                EntryErrorModel::Parse(error) => parse_error_text(error),
                EntryErrorModel::Render(error) => render_error_text(error),
            }),
    {
        match self {
            EntryError::Parse(error) => error.to_string(),
            EntryError::Render(error) => error.to_string(),
        }
    }

    /// The message of this error, with its causes behind it.
    pub fn to_chain(&self) -> (r: String)
        ensures
            r@ == (match self@ {
                EntryErrorModel::Parse(error) => parse_error_chain(error),
                EntryErrorModel::Render(error) => render_error_chain(error),
            }),
    {
        match self {
            EntryError::Parse(error) => error.to_chain(),
            EntryError::Render(error) => error.to_chain(),
        }
    }
}

/// The commit timestamp of an ordinance: that of its date, or zero where the date has none.
pub open spec fn entry_epoch(date: Seq<char>) -> int {
    match promulgation_epoch(date) {
        Ok(epoch) => epoch,
        Err(_) => 0,
    }
}

/// What is committed for an entry, given the body of its document.
pub open spec fn rendered_entry(entry: EntryModel, body: BodyOutcome) -> Result<
    RenderedModel,
    EntryErrorModel,
> {
    match body {
        Ok(body) => match document_bytes(DetailModel { metadata: entry.metadata, body }) {
            Ok(markdown) => Ok(
                RenderedModel {
                    path: entry.path,
                    markdown,
                    blob: packed(PackObjectKind::Blob, markdown),
                    message: commit_message(entry.metadata),
                    epoch: entry_epoch(entry.metadata.promulgation_date),
                },
            ),
            Err(error) => Err(EntryErrorModel::Render(error)),
        },
        Err(error) => Err(EntryErrorModel::Parse(error)),
    }
}

/// The view of a rendering result.
pub open spec fn rendered_result(r: Result<Rendered, EntryError>) -> Result<
    RenderedModel,
    EntryErrorModel,
> {
    match r {
        Ok(rendered) => Ok(rendered@),
        Err(error) => Err(error@),
    }
}

/// The Markdown bytes of an entry are the document of its metadata and the given body.
pub open spec fn is_document(markdown: Seq<u8>, entry: EntryModel, body: BodyOutcome) -> bool {
    body matches Ok(body) && document_bytes(DetailModel { metadata: entry.metadata, body }) matches Ok(
        bytes,
    ) && markdown == bytes
}

/// Renders and packages one planned entry whose document has been parsed.
pub fn render_parsed(
    entry: &PlannedEntry,
    parsed: Result<OrdinanceBody, ParseError>,
) -> (r: Result<Rendered, EntryError>)
    ensures
        rendered_result(r) == rendered_entry(entry@, body_result(parsed)),
        r matches Ok(rendered) ==> is_document(rendered.markdown@, entry@, body_result(parsed)),
        r matches Ok(rendered) ==> is_sound(rendered@.blob),
{
    let body = match parsed {
        Ok(body) => body,
        Err(error) => {
            return Err(EntryError::Parse(error));
        },
    };
    let detail = OrdinanceDetail { metadata: entry.metadata.clone(), body };
    let time = match GitTimestampKst::from_promulgation_date(
        detail.metadata.promulgation_date.as_str(),
    ) {
        Ok(time) => time,
        Err(_) => GitTimestampKst::from_epoch(0),
    };
    let markdown = match ordinance_to_markdown(&detail) {
        Ok(markdown) => markdown,
        Err(error) => {
            return Err(EntryError::Render(error));
        },
    };
    let (blob_sha, compressed_blob) = precompute_blob(markdown.as_slice());
    let message = build_commit_message(&detail.metadata);
    Ok(Rendered { path: entry.path.clone(), markdown, blob_sha, compressed_blob, message, time })
}

/// Parses, renders, and packages one planned XML entry.
pub fn render_entry(entry: &PlannedEntry, xml: &[u8]) -> (r: Result<Rendered, EntryError>)
    ensures
        rendered_result(r) == rendered_entry(
            entry@,
            body_outcome(body_start(), xml_events(xml@)),
        ),
        r matches Ok(rendered) ==> is_document(
            rendered.markdown@,
            entry@,
            body_outcome(body_start(), xml_events(xml@)),
        ),
        r matches Ok(rendered) ==> is_sound(rendered@.blob),
{
    render_parsed(entry, parse_ordinance_body(xml))
}

/// The name of the cache file of an entry.
pub fn xml_file_name(stem: &str) -> (r: String)
    ensures
        r@ == stem@ + ".xml"@,
{
    let mut out = stem.to_owned();
    out.append(".xml");
    out
}

/// The repository with one more commit, for a rendered document.
pub open spec fn with_entry(repo: RepoModel, rendered: RenderedModel) -> RepoModel {
    committed(
        repo,
        rendered.path,
        rendered.blob,
        rendered.message,
        bot_people(),
        rendered.epoch,
    )
}

/// The repository with one more commit for each rendered document, in their order.
pub open spec fn with_entries(repo: RepoModel, all: Seq<RenderedModel>) -> RepoModel
    decreases all.len(),
{
    if all.len() == 0 {
        repo
    } else {
        with_entry(with_entries(repo, all.drop_last()), all.last())
    }
}

/// The repository whose only commit is the one of the README.
pub open spec fn seeded_repo(readme: Seq<u8>) -> RepoModel {
    committed(
        empty_repo(),
        PathModel::RootFile("README.md"@),
        packed(PackObjectKind::Blob, readme),
        "initial commit"@,
        bot_people(),
        0,
    )
}

/// Number of commits after which progress is reported.
pub const PROGRESS_STEP: usize = 500;

/// A run that commits a known number of documents.
pub struct Compilation {
    repo: BareRepoWriter,
    /// Number of documents to commit.
    total: usize,
    /// Number of documents committed so far.
    committed: usize,
}

impl Compilation {
    /// The repository so far.
    pub closed spec fn repo(&self) -> BareRepoWriter {
        self.repo
    }

    /// The number of documents to commit.
    pub closed spec fn total(&self) -> nat {
        self.total as nat
    }

    /// The number of documents committed so far.
    pub closed spec fn done(&self) -> nat {
        self.committed as nat
    }

    /// The repository is well-formed, and not more is committed than there is.
    pub closed spec fn wf(&self) -> bool {
        self.repo.wf() && self.committed <= self.total
    }

    /// Starts a fresh repository with the commit of the README.
    pub fn start(readme: &[u8], total: usize) -> (r: Result<Self, PackError>)
        ensures
            r is Ok == fits(seeded_repo(readme@).objects),
            r matches Ok(run) ==> run.wf() && run.repo()@ == seeded_repo(readme@) && run.total()
                == total && run.done() == 0 && run.repo().flushed() == Seq::<u8>::empty()
                && all_sound(run.repo()@.objects) && has_full_ids(run.repo()@.tree),
    {
        let mut repo = BareRepoWriter::create();
        match repo.commit_static(
            &RepoPathBuf::root_file("README.md"),
            readme,
            "initial commit",
            0,
        ) {
            Ok(()) => Ok(Compilation { repo, total, committed: 0 }),
            Err(error) => Err(error),
        }
    }

    /// Commits the next document, and tells whether progress is to be reported.
    pub fn commit_next(&mut self, rendered: &Rendered) -> (r: Result<bool, PackError>)
        requires
            old(self).wf(),
            old(self).done() < old(self).total(),
        ensures
            final(self).wf(),
            final(self).total() == old(self).total(),
            final(self).repo().flushed() == old(self).repo().flushed(),
            r is Ok == fits(with_entry(old(self).repo()@, rendered@).objects),
            r matches Ok(report) ==> final(self).repo()@ == with_entry(
                old(self).repo()@,
                rendered@,
            ) && final(self).done() == old(self).done() + 1 && report == (final(self).done()
                % PROGRESS_STEP as nat == 0 || final(self).done() == final(self).total())
                && has_full_ids(final(self).repo()@.tree),
            r is Err ==> final(self).done() == old(self).done() && left_unfinished(
                old(self).repo()@,
                rendered@.path,
                rendered@.blob,
                final(self).repo()@,
            ),
            is_sound(rendered@.blob) && all_sound(old(self).repo()@.objects) ==> all_sound(
                final(self).repo()@.objects,
            ),
    {
        match self.repo.commit_ordinance(
            &rendered.path,
            rendered.markdown.as_slice(),
            rendered.blob_sha,
            rendered.compressed_blob.as_slice(),
            rendered.message.as_str(),
            rendered.time,
        ) {
            Ok(()) => {
                self.committed += 1;
                Ok(self.committed % PROGRESS_STEP == 0 || self.committed == self.total)
            },
            Err(error) => Err(error),
        }
    }

    /// The number of documents committed so far, and the number of all documents.
    pub fn progress(&self) -> (r: (usize, usize))
        ensures
            r.0 == self.done(),
            r.1 == self.total(),
    {
        (self.committed, self.total)
    }

    /// Hands out the pack bytes that have come since the last call.
    pub fn take_pending(&mut self) -> (r: Vec<u8>)
        requires
            old(self).wf(),
        ensures
            final(self).wf(),
            final(self).total() == old(self).total(),
            final(self).done() == old(self).done(),
            r@ == old(self).repo().pending(),
            final(self).repo().pending() == Seq::<u8>::empty(),
            final(self).repo().flushed() == old(self).repo().flushed() + r@,
            final(self).repo()@ == old(self).repo()@,
    {
        self.repo.take_pending()
    }

    /// Ends the run, and hands out its repository.
    pub fn into_repo(self) -> (r: BareRepoWriter)
        requires
            self.wf(),
        ensures
            r == self.repo(),
            r.wf(),
    {
        self.repo
    }
}

/// After all commits, the newest commit shows at the path of each document the blob that was
/// committed there last. Paths where no document stands show what they showed before.
pub proof fn lemma_history_shows_documents(
    repo: RepoModel,
    all: Seq<RenderedModel>,
    path: Seq<Seq<u8>>,
    last: int,
)
    requires
        distinct_ids(repo.objects),
        -1 <= last < all.len(),
        last >= 0 ==> all[last].path.names() == path,
        forall|j: int| last < j < all.len() ==> (#[trigger] all[j]).path.names() != path,
    ensures
        lookup(with_entries(repo, all).tree, path) == (if last >= 0 {
            Some(all[last].blob.id)
        } else {
            lookup(repo.tree, path)
        }),
        repo.objects.is_prefix_of(with_entries(repo, all).objects),
        distinct_ids(with_entries(repo, all).objects),
    decreases all.len(),
{
    if all.len() > 0 {
        let most = all.drop_last();
        let end = all.last();
        let before = with_entries(repo, most);
        if last == all.len() - 1 {
            lemma_history_keeps(repo, most);
        } else {
            lemma_history_shows_documents(repo, most, path, last);
            assert(all[all.len() - 1].path.names() != path);
        }
        lemma_commit_read_back(
            before,
            end.path,
            end.blob,
            end.message,
            bot_people(),
            end.epoch,
            path,
        );
        assert(repo.objects.is_prefix_of(before.objects));
        assert(before.objects.is_prefix_of(with_entries(repo, all).objects));
    }
}

proof fn lemma_history_keeps(repo: RepoModel, all: Seq<RenderedModel>)
    requires
        distinct_ids(repo.objects),
    ensures
        repo.objects.is_prefix_of(with_entries(repo, all).objects),
        distinct_ids(with_entries(repo, all).objects),
    decreases all.len(),
{
    if all.len() > 0 {
        let most = all.drop_last();
        let end = all.last();
        lemma_history_keeps(repo, most);
        lemma_commit_read_back(
            with_entries(repo, most),
            end.path,
            end.blob,
            end.message,
            bot_people(),
            end.epoch,
            end.path.names(),
        );
    }
}

/// What is committed for an entry: at its path the document of its metadata and its body, under the
/// message and at the time of its metadata. A body that cannot be read and a document that cannot be
/// written are errors that say why.
pub proof fn lemma_entry_rendered(entry: EntryModel, body: BodyOutcome)
    ensures
        body matches Err(error) ==> rendered_entry(entry, body) == Err::<RenderedModel, _>(
            EntryErrorModel::Parse(error),
        ),
        body matches Ok(read) ==> (match document_bytes(
            DetailModel { metadata: entry.metadata, body: read },
        ) {
            Err(error) => rendered_entry(entry, body) == Err::<RenderedModel, _>(
                EntryErrorModel::Render(error),
            ),
            Ok(bytes) => rendered_entry(entry, body) matches Ok(rendered) && rendered.path
                == entry.path && rendered.markdown == bytes && rendered.blob.kind
                == PackObjectKind::Blob && rendered.blob.size == bytes.len() && rendered.blob.id
                == object_id(PackObjectKind::Blob, bytes) && rendered.message == commit_message(
                entry.metadata,
            ) && rendered.epoch == (match promulgation_epoch(entry.metadata.promulgation_date) {
                Ok(epoch) => epoch,
                Err(_) => 0,
            }),
        }),
{
}

/// A repository begins with the commit of its README at the Unix epoch, without a parent.
pub proof fn lemma_first_commit(readme: Seq<u8>)
    ensures
        lookup(seeded_repo(readme).tree, seq![encode_utf8("README.md"@)]) == Some(
            object_id(PackObjectKind::Blob, readme),
        ),
        seeded_repo(readme).parent == Some(
            object_id(
                PackObjectKind::Commit,
                encode_utf8(
                    commit_text(
                        tree_id(seeded_repo(readme).tree),
                        None,
                        "initial commit"@,
                        bot_people(),
                        0,
                    ),
                ),
            ),
        ),
{
    let path = PathModel::RootFile("README.md"@);
    assert(path.names() =~= seq![encode_utf8("README.md"@)]);
    lemma_lookup_inserted(
        empty_repo().tree,
        path.names(),
        object_id(PackObjectKind::Blob, readme),
        path.names(),
    );
}

/// Each entry is one commit more, with the newest commit before it as its parent. Its document stands
/// at its path.
pub proof fn lemma_commit_of_entry(repo: RepoModel, rendered: RenderedModel)
    ensures
        with_entry(repo, rendered).parent == Some(
            object_id(
                PackObjectKind::Commit,
                encode_utf8(
                    commit_text(
                        tree_id(with_entry(repo, rendered).tree),
                        repo.parent,
                        rendered.message,
                        bot_people(),
                        rendered.epoch,
                    ),
                ),
            ),
        ),
        lookup(with_entry(repo, rendered).tree, rendered.path.names()) == Some(rendered.blob.id),
{
    assert(rendered.path.names().len() == rendered.path.segments().len());
    lemma_lookup_inserted(
        repo.tree,
        rendered.path.names(),
        rendered.blob.id,
        rendered.path.names(),
    );
}

/// Entries are committed one by one: those that come later go onto what the earlier ones left.
pub proof fn lemma_commits_of_run(
    repo: RepoModel,
    rendered: RenderedModel,
    all: Seq<RenderedModel>,
    more: Seq<RenderedModel>,
)
    ensures
        with_entries(repo, all + more) == with_entries(with_entries(repo, all), more),
        with_entries(repo, seq![rendered]) == with_entry(repo, rendered),
        PROGRESS_STEP == 500,
    decreases more.len(),
{
    reveal_with_fuel(with_entries, 2);
    assert(seq![rendered].drop_last() =~= Seq::<RenderedModel>::empty());
    if more.len() == 0 {
        assert(all + more =~= all);
    } else {
        lemma_commits_of_run(repo, rendered, all, more.drop_last());
        assert((all + more).drop_last() =~= all + more.drop_last());
        assert((all + more).last() == more.last());
    }
}

} // verus!
