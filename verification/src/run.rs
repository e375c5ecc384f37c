//! From the files of a cache to the finished history.

use vstd::prelude::*;
use vstd::utf8::{encode_utf8, encode_utf8_decode_utf8};

use crate::bytes::push_bytes;
use crate::cache::{
    document_files, document_stem, file_views, lemma_document_files, sorted_documents,
    CacheFileModel,
};
use crate::compile::{
    lemma_commits_of_run, render_entry, rendered_entry, seeded_repo, with_entries, with_entry,
    xml_file_name, Compilation, EntryError, EntryErrorModel, RenderedModel,
};
use crate::lex::lemma_lex_total;
use crate::pack::{all_sound, fits};
use crate::plan::{
    entry_views, lemma_skipped_outcome, plan_entry, plan_of, plan_views, planned_entries, schedule,
    EntryModel, PlanModel, PlanOutcome,
};
use crate::repo::{BareRepoWriter, RepoModel};
use crate::sort::{
    is_stable_sort, lemma_one_more_value, lemma_order_of_values, lemma_stable_sorted,
    lemma_stable_sorted_members, same_rank, stable_sorted,
};
use crate::text::{same_text, texts};
use crate::tree::has_full_ids;
use crate::xml_events::xml_events;
use crate::xml_parser::body::{body_outcome, body_start};
use crate::xml_parser::metadata::{metadata_outcome, metadata_start};

verus! {

/// A file of the cache.
#[derive(Debug)]
pub struct CachedFile {
    /// The name of the file.
    pub name: String,
    /// The bytes of the file.
    pub content: Vec<u8>,
}

/// What a [`CachedFile`] stands for.
pub struct CachedModel {
    pub name: Seq<char>,
    pub content: Seq<u8>,
}

impl View for CachedFile {
    type V = CachedModel;

    open spec fn view(&self) -> CachedModel {
        CachedModel { name: self.name@, content: self.content@ }
    }
}

/// The views of files.
pub open spec fn cached_views(files: Seq<CachedFile>) -> Seq<CachedModel> {
    files.map_values(|f: CachedFile| f@)
}

/// The names of files.
pub open spec fn file_names(files: Seq<CachedModel>) -> Seq<Seq<char>> {
    files.map_values(|f: CachedModel| f.name)
}

/// The bytes of the file of this name; none where there is no such file.
pub open spec fn content_of(files: Seq<CachedModel>, name: Seq<char>) -> Seq<u8>
    decreases files.len(),
{
    if files.len() == 0 {
        Seq::empty()
    } else if files[0].name == name {
        files[0].content
    } else {
        content_of(files.drop_first(), name)
    }
}

/// What planning makes of one document of the cache.
pub open spec fn file_plan(files: Seq<CachedModel>, file: CacheFileModel) -> PlanModel {
    plan_of(
        file.stem,
        metadata_outcome(metadata_start(), xml_events(content_of(files, file.name))),
    )
}

/// What planning makes of the documents of the cache, in the order of their names.
pub open spec fn file_plans(files: Seq<CachedModel>) -> Seq<PlanModel> {
    stable_sorted(document_files(file_names(files))).map_values(
        |f: CacheFileModel| file_plan(files, f),
    )
}

/// The entries that are committed for a cache, in the order of their commits.
pub open spec fn run_entries(files: Seq<CachedModel>) -> Seq<EntryModel> {
    stable_sorted(planned_entries(file_plans(files)))
}

/// What is committed for an entry.
pub open spec fn run_rendered(files: Seq<CachedModel>, entry: EntryModel) -> Result<
    RenderedModel,
    EntryErrorModel,
> {
    rendered_entry(
        entry,
        body_outcome(body_start(), xml_events(content_of(files, entry.stem + ".xml"@))),
    )
}

/// Why a cache has no history.
pub enum RunErrorModel {
    NoDocuments,
    Entry(EntryErrorModel),
    Full,
}

/// The repository with one more commit for each entry, up to the first one that cannot be committed.
pub open spec fn run_commits(
    files: Seq<CachedModel>,
    repo: RepoModel,
    entries: Seq<EntryModel>,
) -> Result<RepoModel, RunErrorModel>
    decreases entries.len(),
{
    if entries.len() == 0 {
        Ok(repo)
    } else {
        match run_rendered(files, entries[0]) {
            Ok(rendered) => {
                let next = with_entry(repo, rendered);
                if fits(next.objects) {
                    run_commits(files, next, entries.drop_first())
                } else {
                    Err(RunErrorModel::Full)
                }
            },
            Err(error) => Err(RunErrorModel::Entry(error)),
        }
    }
}

/// The repository that is made of a cache.
pub open spec fn run_outcome(readme: Seq<u8>, files: Seq<CachedModel>) -> Result<
    RepoModel,
    RunErrorModel,
> {
    let entries = run_entries(files);
    if entries.len() == 0 {
        Err(RunErrorModel::NoDocuments)
    } else if !fits(seeded_repo(readme).objects) {
        Err(RunErrorModel::Full)
    } else {
        run_commits(files, seeded_repo(readme), entries)
    }
}

/// Why a cache has no history.
#[derive(Debug)]
pub enum RunError {
    /// The cache holds no document that can be committed.
    NoDocuments,
    /// A document cannot be made ready to commit.
    Entry(EntryError),
    /// The pack cannot take in all objects.
    Full,
}

impl View for RunError {
    type V = RunErrorModel;

    open spec fn view(&self) -> RunErrorModel {
        match *self {
            RunError::NoDocuments => RunErrorModel::NoDocuments,
            RunError::Entry(error) => RunErrorModel::Entry(error@),
            RunError::Full => RunErrorModel::Full,
        }
    }
}

/// The view of a run's result.
pub open spec fn run_result(r: Result<BareRepoWriter, RunError>) -> Result<
    RepoModel,
    RunErrorModel,
> {
    match r {
        Ok(repo) => Ok(repo@),
        Err(error) => Err(error@),
    }
}

fn find_content(files: &Vec<CachedFile>, name: &str) -> (r: Vec<u8>)
    ensures
        r@ == content_of(cached_views(files@), name@),
{
    let ghost all = cached_views(files@);
    let mut out: Vec<u8> = Vec::new();
    let mut i: usize = 0;
    assert(all.skip(0) =~= all);
    while i < files.len()
        invariant
            i <= files@.len(),
            all == cached_views(files@),
            out@ == Seq::<u8>::empty(),
            content_of(all, name@) == content_of(all.skip(i as int), name@),
        decreases files@.len() - i,
    {
        assert(all.skip(i as int)[0] == files@[i as int]@);
        assert(all.skip(i as int).drop_first() =~= all.skip(i + 1));
        if same_text(files[i].name.as_str(), name) {
            push_bytes(&mut out, files[i].content.as_slice());
            assert(out@ =~= files@[i as int].content@);
            return out;
        }
        i += 1;
    }
    out
}

/// Plans the documents of a cache, in the order of their names.
fn plan_files(files: &Vec<CachedFile>) -> (r: Vec<PlanOutcome>)
    ensures
        plan_views(r@) == file_plans(cached_views(files@)),
{
    let ghost all = cached_views(files@);
    let mut names: Vec<String> = Vec::new();
    let mut i: usize = 0;
    while i < files.len()
        invariant
            i <= files@.len(),
            names@.len() == i,
            forall|j: int| 0 <= j < i ==> (#[trigger] names@[j])@ == files@[j].name@,
        decreases files@.len() - i,
    {
        names.push(files[i].name.clone());
        i += 1;
    }
    assert(texts(names@) =~= file_names(all));
    let sorted = sorted_documents(names);
    let ghost documents = file_views(sorted@);
    let mut outcomes: Vec<PlanOutcome> = Vec::new();
    let mut k: usize = 0;
    while k < sorted.len()
        invariant
            k <= sorted@.len(),
            all == cached_views(files@),
            documents == file_views(sorted@),
            outcomes@.len() == k,
            forall|j: int| 0 <= j < k ==> (#[trigger] outcomes@[j])@ == file_plan(all, documents[j]),
        decreases sorted@.len() - k,
    {
        let xml = find_content(files, sorted[k].name.as_str());
        outcomes.push(plan_entry(sorted[k].stem.as_str(), xml.as_slice()));
        assert(documents[k as int] == sorted@[k as int]@);
        k += 1;
    }
    assert(plan_views(outcomes@) =~= file_plans(all));
    outcomes
}

/// Makes the repository of a cache that is held in memory.
#[verifier::spinoff_prover]
pub fn compile_cache(readme: &[u8], files: &Vec<CachedFile>) -> (r: Result<
    BareRepoWriter,
    RunError,
>)
    ensures
        run_result(r) == run_outcome(readme@, cached_views(files@)),
        r matches Ok(repo) ==> repo.wf() && repo.flushed() == Seq::<u8>::empty() && all_sound(
            repo@.objects,
        ) && has_full_ids(repo@.tree),
{
    let ghost all = cached_views(files@);
    let outcomes = plan_files(files);
    proof {
        lemma_stable_sorted_members(planned_entries(plan_views(outcomes@)));
    }
    let entries = match schedule(outcomes) {
        Some(entries) => entries,
        None => {
            return Err(RunError::NoDocuments);
        },
    };
    let ghost views = entry_views(entries@);
    let mut run = match Compilation::start(readme, entries.len()) {
        Ok(run) => run,
        Err(_) => {
            return Err(RunError::Full);
        },
    };
    let mut i: usize = 0;
    assert(views.skip(0) =~= views);
    while i < entries.len()
        invariant
            i <= entries@.len(),
            all == cached_views(files@),
            views == entry_views(entries@),
            run.wf(),
            run.total() == entries@.len(),
            run.done() == i,
            run.repo().flushed() == Seq::<u8>::empty(),
            all_sound(run.repo()@.objects),
            has_full_ids(run.repo()@.tree),
            run_outcome(readme@, all) == run_commits(all, run.repo()@, views.skip(i as int)),
        decreases entries@.len() - i,
    {
        let entry = &entries[i];
        assert(views.skip(i as int)[0] == entry@);
        assert(views.skip(i as int).drop_first() =~= views.skip(i + 1));
        let name = xml_file_name(entry.stem.as_str());
        let xml = find_content(files, name.as_str());
        let rendered = match render_entry(entry, xml.as_slice()) {
            Ok(rendered) => rendered,
            Err(error) => {
                return Err(RunError::Entry(error));
            },
        };
        match run.commit_next(&rendered) {
            Ok(_) => {},
            Err(_) => {
                return Err(RunError::Full);
            },
        }
        i += 1;
    }
    assert(views.skip(i as int).len() == 0);
    Ok(run.into_repo())
}

/// No two files have the same name.
pub open spec fn distinct_files(files: Seq<CachedModel>) -> bool {
    forall|i: int, j: int|
        0 <= i < j < files.len() ==> (#[trigger] files[i]).name != (#[trigger] files[j]).name
}

proof fn lemma_file_names(files: Seq<CachedModel>)
    requires
        distinct_files(files),
    ensures
        file_names(files).no_duplicates(),
        forall|f: CachedModel| #[trigger]
            files.contains(f) ==> file_names(files).contains(f.name) && content_of(files, f.name)
                == f.content,
        forall|name: Seq<char>| #[trigger]
            file_names(files).contains(name) ==> exists|f: CachedModel|
                files.contains(f) && f.name == name,
{
    let names = file_names(files);
    assert forall|i: int, j: int|
        0 <= i < names.len() && 0 <= j < names.len() && i != j implies names[i] != names[j] by {
        if i < j {
            assert(files[i].name != files[j].name);
        } else {
            assert(files[j].name != files[i].name);
        }
    }
    assert forall|f: CachedModel| #[trigger] files.contains(f) implies names.contains(f.name)
        && content_of(files, f.name) == f.content by {
        let k = choose|k: int| 0 <= k < files.len() && files[k] == f;
        assert(names[k] == f.name);
        lemma_content_at(files, k);
    }
    assert forall|name: Seq<char>| #[trigger] names.contains(name) implies exists|f: CachedModel|
        files.contains(f) && f.name == name by {
        let k = choose|k: int| 0 <= k < names.len() && names[k] == name;
        assert(files.contains(files[k]));
    }
}

proof fn lemma_content_at(files: Seq<CachedModel>, k: int)
    requires
        distinct_files(files),
        0 <= k < files.len(),
    ensures
        content_of(files, files[k].name) == files[k].content,
    decreases k,
{
    if k > 0 {
        let rest = files.drop_first();
        assert(files[0].name != files[k].name);
        assert forall|i: int, j: int| 0 <= i < j < rest.len() implies (#[trigger] rest[i]).name != (
        #[trigger] rest[j]).name by {
            assert(rest[i] == files[i + 1] && rest[j] == files[j + 1]);
        }
        lemma_content_at(rest, k - 1);
    }
}

proof fn lemma_content_nowhere(files: Seq<CachedModel>, name: Seq<char>)
    requires
        !file_names(files).contains(name),
    ensures
        content_of(files, name) == Seq::<u8>::empty(),
    decreases files.len(),
{
    if files.len() > 0 {
        let rest = files.drop_first();
        assert(file_names(files)[0] == files[0].name);
        if file_names(rest).contains(name) {
            let k = choose|k: int| 0 <= k < rest.len() && file_names(rest)[k] == name;
            assert(file_names(files)[k + 1] == name);
        }
        lemma_content_nowhere(rest, name);
    }
}

proof fn lemma_document_ranks(names: Seq<Seq<char>>)
    ensures
        forall|x: CacheFileModel, y: CacheFileModel| #[trigger]
            document_files(names).contains(x) && #[trigger] document_files(names).contains(y)
                && same_rank(x, y) ==> x == y,
{
    lemma_document_files(names);
    assert forall|x: CacheFileModel, y: CacheFileModel| #[trigger]
        document_files(names).contains(x) && #[trigger] document_files(names).contains(y)
            && same_rank(x, y) implies x == y by {
        lemma_lex_total(encode_utf8(x.name), encode_utf8(y.name));
        encode_utf8_decode_utf8(x.name);
        encode_utf8_decode_utf8(y.name);
    }
}

proof fn lemma_commits_same(
    a: Seq<CachedModel>,
    b: Seq<CachedModel>,
    repo: RepoModel,
    entries: Seq<EntryModel>,
)
    requires
        forall|i: int|
            0 <= i < entries.len() ==> content_of(a, (#[trigger] entries[i]).stem + ".xml"@)
                == content_of(b, entries[i].stem + ".xml"@),
    ensures
        run_commits(a, repo, entries) == run_commits(b, repo, entries),
    decreases entries.len(),
{
    if entries.len() > 0 {
        let first = entries[0];
        let rest = entries.drop_first();
        assert(content_of(a, first.stem + ".xml"@) == content_of(b, first.stem + ".xml"@));
        assert forall|i: int| 0 <= i < rest.len() implies content_of(
            a,
            (#[trigger] rest[i]).stem + ".xml"@,
        ) == content_of(b, rest[i].stem + ".xml"@) by {
            assert(rest[i] == entries[i + 1]);
        }
        if let Ok(rendered) = run_rendered(a, first) {
            lemma_commits_same(a, b, with_entry(repo, rendered), rest);
        }
    }
}

/// A cache has one history: the repository depends on the names and the bytes of the files alone,
/// not on the order in which they are listed.
#[verifier::spinoff_prover]
pub proof fn lemma_listing_order(readme: Seq<u8>, a: Seq<CachedModel>, b: Seq<CachedModel>)
    requires
        distinct_files(a),
        distinct_files(b),
        forall|f: CachedModel| #[trigger] a.contains(f) == b.contains(f),
    ensures
        run_outcome(readme, a) == run_outcome(readme, b),
{
    let a_names = file_names(a);
    let b_names = file_names(b);
    lemma_file_names(a);
    lemma_file_names(b);
    assert forall|name: Seq<char>| #[trigger] a_names.contains(name) == b_names.contains(name) by {
        if a_names.contains(name) {
            let f = choose|f: CachedModel| a.contains(f) && f.name == name;
            assert(b.contains(f));
        }
        if b_names.contains(name) {
            let f = choose|f: CachedModel| b.contains(f) && f.name == name;
            assert(a.contains(f));
        }
    }
    assert forall|name: Seq<char>| #[trigger] content_of(a, name) == content_of(b, name) by {
        if a_names.contains(name) {
            let f = choose|f: CachedModel| a.contains(f) && f.name == name;
            assert(b.contains(f));
        } else {
            lemma_content_nowhere(a, name);
            lemma_content_nowhere(b, name);
        }
    }
    lemma_document_files(a_names);
    lemma_document_files(b_names);
    lemma_document_ranks(a_names);
    lemma_order_of_values(document_files(a_names), document_files(b_names));
    assert(file_plans(a) =~= file_plans(b));
    lemma_commits_same(a, b, seeded_repo(readme), run_entries(a));
}

/// A file that is skipped: its name has another extension, or its document is not planned.
pub open spec fn is_skipped(file: CachedModel) -> bool {
    match document_stem(file.name) {
        Some(stem) => !(plan_of(
            stem,
            metadata_outcome(metadata_start(), xml_events(file.content)),
        ) is Planned),
        None => true,
    }
}

proof fn lemma_content_before(files: Seq<CachedModel>, file: CachedModel, name: Seq<char>)
    requires
        name != file.name,
    ensures
        content_of(files.push(file), name) == content_of(files, name),
    decreases files.len(),
{
    let more = files.push(file);
    if files.len() == 0 {
        assert(more.drop_first() =~= files);
    } else {
        assert(more.drop_first() =~= files.drop_first().push(file));
        lemma_content_before(files.drop_first(), file, name);
    }
}

proof fn lemma_planned_stems(outcomes: Seq<PlanModel>, entry: EntryModel)
    requires
        planned_entries(outcomes).contains(entry),
    ensures
        exists|k: int| 0 <= k < outcomes.len() && #[trigger] outcomes[k] == PlanModel::Planned(entry),
    decreases outcomes.len(),
{
    let found = planned_entries(outcomes);
    let rest = outcomes.drop_last();
    let k = choose|k: int| 0 <= k < found.len() && found[k] == entry;
    if k < planned_entries(rest).len() {
        assert(planned_entries(rest)[k] == entry);
        assert(planned_entries(rest).contains(entry));
        lemma_planned_stems(rest, entry);
        let m = choose|m: int|
            0 <= m < rest.len() && #[trigger] rest[m] == PlanModel::Planned(entry);
        assert(outcomes[m] == PlanModel::Planned(entry));
    } else {
        assert(outcomes[outcomes.len() - 1] == PlanModel::Planned(entry));
    }
}

proof fn lemma_entry_files(files: Seq<CachedModel>, entry: EntryModel)
    requires
        run_entries(files).contains(entry),
    ensures
        file_names(files).contains(entry.stem + ".xml"@),
{
    let plans = file_plans(files);
    let names = file_names(files);
    let sorted = stable_sorted(document_files(names));
    lemma_stable_sorted_members(planned_entries(plans));
    lemma_stable_sorted_members(document_files(names));
    lemma_document_files(names);
    assert(planned_entries(plans).contains(entry));
    lemma_planned_stems(plans, entry);
    let k = choose|k: int| 0 <= k < plans.len() && #[trigger] plans[k] == PlanModel::Planned(entry);
    let file = sorted[k];
    assert(plans[k] == file_plan(files, file));
    assert(sorted.contains(file));
    assert(document_files(names).contains(file));
    reveal_strlit(".xml");
    assert(file.stem + ".xml"@ =~= file.name);
}

#[verifier::spinoff_prover]
proof fn lemma_skipped_last(readme: Seq<u8>, files: Seq<CachedModel>, file: CachedModel)
    requires
        distinct_files(files.push(file)),
        is_skipped(file),
    ensures
        run_outcome(readme, files.push(file)) == run_outcome(readme, files),
{
    let more = files.push(file);
    let names = file_names(files);
    let all_names = file_names(more);
    assert(all_names =~= names.push(file.name));
    assert forall|i: int, j: int| 0 <= i < j < files.len() implies (#[trigger] files[i]).name != (
    #[trigger] files[j]).name by {
        assert(more[i].name != more[j].name);
    }
    lemma_file_names(files);
    lemma_file_names(more);
    assert(!names.contains(file.name)) by {
        if names.contains(file.name) {
            let k = choose|k: int| 0 <= k < names.len() && names[k] == file.name;
            assert(more[k].name == more[files.len() as int].name);
        }
    }
    assert(more[files.len() as int] == file);
    assert(more.contains(file));
    lemma_document_files(names);
    lemma_document_files(all_names);
    lemma_document_ranks(all_names);
    let found = document_files(names);
    let sorted = stable_sorted(found);
    lemma_stable_sorted_members(found);
    assert forall|k: int| 0 <= k < sorted.len() implies file_plan(more, #[trigger] sorted[k])
        == file_plan(files, sorted[k]) by {
        assert(sorted.contains(sorted[k]));
        assert(found.contains(sorted[k]));
        lemma_content_before(files, file, sorted[k].name);
    }
    assert(all_names.drop_last() =~= names);
    assert(planned_entries(file_plans(more)) == planned_entries(file_plans(files))) by {
        match document_stem(file.name) {
            None => {
                assert(document_files(all_names) == found);
                assert(file_plans(more) =~= file_plans(files));
            },
            Some(stem) => {
                let x = CacheFileModel { name: file.name, stem };
                assert(document_files(all_names) == found.push(x));
                assert(!found.contains(x));
                let at = lemma_one_more_value(found, x);
                let skipped = file_plan(more, x);
                assert(content_of(more, file.name) == file.content);
                assert(file_plans(more) =~= file_plans(files).insert(at, skipped));
                lemma_skipped_outcome(file_plans(files), at, skipped);
            },
        }
    }
    let entries = run_entries(files);
    assert forall|i: int| 0 <= i < entries.len() implies content_of(
        more,
        (#[trigger] entries[i]).stem + ".xml"@,
    ) == content_of(files, entries[i].stem + ".xml"@) by {
        assert(entries.contains(entries[i]));
        lemma_entry_files(files, entries[i]);
        lemma_content_before(files, file, entries[i].stem + ".xml"@);
    }
    lemma_commits_same(more, files, seeded_repo(readme), entries);
}

proof fn lemma_listed_last(files: Seq<CachedModel>, at: int, file: CachedModel)
    requires
        0 <= at <= files.len(),
    ensures
        forall|f: CachedModel| #[trigger]
            files.insert(at, file).contains(f) == files.push(file).contains(f),
{
    let a = files.insert(at, file);
    let b = files.push(file);
    assert forall|f: CachedModel| #[trigger] a.contains(f) == b.contains(f) by {
        if a.contains(f) {
            let k = choose|k: int| 0 <= k < a.len() && a[k] == f;
            if k < at {
                assert(b[k] == f);
            } else if k == at {
                assert(b[files.len() as int] == f);
            } else {
                assert(b[k - 1] == f);
            }
        }
        if b.contains(f) {
            let k = choose|k: int| 0 <= k < b.len() && b[k] == f;
            if k == files.len() {
                assert(a[at] == f);
            } else if k < at {
                assert(a[k] == f);
            } else {
                assert(a[k + 1] == f);
            }
        }
    }
}

proof fn lemma_distinct_last(files: Seq<CachedModel>, at: int, file: CachedModel)
    requires
        0 <= at <= files.len(),
        distinct_files(files.insert(at, file)),
    ensures
        distinct_files(files.push(file)),
{
    let a = files.insert(at, file);
    let b = files.push(file);
    assert forall|i: int, j: int| 0 <= i < j < b.len() implies (#[trigger] b[i]).name != (
    #[trigger] b[j]).name by {
        let m = if i < at {
            i
        } else {
            i + 1
        };
        let n = if j == files.len() {
            at
        } else if j < at {
            j
        } else {
            j + 1
        };
        assert(a[m] == b[i] && a[n] == b[j]);
        if m < n {
            assert(a[m].name != a[n].name);
        } else {
            assert(a[n].name != a[m].name);
        }
    }
}

/// A file that is skipped, wherever it is listed, leaves the history as it is: it neither fails the
/// run nor adds a commit.
#[verifier::spinoff_prover]
pub proof fn lemma_skipped_file(
    readme: Seq<u8>,
    files: Seq<CachedModel>,
    at: int,
    file: CachedModel,
)
    requires
        0 <= at <= files.len(),
        distinct_files(files.insert(at, file)),
        is_skipped(file),
    ensures
        run_outcome(readme, files.insert(at, file)) == run_outcome(readme, files),
{
    lemma_listed_last(files, at, file);
    lemma_distinct_last(files, at, file);
    lemma_listing_order(readme, files.insert(at, file), files.push(file));
    lemma_skipped_last(readme, files, file);
}

/// The history of a cache is the commit of the README and one commit for each planned document, in
/// their order. There is one exactly where some document is planned, each can be rendered, and the
/// pack can take them all in.
pub proof fn lemma_history(readme: Seq<u8>, files: Seq<CachedModel>, all: Seq<RenderedModel>)
    requires
        all.len() == run_entries(files).len(),
        forall|i: int|
            0 <= i < all.len() ==> run_rendered(files, #[trigger] run_entries(files)[i]) == Ok::<
                _,
                EntryErrorModel,
            >(all[i]),
    ensures
        run_outcome(readme, files) matches Ok(repo) ==> repo == with_entries(
            seeded_repo(readme),
            all,
        ),
        all.len() == 0 ==> run_outcome(readme, files) == Err::<RepoModel, _>(
            RunErrorModel::NoDocuments,
        ),
        all.len() > 0 && !fits(seeded_repo(readme).objects) ==> run_outcome(readme, files) == Err::<
            RepoModel,
            _,
        >(RunErrorModel::Full),
        all.len() > 0 && fits(seeded_repo(readme).objects) && (forall|i: int|
            0 <= i <= all.len() ==> fits(
                with_entries(seeded_repo(readme), #[trigger] all.take(i)).objects,
            )) ==> run_outcome(readme, files) is Ok,
{
    lemma_commits_are_entries(files, seeded_repo(readme), run_entries(files), all);
}

proof fn lemma_commits_are_entries(
    files: Seq<CachedModel>,
    repo: RepoModel,
    entries: Seq<EntryModel>,
    all: Seq<RenderedModel>,
)
    requires
        all.len() == entries.len(),
        forall|i: int|
            0 <= i < all.len() ==> run_rendered(files, #[trigger] entries[i]) == Ok::<
                _,
                EntryErrorModel,
            >(all[i]),
    ensures
        run_commits(files, repo, entries) matches Ok(done) ==> done == with_entries(repo, all),
        (forall|i: int|
            0 <= i <= all.len() ==> fits(with_entries(repo, #[trigger] all.take(i)).objects))
            ==> run_commits(files, repo, entries) is Ok,
    decreases entries.len(),
{
    if entries.len() > 0 {
        let rest = entries.drop_first();
        let more = all.drop_first();
        let first = seq![all[0]];
        let next = with_entry(repo, all[0]);
        assert(run_rendered(files, entries[0]) == Ok::<_, EntryErrorModel>(all[0]));
        assert forall|i: int| 0 <= i < more.len() implies run_rendered(files, #[trigger] rest[i])
            == Ok::<_, EntryErrorModel>(more[i]) by {
            assert(rest[i] == entries[i + 1]);
        }
        lemma_commits_are_entries(files, next, rest, more);
        lemma_commits_of_run(repo, all[0], first, more);
        assert(all =~= first + more);
        if forall|i: int|
            0 <= i <= all.len() ==> fits(with_entries(repo, #[trigger] all.take(i)).objects) {
            assert(all.take(1) =~= first);
            assert(fits(with_entries(repo, all.take(1)).objects));
            assert forall|i: int| 0 <= i <= more.len() implies fits(
                with_entries(next, #[trigger] more.take(i)).objects,
            ) by {
                assert(all.take(i + 1) =~= first + more.take(i));
                lemma_commits_of_run(repo, all[0], first, more.take(i));
                assert(fits(with_entries(repo, all.take(i + 1)).objects));
            }
        }
    }
}

/// Each document is read from the file of its name: planned by the metadata, and rendered by the
/// body, that stand in its bytes.
pub proof fn lemma_documents_are_read(files: Seq<CachedModel>, k: int, entry: EntryModel)
    requires
        distinct_files(files),
        0 <= k < files.len(),
        files[k].name == entry.stem + ".xml"@,
    ensures
        content_of(files, files[k].name) == files[k].content,
        file_plan(files, CacheFileModel { name: files[k].name, stem: entry.stem }) == plan_of(
            entry.stem,
            metadata_outcome(metadata_start(), xml_events(files[k].content)),
        ),
        run_rendered(files, entry) == rendered_entry(
            entry,
            body_outcome(body_start(), xml_events(files[k].content)),
        ),
{
    lemma_content_at(files, k);
}

/// A run ends at the first document that cannot be committed: with the error of the document where it
/// cannot be rendered, and as full where the pack cannot take it in.
pub proof fn lemma_first_failure(readme: Seq<u8>, files: Seq<CachedModel>, all: Seq<RenderedModel>)
    requires
        all.len() < run_entries(files).len(),
        fits(seeded_repo(readme).objects),
        forall|i: int|
            0 <= i < all.len() ==> run_rendered(files, #[trigger] run_entries(files)[i]) == Ok::<
                _,
                EntryErrorModel,
            >(all[i]),
        forall|i: int|
            0 <= i <= all.len() ==> fits(
                with_entries(seeded_repo(readme), #[trigger] all.take(i)).objects,
            ),
    ensures
        match run_rendered(files, run_entries(files)[all.len() as int]) {
            Err(error) => run_outcome(readme, files) == Err::<RepoModel, _>(
                RunErrorModel::Entry(error),
            ),
            Ok(rendered) => !fits(
                with_entry(with_entries(seeded_repo(readme), all), rendered).objects,
            ) ==> run_outcome(readme, files) == Err::<RepoModel, _>(RunErrorModel::Full),
        },
{
    lemma_commits_end(files, seeded_repo(readme), run_entries(files), all);
}

proof fn lemma_commits_end(
    files: Seq<CachedModel>,
    repo: RepoModel,
    entries: Seq<EntryModel>,
    all: Seq<RenderedModel>,
)
    requires
        all.len() < entries.len(),
        forall|i: int|
            0 <= i < all.len() ==> run_rendered(files, #[trigger] entries[i]) == Ok::<
                _,
                EntryErrorModel,
            >(all[i]),
        forall|i: int|
            0 <= i <= all.len() ==> fits(with_entries(repo, #[trigger] all.take(i)).objects),
    ensures
        match run_rendered(files, entries[all.len() as int]) {
            Err(error) => run_commits(files, repo, entries) == Err::<RepoModel, _>(
                RunErrorModel::Entry(error),
            ),
            Ok(rendered) => !fits(with_entry(with_entries(repo, all), rendered).objects)
                ==> run_commits(files, repo, entries) == Err::<RepoModel, _>(RunErrorModel::Full),
        },
    decreases entries.len(),
{
    if all.len() > 0 {
        let rest = entries.drop_first();
        let more = all.drop_first();
        let first = seq![all[0]];
        let next = with_entry(repo, all[0]);
        assert(run_rendered(files, entries[0]) == Ok::<_, EntryErrorModel>(all[0]));
        assert forall|i: int| 0 <= i < more.len() implies run_rendered(files, #[trigger] rest[i])
            == Ok::<_, EntryErrorModel>(more[i]) by {
            assert(rest[i] == entries[i + 1]);
        }
        assert(all =~= first + more);
        lemma_commits_of_run(repo, all[0], first, more);
        assert(all.take(1) =~= first);
        assert(fits(with_entries(repo, all.take(1)).objects));
        assert forall|i: int| 0 <= i <= more.len() implies fits(
            with_entries(next, #[trigger] more.take(i)).objects,
        ) by {
            assert(all.take(i + 1) =~= first + more.take(i));
            lemma_commits_of_run(repo, all[0], first, more.take(i));
            assert(fits(with_entries(repo, all.take(i + 1)).objects));
        }
        lemma_commits_end(files, next, rest, more);
        assert(rest[more.len() as int] == entries[all.len() as int]);
    } else {
        assert(with_entries(repo, all) == repo);
    }
}

/// The documents of a cache are planned one by one in the order of their names, each from the bytes
/// of its own file. Those that are planned are committed by date and id, and where these are the same
/// in the order of their names.
pub proof fn lemma_entries_of_cache(files: Seq<CachedModel>, i: int)
    requires
        0 <= i < stable_sorted(document_files(file_names(files))).len(),
    ensures
        ({
            let documents = stable_sorted(document_files(file_names(files)));
            &&& file_plans(files).len() == documents.len()
            &&& file_plans(files)[i] == plan_of(
                documents[i].stem,
                metadata_outcome(
                    metadata_start(),
                    xml_events(content_of(files, documents[i].name)),
                ),
            )
            &&& is_stable_sort(run_entries(files), planned_entries(file_plans(files)))
        }),
{
    lemma_stable_sorted(planned_entries(file_plans(files)));
}

} // verus!
