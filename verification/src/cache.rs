//! The files of a cache directory.

use vstd::prelude::*;
use vstd::utf8::encode_utf8;

use crate::lex::{
    lemma_lex_asymmetric, lemma_lex_decided, lemma_lex_transitive, lex_before, stands_before,
};
use crate::sort::{lemma_stable_sort_map, sort, stable_sorted, Rank, Ranked};
use crate::text::{
    ends_with, finishes_with, from_range, lemma_text_found, lemma_text_stands, texts, to_chars,
};

verus! {

/// A file that holds a document.
#[derive(Debug)]
pub struct CacheFile {
    /// The name of the file.
    pub name: String,
    /// The name without its extension.
    pub stem: String,
}

/// What a [`CacheFile`] stands for.
pub struct CacheFileModel {
    pub name: Seq<char>,
    pub stem: Seq<char>,
}

impl View for CacheFile {
    type V = CacheFileModel;

    open spec fn view(&self) -> CacheFileModel {
        CacheFileModel { name: self.name@, stem: self.stem@ }
    }
}

/// What stands in front of the extension `xml`, if the file name has it. A dot that begins a name
/// begins no extension.
pub open spec fn document_stem(name: Seq<char>) -> Option<Seq<char>> {
    if ends_with(name, ".xml"@) && name.len() > 4 {
        Some(name.take(name.len() - 4))
    } else {
        None
    }
}

/// The files among the given names that hold documents.
pub open spec fn document_files(names: Seq<Seq<char>>) -> Seq<CacheFileModel>
    decreases names.len(),
{
    if names.len() == 0 {
        Seq::empty()
    } else {
        let most = document_files(names.drop_last());
        match document_stem(names.last()) {
            Some(stem) => most.push(CacheFileModel { name: names.last(), stem }),
            None => most,
        }
    }
}

impl Rank for CacheFileModel {
    open spec fn precedes(self, other: Self) -> bool {
        lex_before(encode_utf8(self.name), encode_utf8(other.name))
    }

    proof fn lemma_asymmetric(a: Self, b: Self) {
        lemma_lex_asymmetric(encode_utf8(a.name), encode_utf8(b.name));
    }

    proof fn lemma_transitive(a: Self, b: Self, c: Self) {
        lemma_lex_transitive(encode_utf8(a.name), encode_utf8(b.name), encode_utf8(c.name));
    }
}

impl Rank for CacheFile {
    open spec fn precedes(self, other: Self) -> bool {
        self@.precedes(other@)
    }

    proof fn lemma_asymmetric(a: Self, b: Self) {
        CacheFileModel::lemma_asymmetric(a@, b@);
    }

    proof fn lemma_transitive(a: Self, b: Self, c: Self) {
        CacheFileModel::lemma_transitive(a@, b@, c@);
    }
}

impl Ranked for CacheFile {
    fn comes_before(&self, other: &Self) -> (r: bool) {
        stands_before(self.name.as_str().as_bytes(), other.name.as_str().as_bytes())
    }
}

/// The views of files.
pub open spec fn file_views(files: Seq<CacheFile>) -> Seq<CacheFileModel> {
    files.map_values(|f: CacheFile| f@)
}

/// Selects the document files of a directory, in deterministic name order.
pub fn sorted_documents(names: Vec<String>) -> (r: Vec<CacheFile>)
    ensures
        file_views(r@) == stable_sorted(document_files(texts(names@))),
{
    let ghost all = texts(names@);
    let mut files: Vec<CacheFile> = Vec::new();
    let mut i: usize = 0;
    assert(file_views(files@) =~= document_files(all.take(0)));
    while i < names.len()
        invariant
            i <= names@.len(),
            all == texts(names@),
            file_views(files@) == document_files(all.take(i as int)),
        decreases names@.len() - i,
    {
        let ghost before = files@;
        let name = &names[i];
        assert(all.take(i + 1).drop_last() =~= all.take(i as int));
        assert(all.take(i + 1).last() == name@);
        let chars = to_chars(name.as_str());
        if finishes_with(name.as_str(), ".xml") && chars.len() > 4 {
            let stem = from_range(&chars, 0, chars.len() - 4);
            assert(stem@ =~= name@.take(name@.len() - 4));
            let file = CacheFile { name: name.clone(), stem };
            files.push(file);
            assert(file_views(files@) =~= file_views(before).push(file@));
        }
        i += 1;
    }
    assert(all.take(i as int) =~= all);
    let ghost found = files@;
    let sorted = sort(files);
    proof {
        let f = |c: CacheFile| c@;
        assert forall|x: CacheFile, y: CacheFile| #[trigger]
            f(x).precedes(#[trigger] f(y)) == x.precedes(y) by {}
        lemma_stable_sort_map(sorted@, found, f);
        assert(sorted@.map_values(f) =~= file_views(sorted@));
        assert(found.map_values(f) =~= file_views(found));
    }
    sorted
}

/// A file whose name has another extension, wherever it is listed, leaves the documents as they are.
pub proof fn lemma_other_file(names: Seq<Seq<char>>, at: int, name: Seq<char>)
    requires
        0 <= at <= names.len(),
        document_stem(name) is None,
    ensures
        document_files(names.insert(at, name)) == document_files(names),
    decreases names.len(),
{
    let more = names.insert(at, name);
    if at == names.len() {
        assert(more.drop_last() =~= names);
    } else {
        assert(more.drop_last() =~= names.drop_last().insert(at, name));
        lemma_other_file(names.drop_last(), at, name);
    }
}

/// The documents among files are those whose names have the extension, each once where no name is
/// there twice.
pub proof fn lemma_document_files(names: Seq<Seq<char>>)
    ensures
        forall|x: CacheFileModel| #[trigger]
            document_files(names).contains(x) == (names.contains(x.name) && document_stem(x.name)
                == Some(x.stem)),
        names.no_duplicates() ==> document_files(names).no_duplicates(),
    decreases names.len(),
{
    let found = document_files(names);
    if names.len() > 0 {
        let rest = names.drop_last();
        let last = names.last();
        let most = document_files(rest);
        lemma_document_files(rest);
        assert forall|x: CacheFileModel| #[trigger]
            found.contains(x) == (names.contains(x.name) && document_stem(x.name) == Some(
                x.stem,
            )) by {
            if found.contains(x) {
                let k = choose|k: int| 0 <= k < found.len() && found[k] == x;
                if k < most.len() {
                    assert(most[k] == x);
                    assert(most.contains(x));
                    let m = choose|m: int| 0 <= m < rest.len() && rest[m] == x.name;
                    assert(names[m] == x.name);
                } else {
                    assert(names[names.len() - 1] == x.name);
                }
            }
            if names.contains(x.name) && document_stem(x.name) == Some(x.stem) {
                let m = choose|m: int| 0 <= m < names.len() && names[m] == x.name;
                if m < rest.len() {
                    assert(rest[m] == x.name);
                    assert(rest.contains(x.name));
                    assert(most.contains(x));
                    let k = choose|k: int| 0 <= k < most.len() && most[k] == x;
                    assert(found[k] == x);
                } else {
                    assert(found[most.len() as int] == x);
                }
            }
        }
        if names.no_duplicates() {
            assert(rest.no_duplicates());
            if let Some(stem) = document_stem(last) {
                let x = CacheFileModel { name: last, stem };
                if most.contains(x) {
                    let m = choose|m: int| 0 <= m < rest.len() && rest[m] == last;
                    assert(names[m] == names[names.len() - 1]);
                }
                assert(found == most.push(x));
                assert forall|i: int, j: int|
                    0 <= i < found.len() && 0 <= j < found.len() && i != j implies found[i]
                    != found[j] by {
                    if i < most.len() {
                        assert(most.contains(most[i]));
                    }
                    if j < most.len() {
                        assert(most.contains(most[j]));
                    }
                }
            }
        }
    } else {
        assert forall|x: CacheFileModel| !(#[trigger] found.contains(x)) by {}
        assert forall|x: CacheFileModel| !names.contains(x.name) by {}
    }
}

/// A document is a file whose name ends with `.xml` behind a stem that is not empty.
pub proof fn lemma_stems(name: Seq<char>, stem: Seq<char>)
    ensures
        document_stem(name) == Some(stem) <==> stem.len() > 0 && name == stem + ".xml"@,
        document_stem(name) is Some <==> name.len() > 4 && ends_with(name, ".xml"@),
{
    reveal_strlit(".xml");
    let whole = stem + ".xml"@;
    lemma_text_found(stem, ".xml"@, Seq::empty());
    assert(whole.take(whole.len() - 4) =~= stem);
    lemma_text_stands(name, ".xml"@);
}

/// Of two files the one whose name stands first by its bytes comes first.
pub proof fn lemma_files_by_name(a: CacheFileModel, b: CacheFileModel, k: int)
    requires
        0 <= k < encode_utf8(a.name).len(),
        k < encode_utf8(b.name).len(),
        forall|i: int| 0 <= i < k ==> encode_utf8(a.name)[i] == encode_utf8(b.name)[i],
        encode_utf8(a.name)[k] < encode_utf8(b.name)[k],
    ensures
        a.precedes(b),
        !b.precedes(a),
{
    lemma_lex_decided(encode_utf8(a.name), encode_utf8(b.name), k);
}

/// The documents of two lists of files are those of the one behind those of the other.
pub proof fn lemma_documents_in_two(a: Seq<Seq<char>>, b: Seq<Seq<char>>)
    ensures
        document_files(a + b) == document_files(a) + document_files(b),
    decreases b.len(),
{
    if b.len() == 0 {
        assert(a + b =~= a);
        assert(document_files(a) + document_files(b) =~= document_files(a));
    } else {
        lemma_documents_in_two(a, b.drop_last());
        assert((a + b).drop_last() =~= a + b.drop_last());
        assert(document_files(a + b) =~= document_files(a) + document_files(b));
    }
}

} // verus!
