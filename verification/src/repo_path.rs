//! Paths of files in a repository.

use vstd::prelude::*;
use vstd::utf8::encode_utf8;

use crate::bytes::push_bytes;
use crate::text::{join, joined, texts};
use crate::tree::path_bytes;

verus! {

/// Owned repository path — either a root-level file or a deep ordinance file.
#[derive(Debug, PartialEq, Eq, Hash)]
pub enum RepoPathBuf {
    /// Root-level repository file such as `README.md`.
    RootFile(String),
    /// Ordinance markdown file at `ordinances/{광역}/{기초}/{type}/{name}/본문.md`.
    Ordinance {
        /// 광역시·도 (or `_미상`).
        gwangyeok: String,
        /// 기초 지자체 (or `_본청`).
        gicho: String,
        /// Normalized ordinance type (조례 / 규칙 / 훈령 / 예규).
        ordinance_type: String,
        /// NFC-normalized 자치법규명.
        name: String,
    },
}

/// What a [`RepoPathBuf`] stands for.
pub enum PathModel {
    RootFile(Seq<char>),
    Ordinance {
        gwangyeok: Seq<char>,
        gicho: Seq<char>,
        ordinance_type: Seq<char>,
        name: Seq<char>,
    },
}

impl View for RepoPathBuf {
    type V = PathModel;

    open spec fn view(&self) -> PathModel {
        match *self {
            RepoPathBuf::RootFile(name) => PathModel::RootFile(name@),
            RepoPathBuf::Ordinance { gwangyeok, gicho, ordinance_type, name } =>
                PathModel::Ordinance {
                    gwangyeok: gwangyeok@,
                    gicho: gicho@,
                    ordinance_type: ordinance_type@,
                    name: name@,
                },
        }
    }
}

impl PathModel {
    /// The names of the directories that lead to the file, and of the file itself.
    pub open spec fn segments(self) -> Seq<Seq<char>> {
        match self {
            PathModel::RootFile(name) => seq![name],
            PathModel::Ordinance { gwangyeok, gicho, ordinance_type, name } => seq![
                "ordinances"@,
                gwangyeok,
                gicho,
                ordinance_type,
                name,
                "본문.md"@,
            ],
        }
    }

    /// The same names as they stand in tree objects.
    pub open spec fn names(self) -> Seq<Seq<u8>> {
        self.segments().map_values(|s: Seq<char>| encode_utf8(s))
    }
}

impl Clone for RepoPathBuf {
    fn clone(&self) -> (r: Self)
        ensures
            r@ == self@,
    {
        match self {
            RepoPathBuf::RootFile(name) => RepoPathBuf::RootFile(name.clone()),
            RepoPathBuf::Ordinance { gwangyeok, gicho, ordinance_type, name } =>
                RepoPathBuf::Ordinance {
                    gwangyeok: gwangyeok.clone(),
                    gicho: gicho.clone(),
                    ordinance_type: ordinance_type.clone(),
                    name: name.clone(),
                },
        }
    }
}

impl RepoPathBuf {
    /// Creates a root-level repository path.
    pub fn root_file(name: &str) -> (r: Self)
        ensures
            r@ == PathModel::RootFile(name@),
    {
        RepoPathBuf::RootFile(name.to_owned())
    }

    /// Creates an ordinance markdown path.
    pub fn ordinance_file(
        gwangyeok: &str,
        gicho: &str,
        ordinance_type: &str,
        name: &str,
    ) -> (r: Self)
        ensures
            r@ == (PathModel::Ordinance {
                gwangyeok: gwangyeok@,
                gicho: gicho@,
                ordinance_type: ordinance_type@,
                name: name@,
            }),
    {
        RepoPathBuf::Ordinance {
            gwangyeok: gwangyeok.to_owned(),
            gicho: gicho.to_owned(),
            ordinance_type: ordinance_type.to_owned(),
            name: name.to_owned(),
        }
    }

    /// Returns the sequence of directory components leading to the leaf file.
    pub fn segments(&self) -> (r: Vec<String>)
        ensures
            texts(r@) == self@.segments(),
    {
        let mut out: Vec<String> = Vec::new();
        match self {
            RepoPathBuf::RootFile(name) => {
                out.push(name.clone());
            },
            RepoPathBuf::Ordinance { gwangyeok, gicho, ordinance_type, name } => {
                out.push("ordinances".to_owned());
                out.push(gwangyeok.clone());
                out.push(gicho.clone());
                out.push(ordinance_type.clone());
                out.push(name.clone());
                out.push("본문.md".to_owned());
            },
        }
        assert(texts(out@) =~= self@.segments());
        out
    }

    /// The same names as bytes.
    pub fn names(&self) -> (r: Vec<Vec<u8>>)
        ensures
            path_bytes(r@) == self@.names(),
    {
        let segments = self.segments();
        let mut out: Vec<Vec<u8>> = Vec::new();
        let mut i: usize = 0;
        while i < segments.len()
            invariant
                i <= segments@.len(),
                out@.len() == i,
                forall|j: int|
                    0 <= j < i ==> (#[trigger] out@[j])@ == encode_utf8(segments@[j]@),
            decreases segments@.len() - i,
        {
            let mut name: Vec<u8> = Vec::new();
            push_bytes(&mut name, segments[i].as_str().as_bytes());
            assert(name@ =~= encode_utf8(segments@[i as int]@));
            out.push(name);
            i += 1;
        }
        proof {
            assert(texts(segments@).len() == out@.len());
            assert forall|j: int| 0 <= j < out@.len() implies path_bytes(out@)[j]
                == self@.names()[j] by {
                assert(texts(segments@)[j] == segments@[j]@);
                assert(out@[j]@ == encode_utf8(segments@[j]@));
            }
            assert(path_bytes(out@) =~= self@.names());
        }
        out
    }

    /// Renders the repository path in Git's slash-separated form.
    pub fn to_string(&self) -> (r: String)
        ensures
            r@ == joined(self@.segments(), "/"@),
    {
        join(&self.segments(), "/")
    }
}

/// A file at the root is its own path. That of an ordinance leads through the directories of its
/// 광역, its 기초, its type and its name.
pub proof fn lemma_segments(
    gwangyeok: Seq<char>,
    gicho: Seq<char>,
    ordinance_type: Seq<char>,
    name: Seq<char>,
)
    ensures
        PathModel::RootFile(name).segments() == seq![name],
        PathModel::RootFile(name).names() == seq![encode_utf8(name)],
        (PathModel::Ordinance { gwangyeok, gicho, ordinance_type, name }).segments() == seq![
            "ordinances"@,
            gwangyeok,
            gicho,
            ordinance_type,
            name,
            "본문.md"@,
        ],
        (PathModel::Ordinance { gwangyeok, gicho, ordinance_type, name }).names() == seq![
            encode_utf8("ordinances"@),
            encode_utf8(gwangyeok),
            encode_utf8(gicho),
            encode_utf8(ordinance_type),
            encode_utf8(name),
            encode_utf8("본문.md"@),
        ],
{
    let deep = PathModel::Ordinance { gwangyeok, gicho, ordinance_type, name };
    assert(PathModel::RootFile(name).names() =~= seq![encode_utf8(name)]);
    assert(deep.names() =~= seq![
        encode_utf8("ordinances"@),
        encode_utf8(gwangyeok),
        encode_utf8(gicho),
        encode_utf8(ordinance_type),
        encode_utf8(name),
        encode_utf8("본문.md"@),
    ]);
}

} // verus!
