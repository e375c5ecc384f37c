use std::collections::HashMap;

use ordinance_compiler::cache::sorted_documents;
use ordinance_compiler::compile::{render_entry, xml_file_name, Compilation, EntryError};
use ordinance_compiler::object::{git_hash, hex, precompute_blob, Checksum, PackObjectKind};
use ordinance_compiler::pack::{PackError, PackWriter, COUNT_OFFSET};
use ordinance_compiler::plan::{plan_entry, schedule, skip_warning, PlanOutcome};
use ordinance_compiler::repo::{render_commit, temp_dir_name, BareRepoWriter, FinishedRepo};
use ordinance_compiler::repo_path::RepoPathBuf;
use ordinance_compiler::run::{compile_cache, CachedFile, RunError};
use ordinance_compiler::timestamp::GitTimestampKst;
use sha1::{Digest, Sha1};

const README: &[u8] = "# ordinance-kr\n".as_bytes();

const SAMPLE_1: &str = r#"<?xml version="1.0" encoding="UTF-8"?>
<LawService>
  <자치법규기본정보>
    <자치법규ID>1001</자치법규ID>
    <공포일자>20200101</공포일자>
    <공포번호>1</공포번호>
    <자치법규명><![CDATA[서울특별시 샘플 조례]]></자치법규명>
    <시행일자>20200201</시행일자>
    <자치법규종류>C0001</자치법규종류>
    <지자체기관명>서울특별시</지자체기관명>
    <담당부서명>총무과</담당부서명>
    <제개정정보>제정</제개정정보>
  </자치법규기본정보>
  <조문>
    <조 조문번호='000100'>
      <조문번호>000100</조문번호>
      <조제목><![CDATA[목적]]></조제목>
      <조내용><![CDATA[제1조(목적) 이 조례는 ...]]></조내용>
    </조>
  </조문>
  <부칙>
    <부칙내용><![CDATA[이 조례는 공포한 날부터 시행한다.]]></부칙내용>
  </부칙>
</LawService>"#;

const SAMPLE_2: &str = r#"<?xml version="1.0" encoding="UTF-8"?>
<LawService>
  <자치법규기본정보>
    <자치법규ID>1002</자치법규ID>
    <공포일자>20210101</공포일자>
    <공포번호>2</공포번호>
    <자치법규명><![CDATA[강남구 샘플 규칙]]></자치법규명>
    <시행일자>20210201</시행일자>
    <자치법규종류>C0002</자치법규종류>
    <지자체기관명>서울특별시 강남구</지자체기관명>
    <담당부서명>총무과</담당부서명>
    <제개정정보>제정</제개정정보>
  </자치법규기본정보>
  <조문>
    <조 조문번호='000100'>
      <조문번호>000100</조문번호>
      <조제목><![CDATA[목적]]></조제목>
      <조내용><![CDATA[제1조(목적) 이 규칙은 ...]]></조내용>
    </조>
  </조문>
</LawService>"#;

const SAMPLE_3: &str = r#"<?xml version="1.0" encoding="UTF-8"?>
<LawService>
  <자치법규기본정보>
    <자치법규ID>1003</자치법규ID>
    <공포일자>20220303</공포일자>
    <공포번호>3</공포번호>
    <자치법규명><![CDATA[부산광역시 샘플 조례]]></자치법규명>
    <시행일자>20220403</시행일자>
    <자치법규종류>C0001</자치법규종류>
    <지자체기관명>부산광역시</지자체기관명>
    <담당부서명>총무과</담당부서명>
    <제개정정보>일부개정</제개정정보>
  </자치법규기본정보>
  <조문>
    <조 조문번호='000100'>
      <조문번호>000100</조문번호>
      <조제목><![CDATA[목적]]></조제목>
      <조내용><![CDATA[제1조(목적) 이 조례는 ...]]></조내용>
    </조>
  </조문>
</LawService>"#;

const SAMPLE_INVALID: &str = r#"<!DOCTYPE html><html><body>err</body></html>"#;

/// A finished repository, read back from its files.
struct OpenRepo {
    objects: HashMap<String, (u8, Vec<u8>)>,
    head: String,
}

fn be32(bytes: &[u8]) -> usize {
    u32::from_be_bytes(bytes[..4].try_into().unwrap()) as usize
}

/// Reads the header of a pack entry: the kind, the size and the length of the header.
fn entry_header(bytes: &[u8]) -> (u8, usize, usize) {
    let kind = bytes[0] >> 4 & 7;
    let mut size = (bytes[0] & 15) as usize;
    let mut shift = 4;
    let mut at = 0;
    while bytes[at] & 0x80 != 0 {
        at += 1;
        size |= ((bytes[at] & 0x7f) as usize) << shift;
        shift += 7;
    }
    (kind, size, at + 1)
}

impl OpenRepo {
    /// Reads the pack with the help of its index, and checks each against the other.
    fn open(pack: &[u8], finished: &FinishedRepo) -> Self {
        let idx = &finished.index;
        let body = &pack[..pack.len() - 20];
        let pack_sum = &pack[pack.len() - 20..];
        assert_eq!(Sha1::digest(body)[..], *pack_sum);
        assert_eq!(&pack[..8], b"PACK\0\0\0\x02");
        let count = be32(&pack[8..]);

        assert_eq!(&idx[..8], b"\xfftOc\0\0\0\x02");
        assert_eq!(Sha1::digest(&idx[..idx.len() - 20])[..], idx[idx.len() - 20..]);
        assert_eq!(&idx[idx.len() - 40..idx.len() - 20], pack_sum);
        assert_eq!(idx.len(), 8 + 1024 + count * 28 + 40);
        let ids = &idx[1032..1032 + count * 20];
        let crcs = &idx[1032 + count * 20..];
        let offsets = &idx[1032 + count * 24..];
        let mut starts: Vec<usize> = (0..count).map(|i| be32(&offsets[4 * i..])).collect();
        starts.push(body.len());
        starts.sort();
        assert_eq!(starts[0], 12);
        for byte in 0..256 {
            let upto = (0..count).filter(|i| ids[20 * i] as usize <= byte).count();
            assert_eq!(be32(&idx[8 + 4 * byte..]), upto);
        }

        let mut objects = HashMap::new();
        for i in 0..count {
            let id = &ids[20 * i..20 * i + 20];
            assert!(i == 0 || ids[20 * i - 20..20 * i] < *id);
            let start = be32(&offsets[4 * i..]);
            let next = *starts.iter().find(|at| **at > start).unwrap();
            let entry = &body[start..next];
            assert_eq!(crc32fast::hash(entry) as usize, be32(&crcs[4 * i..]));
            let (kind, size, length) = entry_header(entry);
            let mut data = vec![0; size];
            let got = libdeflater::Decompressor::new()
                .zlib_decompress(&entry[length..], &mut data)
                .unwrap();
            assert_eq!(got, size);
            let name = ["", "commit", "tree", "blob"][kind as usize];
            let mut hasher = Sha1::new();
            hasher.update(format!("{name} {size}\0").as_bytes());
            hasher.update(&data);
            assert_eq!(hasher.finalize()[..], *id);
            let id: [u8; 20] = id.try_into().unwrap();
            objects.insert(hex(&id), (kind, data));
        }
        let head = finished.main_ref.clone().unwrap_or_default();
        OpenRepo {
            objects,
            head: head.trim_end().to_owned(),
        }
    }

    fn commit(&self, id: &str) -> String {
        let (kind, data) = &self.objects[id];
        assert_eq!(*kind, 1);
        String::from_utf8(data.clone()).unwrap()
    }

    /// The texts of all commits, newest first.
    fn history(&self) -> Vec<String> {
        let mut out = Vec::new();
        let mut next = Some(self.head.clone());
        while let Some(id) = next {
            let text = self.commit(&id);
            next = text
                .lines()
                .find_map(|line| line.strip_prefix("parent "))
                .map(str::to_owned);
            out.push(text);
        }
        out
    }

    fn tree_of(&self, commit: &str) -> String {
        let text = self.commit(commit);
        text.lines().next().unwrap().strip_prefix("tree ").unwrap().to_owned()
    }

    fn list(&self, tree: &str) -> Vec<(bool, String, String)> {
        let (kind, data) = &self.objects[tree];
        assert_eq!(*kind, 2);
        let mut rest = &data[..];
        let mut out = Vec::new();
        while !rest.is_empty() {
            let nul = rest.iter().position(|b| *b == 0).unwrap();
            let line = std::str::from_utf8(&rest[..nul]).unwrap();
            let (mode, name) = line.split_once(' ').unwrap();
            assert!(mode == "40000" || mode == "100644");
            let id: [u8; 20] = rest[nul + 1..nul + 21].try_into().unwrap();
            out.push((mode == "40000", name.to_owned(), hex(&id)));
            rest = &rest[nul + 21..];
        }
        out
    }

    /// The paths of all files below a tree, with their blob ids.
    fn walk(&self, tree: &str, prefix: &str, out: &mut Vec<(String, String)>) {
        for (is_tree, name, id) in self.list(tree) {
            let path = format!("{prefix}{name}");
            if is_tree {
                self.walk(&id, &format!("{path}/"), out);
            } else {
                out.push((path, id));
            }
        }
    }

    fn files(&self) -> Vec<(String, String)> {
        let mut out = Vec::new();
        self.walk(&self.tree_of(&self.head), "", &mut out);
        out
    }

    fn show(&self, path: &str) -> String {
        let files = self.files();
        let (_, id) = files.iter().find(|(name, _)| name == path).unwrap();
        let (kind, data) = &self.objects[id];
        assert_eq!(*kind, 3);
        String::from_utf8(data.clone()).unwrap()
    }
}

/// The pack file of a repository, with its number of objects and its checksum filled in.
fn finish(mut repo: BareRepoWriter) -> (Vec<u8>, FinishedRepo) {
    let mut pack = repo.take_pending();
    let at = COUNT_OFFSET as usize;
    pack[at..at + 4].copy_from_slice(&repo.count_field());
    let mut sum = Checksum::new();
    let (front, back) = pack.split_at(pack.len() / 2);
    sum.update(front);
    sum.update(back);
    let checksum = sum.finish();
    pack.extend_from_slice(&checksum);
    (pack, repo.finish(&checksum))
}

fn read(repo: BareRepoWriter) -> OpenRepo {
    let (pack, finished) = finish(repo);
    OpenRepo::open(&pack, &finished)
}

/// Compiles documents, given as pairs of file name and content.
fn compile(documents: &[(&str, &str)]) -> BareRepoWriter {
    let names = documents.iter().map(|(name, _)| name.to_string()).collect();
    let files = sorted_documents(names);
    let content = |name: &str| documents.iter().find(|d| d.0 == name).unwrap().1.as_bytes();
    let outcomes = files.iter().map(|f| plan_entry(&f.stem, content(&f.name))).collect();
    let entries = schedule(outcomes).unwrap();
    let mut run = Compilation::start(README, entries.len()).unwrap();
    for (i, entry) in entries.iter().enumerate() {
        let rendered = render_entry(entry, content(&xml_file_name(&entry.stem))).unwrap();
        let report = run.commit_next(&rendered).unwrap();
        assert_eq!(report, i + 1 == entries.len());
        assert_eq!(run.progress(), (i + 1, entries.len()));
    }
    run.into_repo()
}

/// The files of a cache, given as pairs of file name and content.
fn cache(documents: &[(&str, &str)]) -> Vec<CachedFile> {
    let file = |(name, content): &(&str, &str)| CachedFile {
        name: name.to_string(),
        content: content.as_bytes().to_vec(),
    };
    documents.iter().map(file).collect()
}

/// The id of the newest commit that is made of documents.
fn newest(documents: &[(&str, &str)]) -> String {
    let repo = compile_cache(README, &cache(documents)).ok().unwrap();
    read(repo).head
}

fn author_date(commit: &str) -> String {
    let line = commit.lines().find(|line| line.starts_with("author ")).unwrap();
    let mut words = line.rsplit(' ');
    assert_eq!(words.next(), Some("+0900"));
    let epoch: i64 = words.next().unwrap().parse().unwrap();
    let moment = time::OffsetDateTime::from_unix_timestamp(epoch).unwrap();
    let moment = moment.to_offset(time::UtcOffset::from_hms(9, 0, 0).unwrap());
    format!("{:04}-{:02}-{:02}", moment.year(), u8::from(moment.month()), moment.day())
}

#[test]
fn builds_deep_tree_layout() {
    let mut writer = BareRepoWriter::create();

    writer
        .commit_static(
            &RepoPathBuf::root_file("README.md"),
            b"hello\n",
            "initial commit",
            0,
        )
        .unwrap();

    let (blob, compressed) = precompute_blob(b"body\n");
    writer
        .commit_ordinance(
            &RepoPathBuf::ordinance_file("서울특별시", "_본청", "조례", "샘플 조례"),
            b"body\n",
            blob,
            &compressed,
            "조례: 샘플 조례\n\n자치법규ID: 1",
            GitTimestampKst::from_promulgation_date("20240101").unwrap(),
        )
        .unwrap();

    let repo = read(writer);
    assert_eq!(repo.history().len(), 2);

    let files = repo.files();
    assert!(files.iter().any(|f| f.0 == "README.md"));
    assert!(files
        .iter()
        .any(|f| f.0 == "ordinances/서울특별시/_본청/조례/샘플 조례/본문.md"));

    let body = repo.show("ordinances/서울특별시/_본청/조례/샘플 조례/본문.md");
    assert_eq!(body, "body\n");
}

#[test]
fn end_to_end_builds_bare_repo() {
    let repo = compile(&[
        ("1001.xml", SAMPLE_1),
        ("1002.xml", SAMPLE_2),
        ("1003.xml", SAMPLE_3),
        ("9999.xml", SAMPLE_INVALID),
    ]);
    let (pack, finished) = finish(repo);
    assert_eq!(finished.head, "ref: refs/heads/main\n");
    let repo = OpenRepo::open(&pack, &finished);
    let history = repo.history();
    assert_eq!(history.len(), 4);

    let names: Vec<String> = repo.files().into_iter().map(|f| f.0).collect();
    assert!(names.contains(&"README.md".to_owned()));
    assert!(names.iter().any(|n| n.ends_with("/서울특별시 샘플 조례/본문.md")));
    assert!(names.iter().any(|n| n.ends_with("/강남구 샘플 규칙/본문.md")));
    assert!(names.iter().any(|n| n.ends_with("/부산광역시 샘플 조례/본문.md")));

    let mut dates = history.iter().rev().map(|commit| author_date(commit));
    let initial = dates.next().unwrap();
    assert!(initial.starts_with("1970-01-01") || initial.starts_with("1970-01-02"));
    let second = dates.next().unwrap();
    assert!(
        second.starts_with("2020-01-01"),
        "expected oldest ordinance first: {second}"
    );

    let markdown = repo.show("ordinances/서울특별시/_본청/조례/서울특별시 샘플 조례/본문.md");
    assert!(markdown.contains("ordinance_type: 조례"));
    assert!(markdown.contains("자치법규ID: '1001'"));
    assert!(markdown.contains("##### 제1조 (목적)"));

    let author = history[0].lines().find(|line| line.starts_with("author ")).unwrap();
    assert!(author.contains("<bot@legalize.kr>"));
}

#[test]
fn one_cache_has_one_history() {
    let documents = [("1001.xml", SAMPLE_1), ("1002.xml", SAMPLE_2), ("1003.xml", SAMPLE_3)];
    let head = newest(&documents);
    assert_eq!(head, read(compile(&documents)).head);
    for (a, b, c) in [(0, 2, 1), (1, 0, 2), (1, 2, 0), (2, 0, 1), (2, 1, 0)] {
        assert_eq!(head, newest(&[documents[a], documents[b], documents[c]]));
    }
    assert_ne!(head, newest(&documents[..2]));
}

#[test]
fn skipped_files_leave_the_history() {
    let documents = [("1001.xml", SAMPLE_1), ("1002.xml", SAMPLE_2)];
    let head = newest(&documents);
    let nameless = ordinance("1", "19990101", " ");
    for skipped in [
        ("0.txt", SAMPLE_3),
        ("0.xml", SAMPLE_INVALID),
        ("5.xml", "<LawService></Other>"),
        ("1001.5.xml", nameless.as_str()),
        (".xml", SAMPLE_3),
    ] {
        assert_eq!(head, newest(&[skipped, documents[0], documents[1]]));
        assert_eq!(head, newest(&[documents[0], skipped, documents[1]]));
        assert_eq!(head, newest(&[documents[1], documents[0], skipped]));
    }
}

#[test]
fn caches_without_a_history_are_errors() {
    let error = compile_cache(README, &cache(&[("0.xml", SAMPLE_INVALID)])).err().unwrap();
    assert!(matches!(error, RunError::NoDocuments));
    let broken = ordinance("1", "20200101", "이름")
        .replace("</LawService>", "<조문><조><조내용>&x;</조내용></조></조문></LawService>");
    let error = compile_cache(README, &cache(&[("0.xml", broken.as_str())])).err().unwrap();
    assert!(matches!(error, RunError::Entry(EntryError::Parse(_))));
}

#[test]
fn names_of_the_repository_files() {
    let mut repo = BareRepoWriter::create();
    repo.commit_static(&RepoPathBuf::root_file("a"), b"", "m", -5).unwrap();
    let (pack, finished) = finish(repo);
    let sum: [u8; 20] = pack[pack.len() - 20..].try_into().unwrap();
    assert_eq!(finished.pack_name, format!("pack-{}.pack", hex(&sum)));
    assert_eq!(finished.index_name, format!("pack-{}.idx", hex(&sum)));
    let reader = OpenRepo::open(&pack, &finished);
    assert_eq!(finished.main_ref, Some(format!("{}\n", reader.head)));
    assert_eq!(reader.objects.len(), 3);
    assert!(reader.objects.contains_key("e69de29bb2d1d6434b8b29ae775ad8c2e48c5391"));
    assert!(reader.commit(&reader.head).ends_with(
        "\nauthor legalize-kr-bot <bot@legalize.kr> -5 +0900\n\
         committer legalize-kr-bot <bot@legalize.kr> -5 +0900\n\nm"
    ));
    assert_eq!(temp_dir_name("output.git", 4711), ".output.git.tmp-4711");
}

#[test]
fn a_repository_without_commits_has_no_branch() {
    let (pack, finished) = finish(BareRepoWriter::create());
    assert!(finished.main_ref.is_none());
    assert_eq!(pack.len(), 32);
    assert!(OpenRepo::open(&pack, &finished).objects.is_empty());
}

#[test]
fn later_commits_keep_other_files() {
    let mut repo = BareRepoWriter::create();
    let path = |name: &str| RepoPathBuf::ordinance_file("경기도", "_본청", "조례", name);
    for (name, content) in [("가", "1"), ("나", "2"), ("가", "3"), ("다", "2")] {
        repo.commit_static(&path(name), content.as_bytes(), name, 1).unwrap();
    }
    let reader = read(repo);
    assert_eq!(reader.show("ordinances/경기도/_본청/조례/가/본문.md"), "3");
    assert_eq!(reader.show("ordinances/경기도/_본청/조례/나/본문.md"), "2");
    assert_eq!(reader.show("ordinances/경기도/_본청/조례/다/본문.md"), "2");
    assert_eq!(reader.files().len(), 3);
    let blobs = reader.objects.values().filter(|o| o.0 == 3).count();
    assert_eq!(blobs, 3);
    let subjects: Vec<String> = reader
        .history()
        .iter()
        .map(|c| c.rsplit("\n\n").next().unwrap().to_owned())
        .collect();
    assert_eq!(subjects, ["다", "가", "나", "가"]);
}

#[test]
fn trees_list_directories_as_if_they_ended_in_a_slash() {
    let mut repo = BareRepoWriter::create();
    for name in ["ordinances.md", "ordinances-a", "ordinances0"] {
        repo.commit_static(&RepoPathBuf::root_file(name), b"x", "m", 0).unwrap();
    }
    let deep = RepoPathBuf::ordinance_file("a", "b", "c", "d");
    repo.commit_static(&deep, b"y", "m", 0).unwrap();
    let reader = read(repo);
    let root = reader.list(&reader.tree_of(&reader.head));
    let names: Vec<&str> = root.iter().map(|line| line.1.as_str()).collect();
    assert_eq!(names, ["ordinances-a", "ordinances.md", "ordinances", "ordinances0"]);
}

#[test]
fn trees_list_files_before_directories_of_the_same_beginning() {
    let mut repo = BareRepoWriter::create();
    let deep = RepoPathBuf::ordinance_file("a", "b", "c", "d");
    repo.commit_static(&deep, b"y", "m", 0).unwrap();
    for name in ["ordinances0", "ordinances/x", "ordinances", "ordinances/"] {
        repo.commit_static(&RepoPathBuf::root_file(name), b"x", "m", 0).unwrap();
    }
    let reader = read(repo);
    let root = reader.list(&reader.tree_of(&reader.head));
    let names: Vec<(bool, &str)> = root.iter().map(|line| (line.0, line.1.as_str())).collect();
    assert_eq!(
        names,
        [
            (false, "ordinances"),
            (false, "ordinances/"),
            (false, "ordinances/x"),
            (true, "ordinances"),
            (false, "ordinances0"),
        ]
    );
}

#[test]
fn object_ids_are_the_known_ones() {
    assert_eq!(
        hex(&git_hash(PackObjectKind::Blob, b"hello\n")),
        "ce013625030ba8dba906f756967f9e9ca394464a"
    );
    assert_eq!(
        hex(&git_hash(PackObjectKind::Tree, b"")),
        "4b825dc642cb6eb9a060e54bf8d69288fbee4904"
    );
    let (id, payload) = precompute_blob(b"body\n");
    assert_eq!(hex(&id), "273a402f0f8b00fbf84e9f5aad031ed5446413e4");
    let mut back = vec![0; 5];
    libdeflater::Decompressor::new().zlib_decompress(&payload, &mut back).unwrap();
    assert_eq!(back, b"body\n");
    assert_ne!(payload, b"body\n");
}

#[test]
fn objects_enter_a_pack_once() {
    let mut pack = PackWriter::new();
    assert_eq!(pack.take_pending(), b"PACK\0\0\0\x02\0\0\0\0");
    let big: Vec<u8> = (0..300u32).flat_map(|n| n.to_be_bytes()).collect();
    let id = pack.write_object(PackObjectKind::Blob, &big).unwrap();
    assert_eq!(id, git_hash(PackObjectKind::Blob, &big));
    assert_eq!(pack.count_field(), [0, 0, 0, 1]);
    let bytes = pack.take_pending();
    assert_eq!(entry_header(&bytes), (3, 1200, 2));
    assert_eq!(&bytes[..2], [0xb0, 0x4b]);
    assert_eq!(pack.write_object(PackObjectKind::Blob, &big), Ok(id));
    assert!(pack.take_pending().is_empty());
    assert_eq!(
        pack.write_precompressed_object(PackObjectKind::Commit, 15, [7; 20], b"zz"),
        Ok([7; 20])
    );
    assert_eq!(pack.take_pending(), b"\x1fzz");
    assert_eq!(pack.count_field(), [0, 0, 0, 2]);
    let index = pack.finish(&[9; 20]);
    assert_eq!(index.len(), 8 + 1024 + 2 * 28 + 40);
    assert_eq!(PackError::Full.to_string(), "too many objects for one pack");
}

#[test]
fn commit_texts_name_their_parent() {
    let people = ordinance_compiler::repo::bot();
    let time = GitTimestampKst::from_epoch(42);
    let text = render_commit(&[0x0f; 20], &Some([0xa0; 20]), "m\n", people, time);
    assert_eq!(
        text,
        format!(
            "tree {}\nparent {}\nauthor legalize-kr-bot <bot@legalize.kr> 42 +0900\n\
             committer legalize-kr-bot <bot@legalize.kr> 42 +0900\n\nm\n",
            "0f".repeat(20),
            "a0".repeat(20)
        )
    );
    let text = render_commit(&[0x0f; 20], &None, "m", people, time);
    assert!(!text.contains("parent"));
}

fn ordinance(id: &str, date: &str, name: &str) -> String {
    format!(
        "<LawService><자치법규ID>{id}</자치법규ID><공포일자>{date}</공포일자>\
         <자치법규명>{name}</자치법규명><자치법규종류>조례</자치법규종류></LawService>"
    )
}

#[test]
fn commits_follow_dates_and_ids() {
    let documents = [
        ("a.xml", ordinance("10", "20200101", "열")),
        ("b.xml", ordinance("+9", "20200101", "아홉")),
        ("c.xml", ordinance("x2", "20200101", "엑스")),
        ("d.xml", ordinance("99999999999999999999", "20200101", "큰 수")),
        ("e.xml", ordinance("1", "20210101", "나중")),
        ("f.xml", ordinance("1", "", "날짜 없음")),
        ("g.xml", ordinance("009", "20200101", "다시 아홉")),
    ];
    let outcomes = documents.iter().map(|(n, x)| plan_entry(n, x.as_bytes())).collect();
    let entries = schedule(outcomes).unwrap();
    let order: Vec<&str> = entries.iter().map(|e| e.stem.as_str()).collect();
    assert_eq!(order, ["f.xml", "b.xml", "g.xml", "a.xml", "d.xml", "c.xml", "e.xml"]);
}

#[test]
fn skipped_documents_get_a_warning() {
    let planned = plan_entry("1", ordinance("1", "20200101", "이름").as_bytes());
    assert!(matches!(planned, PlanOutcome::Planned(_)));
    assert!(skip_warning(&planned, "1.xml").is_none());
    let nameless = plan_entry("1", ordinance("1", "20200101", " ").as_bytes());
    assert!(matches!(nameless, PlanOutcome::MissingTypeOrName));
    assert_eq!(
        skip_warning(&nameless, "1.xml").unwrap(),
        "warning: skipping ordinance with missing type/name: 1.xml"
    );
    let other = plan_entry("1", SAMPLE_INVALID.as_bytes());
    assert!(matches!(other, PlanOutcome::NotOrdinance));
    assert_eq!(
        skip_warning(&other, "1.xml").unwrap(),
        "warning: skipping non-ordinance XML 1.xml"
    );
    let broken = plan_entry("1", b"<LawService><ID>\xff</ID></LawService>");
    assert!(matches!(broken, PlanOutcome::Unparsable(_)));
    assert_eq!(
        skip_warning(&broken, "1.xml").unwrap(),
        "warning: skipping unparsable cache file 1.xml: text node is not valid UTF-8: \
         invalid utf-8 sequence of 1 bytes from index 0"
    );
    assert!(schedule(vec![nameless, other, broken]).is_none());
}

#[test]
fn rendering_reports_what_cannot_be_read() {
    let PlanOutcome::Planned(entry) = plan_entry("7", ordinance("7", "20201340", "이름").as_bytes())
    else {
        unreachable!()
    };
    let rendered = render_entry(&entry, ordinance("7", "20201340", "이름").as_bytes()).unwrap();
    assert_eq!(rendered.time.epoch(), 0);
    assert_eq!(rendered.blob_sha, git_hash(PackObjectKind::Blob, &rendered.markdown));
    assert!(rendered.message.starts_with("조례: 이름\n\n공포일자: 2020-13-40\n"));
    let markdown = String::from_utf8(rendered.markdown).unwrap();
    assert!(markdown.starts_with("---\njurisdiction: ''\n"));
    assert!(markdown.ends_with("---\n\n> 본문이 제공되지 않습니다.\n"));
    let error = render_entry(&entry, b"<a></b>").err().unwrap();
    assert!(matches!(error, EntryError::Parse(_)));
    let cause = "expected `</a>`, but `</b>` was found";
    assert_eq!(error.to_string(), format!("ill-formed document: {cause}"));
    assert_eq!(error.to_chain(), format!("ill-formed document: {cause}: {cause}"));
    assert_eq!(format!("{:?}", entry.clone()), format!("{entry:?}"));
}

#[test]
fn document_files_come_in_name_order() {
    let names = ["b.xml", "a.xml.bak", "a-1.xml", ".xml", "a.xml", "xml", "..xml", "B.XML"];
    let files = sorted_documents(names.iter().map(|n| n.to_string()).collect());
    let found: Vec<(&str, &str)> =
        files.iter().map(|f| (f.name.as_str(), f.stem.as_str())).collect();
    assert_eq!(
        found,
        [("..xml", "."), ("a-1.xml", "a-1"), ("a.xml", "a"), ("b.xml", "b")]
    );
}

#[test]
fn progress_is_reported_every_five_hundred_commits() {
    let PlanOutcome::Planned(entry) = plan_entry("1", ordinance("1", "20200101", "이름").as_bytes())
    else {
        unreachable!()
    };
    let rendered = render_entry(&entry, ordinance("1", "20200101", "이름").as_bytes()).unwrap();
    let mut run = Compilation::start(README, 1001).unwrap();
    let mut reported = Vec::new();
    for _ in 0..1001 {
        if run.commit_next(&rendered).unwrap() {
            reported.push(run.progress().0);
        }
        run.take_pending();
    }
    assert_eq!(reported, [500, 1000, 1001]);
}
