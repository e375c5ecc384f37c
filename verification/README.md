# ordinance_compiler

Turns cached XML documents of Korean local ordinances (자치법규) into a bare Git repository: one
Markdown file per ordinance, one commit per document, in the order of the dates of promulgation.

The library under `src/` holds everything that is computed, and Verus proves it:

- `xml_events`, `xml_parser` read a document: its metadata, and its articles, appendix and lists.
- `jurisdictions`, `render` make of it a path, a Markdown document with YAML frontmatter, and a
  commit message. `pattern` and `text` hold the text operations these are stated with.
- `timestamp` gives the commit time of a date.
- `cache`, `plan` select the documents and put them into the order of their commits. `sort` and
  `lex` hold the orders, `errors` the texts of errors.
- `object`, `tree`, `pack`, `pack_index`, `repo_path`, `repo` make the Git objects, the pack with
  its index, and the history.
- `compile` renders planned documents and commits them. `run` goes all the way from the files of a
  cache to the history.
- `reading` states what can be read back from the objects of a repository.

Contracts are stated over models: the view of each data type, and spec functions on sequences.
Calls into other crates stand behind small functions marked `external_body`, whose doc comments say
what is believed of the call.

`app/` is the command line program: it reads the cache directory, renders on several threads, and
puts the pack, its index and the refs on disk.

    compiler-for-ordinance .cache/ordinance --output output.git
