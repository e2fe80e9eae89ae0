//! The scan for changed files, and what is read out of each of them.

use vstd::prelude::*;
use vstd::string::*;
use vstd::utf8::*;

use crate::digest;
use crate::listing;
use crate::parse;
use crate::parse::{ParsedFile, ParsedModel};
use crate::rows;
use crate::search;
use crate::store;
use crate::store::{Store, StoreModel};
use crate::tables::{ManifestEntry, ManifestEntryModel};
use crate::text;
use crate::types;
use crate::types::{MetaModel, MetaValue, Metadata, Node, NodeLabel, NodeModel};

verus! {

/// A file of the working tree: its path from the root, whether it is a regular
/// file, its size, and when it was changed (zero where that is not known).
pub struct FileInfo {
    pub rel: String,
    pub is_file: bool,
    pub len: u64,
    pub mtime: i64,
}

/// What is to be done with a file before its text is known.
#[derive(Debug, Clone, Copy, PartialEq, Eq, Structural)]
pub enum Step {
    /// It is not indexed.
    Ignore,
    /// It is a TypeScript configuration; its text is needed where it changed.
    Watch { changed: bool },
    /// It did not change.
    Skip,
    /// Its text is needed.
    Read { document: bool },
}

/// What is noted of a file; nothing where everything is indexed anew.
pub open spec fn known(manifest: Seq<ManifestEntryModel>, full: bool, rel: Seq<char>) -> Option<
    ManifestEntryModel,
> {
    if full {
        None
    } else {
        rows::first(manifest, store::manifest_is(rel))
    }
}

/// The step for a file of which something is noted.
pub open spec fn step_for(f: FileInfo, entry: Option<ManifestEntryModel>) -> Step {
    if listing::tsconfig_path(f.rel@) {
        Step::Watch {
            changed: match entry {
                Some(m) => m.mtime != f.mtime,
                None => true,
            },
        }
    } else {
        match listing::kind_of(f.rel@, f.is_file, f.len) {
            None => Step::Ignore,
            Some(document) => match entry {
                Some(m) => if m.mtime == f.mtime && f.mtime != 0 {
                    Step::Skip
                } else {
                    Step::Read { document }
                },
                None => Step::Read { document },
            },
        }
    }
}

/// See [`step_for`].
pub fn scan_step(f: &FileInfo, entry: &Option<ManifestEntry>) -> (r: Step)
    ensures
        r == step_for(
            *f,
            match *entry {
                Some(m) => Some(m@),
                None => None,
            },
        ),
{
    if listing::is_tsconfig(f.rel.as_str()) {
        Step::Watch {
            changed: match entry {
                Some(m) => m.mtime != f.mtime,
                None => true,
            },
        }
    } else {
        match listing::classify(f.rel.as_str(), f.is_file, f.len) {
            None => Step::Ignore,
            Some(document) => match entry {
                Some(m) => if m.mtime == f.mtime && f.mtime != 0 {
                    Step::Skip
                } else {
                    Step::Read { document }
                },
                None => Step::Read { document },
            },
        }
    }
}

/// What a scan finds of a file once its text is known.
pub enum StateModel {
    Ignored,
    Watched(Option<Seq<char>>),
    Unchanged,
    Unreadable,
    Touched(Seq<char>),
    Changed(Seq<char>, bool),
}

/// The hash of a text.
pub open spec fn sha(source: Seq<char>) -> Seq<char> {
    digest::hash_text(encode_utf8(source))
}

/// What a scan finds of a file. A file whose text is the one that is noted was
/// only touched.
pub open spec fn state_of(
    f: FileInfo,
    entry: Option<ManifestEntryModel>,
    source: Option<Seq<char>>,
) -> StateModel {
    match step_for(f, entry) {
        Step::Ignore => StateModel::Ignored,
        Step::Watch { changed } => match source {
            Some(s) => StateModel::Watched(
                if changed {
                    Some(sha(s))
                } else {
                    None
                },
            ),
            None => StateModel::Watched(None),
        },
        Step::Skip => StateModel::Unchanged,
        Step::Read { document } => match source {
            None => StateModel::Unreadable,
            Some(s) => match entry {
                Some(m) => if m.sha256 == sha(s) {
                    StateModel::Touched(sha(s))
                } else {
                    StateModel::Changed(sha(s), document)
                },
                None => StateModel::Changed(sha(s), document),
            },
        },
    }
}

/// A file that has to be parsed: its place among the files, the hash of its
/// text, and whether it is a document.
#[derive(Debug, PartialEq, Eq)]
pub struct ChangedFile {
    pub at: usize,
    pub sha: String,
    pub document: bool,
}

/// What a scan of files finds.
pub struct ScanModel {
    pub manifest: Seq<ManifestEntryModel>,
    pub seen: Seq<Seq<char>>,
    pub files: nat,
    pub changed: Seq<(nat, Seq<char>, bool)>,
}

/// The manifest with the hash and the time of a file noted.
pub open spec fn noted(
    manifest: Seq<ManifestEntryModel>,
    f: FileInfo,
    hash: Seq<char>,
) -> Seq<ManifestEntryModel> {
    rows::replaced::<ManifestEntry>(
        manifest,
        ManifestEntryModel { file_path: f.rel@, sha256: hash, mtime: f.mtime },
    )
}

/// What a scan finds, after the first `n` files.
pub open spec fn scanned(
    manifest: Seq<ManifestEntryModel>,
    full: bool,
    files: Seq<FileInfo>,
    sources: Seq<Option<Seq<char>>>,
    n: nat,
) -> ScanModel
    decreases n,
{
    if n == 0 {
        ScanModel { manifest, seen: Seq::empty(), files: 0, changed: Seq::empty() }
    } else {
        let rest = scanned(manifest, full, files, sources, (n - 1) as nat);
        let f = files[n - 1];
        match state_of(f, known(manifest, full, f.rel@), sources[n - 1]) {
            StateModel::Ignored => rest,
            StateModel::Watched(hash) => ScanModel {
                manifest: match hash {
                    Some(h) => noted(rest.manifest, f, h),
                    None => rest.manifest,
                },
                seen: rest.seen.push(f.rel@),
                ..rest
            },
            StateModel::Unchanged => ScanModel {
                seen: rest.seen.push(f.rel@),
                files: rest.files + 1,
                ..rest
            },
            StateModel::Unreadable => ScanModel {
                seen: rest.seen.push(f.rel@),
                files: rest.files + 1,
                ..rest
            },
            StateModel::Touched(h) => ScanModel {
                manifest: noted(rest.manifest, f, h),
                seen: rest.seen.push(f.rel@),
                files: rest.files + 1,
                ..rest
            },
            StateModel::Changed(h, document) => ScanModel {
                seen: rest.seen.push(f.rel@),
                files: rest.files + 1,
                changed: rest.changed.push(((n - 1) as nat, h, document)),
                ..rest
            },
        }
    }
}

/// What changed files are.
pub open spec fn changed_views(v: Seq<ChangedFile>) -> Seq<(nat, Seq<char>, bool)> {
    v.map_values(|c: ChangedFile| (c.at as nat, c.sha@, c.document))
}

/// What a scan found: the files that are there, how many of them are indexed,
/// and which have to be parsed.
pub struct Scan {
    pub seen: Vec<String>,
    pub files: usize,
    pub changed: Vec<ChangedFile>,
}

impl Store {
    /// What is noted of a file; see [`known`].
    pub fn known_entry(&self, full: bool, rel: &str) -> (r: Option<ManifestEntry>)
        ensures
            match r {
                Some(m) => known(self@.manifest, full, rel@) == Some(m@),
                None => known(self@.manifest, full, rel@) is None,
            },
    {
        if full {
            None
        } else {
            self.manifest_for(rel)
        }
    }

    /// Which files have to be read.
    pub fn plan_reads(&self, full: bool, files: &Vec<FileInfo>) -> (r: Vec<bool>)
        ensures
            r@.len() == files@.len(),
            forall|i: int|
                0 <= i < files@.len() ==> #[trigger] r@[i] == (match step_for(
                    files@[i],
                    known(self@.manifest, full, files@[i].rel@),
                ) {
                    Step::Watch { changed } => changed,
                    Step::Read { .. } => true,
                    _ => false,
                }),
    {
        let mut out: Vec<bool> = Vec::new();
        let mut i: usize = 0;
        while i < files.len()
            invariant
                i <= files.len(),
                out@.len() == i,
                forall|k: int|
                    0 <= k < i ==> #[trigger] out@[k] == (match step_for(
                        files@[k],
                        known(self@.manifest, full, files@[k].rel@),
                    ) {
                        Step::Watch { changed } => changed,
                        Step::Read { .. } => true,
                        _ => false,
                    }),
            decreases files.len() - i,
        {
            let entry = self.known_entry(full, files[i].rel.as_str());
            let need = match scan_step(&files[i], &entry) {
                Step::Watch { changed } => changed,
                Step::Read { .. } => true,
                Step::Ignore => false,
                Step::Skip => false,
            };
            out.push(need);
            i += 1;
        }
        out
    }

    /// Scans the files of the working tree: notes the ones that were only
    /// touched, and lists the ones that changed; see [`scanned`].
    pub fn scan(&mut self, full: bool, files: &Vec<FileInfo>, sources: &Vec<Option<String>>) -> (r:
        Scan)
        requires
            old(self)@.wf(),
            files@.len() == sources@.len(),
        ensures
            ({
                let m = scanned(
                    old(self)@.manifest,
                    full,
                    files@,
                    types::opt_texts(sources@),
                    files@.len(),
                );
                &&& final(self)@ == (StoreModel { manifest: m.manifest, ..old(self)@ })
                &&& text::views(r.seen@) == m.seen
                &&& r.files == m.files
                &&& changed_views(r.changed@) == m.changed
            }),
            final(self)@.wf(),
    {
        let ghost was = self@;
        let ghost all = types::opt_texts(sources@);
        // The manifest before the scan decides; the scan writes the new one.
        let mut entries: Vec<Option<ManifestEntry>> = Vec::new();
        let mut i: usize = 0;
        while i < files.len()
            invariant
                i <= files.len(),
                self@ == was,
                entries@.len() == i,
                forall|k: int|
                    0 <= k < i ==> (match #[trigger] entries@[k] {
                        Some(m) => known(was.manifest, full, files@[k].rel@) == Some(m@),
                        None => known(was.manifest, full, files@[k].rel@) is None,
                    }),
            decreases files.len() - i,
        {
            entries.push(self.known_entry(full, files[i].rel.as_str()));
            i += 1;
        }
        let mut seen: Vec<String> = Vec::new();
        let mut count: usize = 0;
        let mut changed: Vec<ChangedFile> = Vec::new();
        let mut n: usize = 0;
        proof {
            assert(text::views(seen@) =~= Seq::empty());
            assert(changed_views(changed@) =~= Seq::empty());
        }
        while n < files.len()
            invariant
                n <= files.len(),
                files@.len() == sources@.len(),
                entries@.len() == files@.len(),
                all == types::opt_texts(sources@),
                forall|k: int|
                    0 <= k < files@.len() ==> (match #[trigger] entries@[k] {
                        Some(m) => known(was.manifest, full, files@[k].rel@) == Some(m@),
                        None => known(was.manifest, full, files@[k].rel@) is None,
                    }),
                count <= n,
                self@.wf(),
                ({
                    let m = scanned(was.manifest, full, files@, all, n as nat);
                    &&& self@ == (StoreModel { manifest: m.manifest, ..was })
                    &&& text::views(seen@) == m.seen
                    &&& count == m.files
                    &&& changed_views(changed@) == m.changed
                }),
            decreases files.len() - n,
        {
            let f = &files[n];
            let ghost seen_before = text::views(seen@);
            let ghost changed_before = changed_views(changed@);
            assert(all[n as int] == types::opt_text(sources@[n as int]));
            let step = scan_step(f, &entries[n]);
            match step {
                Step::Ignore => {},
                Step::Watch { changed: moved } => {
                    if moved {
                        if let Some(s) = &sources[n] {
                            let h = digest::sha256(s.as_str());
                            self.save_manifest(f.rel.as_str(), h.as_str(), f.mtime);
                        }
                    }
                },
                Step::Skip => {
                    count += 1;
                },
                Step::Read { document } => {
                    count += 1;
                    if let Some(s) = &sources[n] {
                        let h = digest::sha256(s.as_str());
                        let same = match &entries[n] {
                            Some(m) => text::same(m.sha256.as_str(), h.as_str()),
                            None => false,
                        };
                        if same {
                            self.save_manifest(f.rel.as_str(), h.as_str(), f.mtime);
                        } else {
                            changed.push(ChangedFile { at: n, sha: h, document });
                            assert(changed_views(changed@) =~= changed_before.push(
                                (n as nat, h@, document),
                            ));
                        }
                    }
                },
            }
            let ignored = match step {
                Step::Ignore => true,
                _ => false,
            };
            if !ignored {
                seen.push(f.rel.clone());
                assert(text::views(seen@) =~= seen_before.push(f.rel@));
            }
            n += 1;
        }
        Scan { seen, files: count, changed }
    }
}

/// Whether the working tree differs from what is noted: a file is new, was
/// changed, or is gone.
pub open spec fn tree_differs(
    manifest: Seq<ManifestEntryModel>,
    tree: Seq<(Seq<char>, i64)>,
) -> bool {
    (exists|i: int|
        0 <= i < tree.len() && (match rows::first(
            manifest,
            store::manifest_is((#[trigger] tree[i]).0),
        ) {
            Some(m) => m.mtime != tree[i].1,
            None => true,
        })) || tree.len() != manifest.len()
}

/// The files of the working tree that are indexed or watched, with their times.
pub open spec fn watched_tree(files: Seq<FileInfo>) -> Seq<(Seq<char>, i64)>
    decreases files.len(),
{
    if files.len() == 0 {
        Seq::empty()
    } else {
        let rest = watched_tree(files.drop_last());
        let f = files.last();
        if listing::kind_of(f.rel@, f.is_file, f.len) is Some || listing::tsconfig_path(f.rel@) {
            rest.push((f.rel@, f.mtime))
        } else {
            rest
        }
    }
}

impl Store {
    /// Whether the index has to be brought up to date for these files; see
    /// [`tree_differs`].
    pub fn is_stale(&self, files: &Vec<FileInfo>) -> (r: bool)
        ensures
            r == tree_differs(self@.manifest, watched_tree(files@)),
    {
        let ghost all = watched_tree(files@);
        let mut count: usize = 0;
        let mut differs = false;
        let mut i: usize = 0;
        assert(files@.take(0) =~= Seq::empty());
        while i < files.len()
            invariant
                i <= files.len(),
                count <= i,
                count == watched_tree(files@.take(i as int)).len(),
                differs == (exists|k: int|
                    0 <= k < watched_tree(files@.take(i as int)).len() && (match rows::first(
                        self@.manifest,
                        store::manifest_is((#[trigger] watched_tree(files@.take(i as int))[k]).0),
                    ) {
                        Some(m) => m.mtime != watched_tree(files@.take(i as int))[k].1,
                        None => true,
                    })),
            decreases files.len() - i,
        {
            let f = &files[i];
            let ghost t = watched_tree(files@.take(i as int));
            let ghost u = watched_tree(files@.take(i + 1));
            assert(files@.take(i + 1).drop_last() =~= files@.take(i as int));
            let watched = listing::classify(f.rel.as_str(), f.is_file, f.len).is_some()
                || listing::is_tsconfig(f.rel.as_str());
            if watched {
                count += 1;
                let moved = match self.manifest_for(f.rel.as_str()) {
                    Some(m) => m.mtime != f.mtime,
                    None => true,
                };
                proof {
                    assert(u == t.push((f.rel@, f.mtime)));
                    assert(u[t.len() as int] == (f.rel@, f.mtime));
                    assert forall|k: int| 0 <= k < t.len() implies #[trigger] u[k] == t[k] by {}
                    if differs {
                        let k = choose|k: int|
                            0 <= k < t.len() && (match rows::first(
                                self@.manifest,
                                store::manifest_is((#[trigger] t[k]).0),
                            ) {
                                Some(m) => m.mtime != t[k].1,
                                None => true,
                            });
                        assert(u[k] == t[k]);
                    }
                }
                if moved {
                    differs = true;
                }
            }
            i += 1;
        }
        assert(files@.take(files@.len() as int) =~= files@);
        assert(self.manifest@.len() == self@.manifest.len());
        differs || count != self.manifest.len()
    }
}

/// How many bytes are looked at to tell a binary file.
pub const SNIFF_BYTES: usize = 8192;

/// Whether a text holds a zero byte near its beginning.
pub open spec fn is_binary(source: Seq<char>) -> bool {
    exists|i: int|
        0 <= i < encode_utf8(source).len() && i < SNIFF_BYTES && #[trigger] encode_utf8(source)[i]
            == 0
}

/// See [`is_binary`].
pub fn looks_binary(source: &str) -> (r: bool)
    ensures
        r == is_binary(source@),
{
    let b = source.as_bytes();
    let mut i: usize = 0;
    while i < b.len() && i < SNIFF_BYTES
        invariant
            i <= b.len(),
            i <= SNIFF_BYTES,
            b@ == encode_utf8(source@),
            forall|k: int| 0 <= k < i ==> #[trigger] b@[k] != 0,
        decreases b.len() - i,
    {
        if b[i] == 0 {
            return true;
        }
        i += 1;
    }
    false
}

/// The text with an underscore for each character that is no ASCII letter or
/// digit.
pub open spec fn safe_name(s: Seq<char>) -> Seq<char> {
    s.map_values(
        |c: char|
            if text::is_alnum(c) {
                c
            } else {
                '_'
            },
    )
}

/// See [`safe_name`].
fn make_safe(s: &str) -> (r: String)
    ensures
        r@ == safe_name(s@),
{
    let mut out = String::new();
    for c in it: s.chars()
        invariant
            it.seq() == s@,
            out@ == safe_name(s@).take(it.index()),
    {
        if text::alnum_char_test(c) {
            out.push(c);
        } else {
            out.push('_');
        }
        assert(safe_name(s@).take(it.index() + 1) =~= safe_name(s@).take(it.index()).push(
            safe_name(s@)[it.index()],
        ));
    }
    assert(safe_name(s@).take(s@.len() as int) =~= safe_name(s@));
    out
}

/// The first of the lines that is not blank; the other text where there is
/// none.
pub open spec fn first_line(lines: Seq<Seq<char>>, other: Seq<char>) -> Seq<char>
    decreases lines.len(),
{
    if lines.len() == 0 {
        other
    } else if text::trim(lines[0]).len() > 0 {
        lines[0]
    } else {
        first_line(lines.drop_first(), other)
    }
}

/// The title of a document: the beginning of its first line that is not blank.
pub open spec fn title(chunk: Seq<char>, source: Seq<char>) -> Seq<char> {
    rows::limited(first_line(text::lines(chunk), source), 60)
}

/// The node of a part of a document.
pub open spec fn document_node(
    source: Seq<char>,
    content_type: Seq<char>,
    chunk: Seq<char>,
    i: nat,
) -> NodeModel {
    NodeModel {
        id: "doc."@ + safe_name(source) + "."@ + text::decimal(i),
        label: NodeLabel::Document,
        name: if text::trim(title(chunk, source)).len() == 0 {
            source + " #"@ + text::decimal(i)
        } else {
            title(chunk, source)
        },
        file_path: source,
        line_start: 1,
        line_end: 1,
        language: content_type,
        metadata: seq![
            ("text"@, MetaModel::Text(chunk)),
            ("content_type"@, MetaModel::Text(content_type)),
        ],
        community: None,
        pagerank: 0,
        betweenness: 0,
    }
}

/// See [`first_line`]; for the lines from `i` on.
pub(crate) fn find_first_line(lines: &Vec<String>, other: &str) -> (r: String)
    ensures
        r@ == first_line(text::views(lines@), other@),
{
    let ghost all = text::views(lines@);
    assert(all.len() == lines@.len());
    assert(all.skip(0) =~= all);
    let mut i: usize = 0;
    while i < lines.len()
        invariant
            i <= lines.len(),
            all == text::views(lines@),
            all.len() == lines@.len(),
            first_line(all, other@) == first_line(all.skip(i as int), other@),
        decreases lines.len() - i,
    {
        let line = &lines[i];
        proof {
            assert(all.skip(i as int)[0] == line@);
            assert(all.skip(i as int).drop_first() =~= all.skip(i + 1));
        }
        if !text::trimmed(line.as_str()).as_str().is_empty() {
            return line.clone();
        }
        i += 1;
    }
    other.to_owned()
}

/// See [`document_node`].
pub fn document_node_from_chunk(
    source: &str,
    content_type: &str,
    chunk: &str,
    i: usize,
) -> (r: Node)
    ensures
        r@ == document_node(source@, content_type@, chunk@, i as nat),
{
    let line = find_first_line(&text::lines_of(chunk), source);
    let v = text::chars_of(line.as_str());
    let n: usize = if v.len() <= 60 {
        v.len()
    } else {
        60
    };
    let name = text::slice(v.as_slice(), 0, n);
    proof {
        assert(name@ =~= title(chunk@, source@));
    }
    let number = text::to_decimal(i as u64);
    let mut metadata = Metadata::new();
    metadata.insert("text".to_owned(), MetaValue::Text(chunk.to_owned()));
    metadata.insert("content_type".to_owned(), MetaValue::Text(content_type.to_owned()));
    proof {
        reveal_strlit("text");
        reveal_strlit("content_type");
        reveal_with_fuel(types::meta_set, 3);
        assert("text"@ != "content_type"@) by {
            assert("text"@.len() != "content_type"@.len());
        }
        assert(metadata@ =~= seq![
            ("text"@, MetaModel::Text(chunk@)),
            ("content_type"@, MetaModel::Text(content_type@)),
        ]);
    }
    Node {
        id: "doc.".to_owned().concat(make_safe(source).as_str()).concat(".").concat(
            number.as_str(),
        ),
        label: NodeLabel::Document,
        name: if text::trimmed(name.as_str()).as_str().is_empty() {
            source.to_owned().concat(" #").concat(number.as_str())
        } else {
            name
        },
        file_path: source.to_owned(),
        line_start: 1,
        line_end: 1,
        language: content_type.to_owned(),
        metadata,
        community: None,
        pagerank: 0,
        betweenness: 0,
    }
}

/// The nodes of the parts of a document.
pub open spec fn document_parts(
    source: Seq<char>,
    content_type: Seq<char>,
    chunks: Seq<Seq<char>>,
) -> Seq<NodeModel> {
    Seq::new(
        chunks.len(),
        |i: int| document_node(source, content_type, chunks[i], i as nat),
    )
}

/// See [`document_parts`].
pub fn document_nodes(source: &str, content_type: &str, chunks: &Vec<String>) -> (r: Vec<Node>)
    ensures
        types::node_views(r@) == document_parts(source@, content_type@, text::views(chunks@)),
{
    let ghost all = document_parts(source@, content_type@, text::views(chunks@));
    let mut out: Vec<Node> = Vec::new();
    let mut i: usize = 0;
    while i < chunks.len()
        invariant
            i <= chunks.len(),
            all == document_parts(source@, content_type@, text::views(chunks@)),
            all.len() == chunks@.len(),
            types::node_views(out@) == all.take(i as int),
        decreases chunks.len() - i,
    {
        let ghost was = out@;
        out.push(document_node_from_chunk(source, content_type, chunks[i].as_str(), i));
        assert(types::node_views(out@) =~= types::node_views(was).push(all[i as int]));
        i += 1;
    }
    assert(all.take(chunks@.len() as int) =~= all);
    out
}

/// What a source file holds.
pub open spec fn source_model(
    project: Seq<char>,
    rel: Seq<char>,
    source: Seq<char>,
) -> ParsedModel {
    match parse::language_of(rel) {
        Some(language) => parse::parsed(
            parse::ContextModel { language, project, rel_path: rel, source },
        ),
        None => ParsedModel { nodes: Seq::empty(), calls: Seq::empty() },
    }
}

/// What is read out of a changed file: nothing of a binary one, the parts of a
/// document, and the symbols and calls of a source file.
pub open spec fn read_model(
    project: Seq<char>,
    rel: Seq<char>,
    source: Seq<char>,
    document: bool,
    chunks: Seq<Seq<char>>,
) -> ParsedModel {
    if is_binary(source) {
        ParsedModel { nodes: Seq::empty(), calls: Seq::empty() }
    } else if document {
        ParsedModel {
            nodes: document_parts(rel, search::after_last(rel, '.'), chunks),
            calls: Seq::empty(),
        }
    } else {
        source_model(project, rel, source)
    }
}

/// See [`read_model`]; `chunks` are the parts of a document.
pub fn read_file(
    project: &str,
    rel: &str,
    source: &str,
    document: bool,
    chunks: &Vec<String>,
) -> (r: ParsedFile)
    ensures
        r.model() == read_model(project@, rel@, source@, document, text::views(chunks@)),
        r.only_nodes_and_calls(),
{
    if looks_binary(source) {
        ParsedFile::empty()
    } else if document {
        let kind = search::text_after_last(rel, '.');
        let mut r = ParsedFile::empty();
        r.nodes = document_nodes(rel, kind.as_str(), chunks);
        assert(r.model() =~= read_model(project@, rel@, source@, document, text::views(chunks@)));
        r
    } else {
        parse::parse_file(project, rel, source)
    }
}

} // verus!
