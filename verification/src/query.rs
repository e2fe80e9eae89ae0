//! What the commands ask of the graph and say about it.

use vstd::prelude::*;
use vstd::string::*;

use crate::rows;
use crate::store_files;
use crate::text;
use crate::types;
use crate::types::{Node, NodeModel};
use crate::words;
use crate::words::Letter;

verus! {

/// A text with a blank in place of each character that no identifier has.
pub open spec fn identifiers_only(l: Seq<Letter>) -> Seq<char> {
    Seq::new(
        l.len(),
        |i: int|
            if l[i].alphanumeric || l[i].c == '_' {
                l[i].c
            } else {
                ' '
            },
    )
}

/// Whether a word takes more than two bytes.
pub open spec fn is_long() -> spec_fn(Seq<char>) -> bool {
    |t: Seq<char>| vstd::utf8::encode_utf8(t).len() > 2
}

/// The long words of a question.
pub open spec fn long_words_of(l: Seq<Letter>) -> Seq<Seq<char>> {
    rows::kept(text::split_char(identifiers_only(l), ' '), is_long())
}

/// A word and its form in small letters.
pub type WordModel = (Seq<char>, Seq<char>);

/// Whether a word is among others but for the case of its letters.
pub open spec fn is_repeated(known: Seq<WordModel>, small: Seq<char>) -> bool {
    known.map_values(|k: WordModel| k.1).contains(small)
}

/// The words without those that came before but for the case of their letters.
pub open spec fn first_words(s: Seq<WordModel>) -> Seq<WordModel>
    decreases s.len(),
{
    if s.len() == 0 {
        s
    } else {
        let rest = first_words(s.drop_last());
        if is_repeated(rest, s.last().1) {
            rest
        } else {
            rest.push(s.last())
        }
    }
}

/// The full-text query for words: any word that begins with one of the first
/// eight that differ.
pub open spec fn query_of(s: Seq<WordModel>) -> Seq<char> {
    text::join(rows::limited(first_words(s), 8).map_values(|w: WordModel| w.0 + "*"@), " OR "@)
}

/// The full-text query for a question.
pub open spec fn question_query(q: Seq<char>) -> Seq<char> {
    query_of(
        long_words_of(words::letters(q)).map_values(|t: Seq<char>| (t, words::lowercase(t))),
    )
}

fn blank_out(l: &Vec<Letter>) -> (r: String)
    ensures
        r@ == identifiers_only(l@),
{
    let mut out = String::new();
    let mut i: usize = 0;
    assert(out@ =~= Seq::empty());
    while i < l.len()
        invariant
            i <= l.len(),
            out@ == identifiers_only(l@).take(i as int),
        decreases l.len() - i,
    {
        if l[i].alphanumeric || l[i].c == '_' {
            out.push(l[i].c);
        } else {
            out.push(' ');
        }
        assert(identifiers_only(l@).take(i + 1) =~= identifiers_only(l@).take(i as int).push(
            identifiers_only(l@)[i as int],
        ));
        i += 1;
    }
    assert(identifiers_only(l@).take(l@.len() as int) =~= identifiers_only(l@));
    out
}

/// See [`long_words_of`].
pub fn long_words(l: &Vec<Letter>) -> (r: Vec<String>)
    ensures
        text::views(r@) == long_words_of(l@),
{
    let blanked = blank_out(l);
    let parts = text::split_on(blanked.as_str(), ' ');
    let ghost all = text::views(parts@);
    let mut out: Vec<String> = Vec::new();
    let mut i: usize = 0;
    assert(all.take(0) =~= Seq::empty());
    assert(text::views(out@) =~= Seq::empty());
    while i < parts.len()
        invariant
            i <= parts.len(),
            all == text::views(parts@),
            text::views(out@) == rows::kept(all.take(i as int), is_long()),
        decreases parts.len() - i,
    {
        let ghost was = text::views(out@);
        proof {
            assert(all[i as int] == parts@[i as int]@);
            rows::lemma_kept_next(all, i as int, is_long());
        }
        if text::byte_len(parts[i].as_str()) > 2 {
            out.push(parts[i].clone());
            assert(text::views(out@) =~= was.push(parts@[i as int]@));
        }
        i += 1;
    }
    assert(all.take(parts@.len() as int) =~= all);
    out
}

/// The full-text query for words, each given with its form in small letters;
/// see [`query_of`].
pub fn words_query(found: &Vec<(String, String)>) -> (r: String)
    ensures
        r@ == query_of(store_files::pair_views(found@)),
{
    let ghost all = store_files::pair_views(found@);
    assert(all.len() == found@.len());
    let mut kept: Vec<(String, String)> = Vec::new();
    let mut known = vstd::hash_set::StringHashSet::new();
    let mut i: usize = 0;
    assert(store_files::pair_views(kept@) =~= first_words(all.take(0)));
    while i < found.len()
        invariant
            i <= found.len(),
            all == store_files::pair_views(found@),
            all.len() == found@.len(),
            store_files::pair_views(kept@) == first_words(all.take(i as int)),
            forall|x: Seq<char>| #[trigger]
                known@.contains(x) == is_repeated(store_files::pair_views(kept@), x),
        decreases found.len() - i,
    {
        let ghost was = store_files::pair_views(kept@);
        let w = &found[i];
        assert(all.take(i + 1).drop_last() =~= all.take(i as int));
        assert(all.take(i + 1).last() == (w.0@, w.1@));
        if !known.contains(w.1.as_str()) {
            known.insert(w.1.clone());
            kept.push((w.0.clone(), w.1.clone()));
            proof {
                let next = store_files::pair_views(kept@);
                assert(next =~= was.push((w.0@, w.1@)));
                let a = was.map_values(|k: WordModel| k.1);
                let b = next.map_values(|k: WordModel| k.1);
                assert(b =~= a.push(w.1@));
                assert forall|x: Seq<char>| #[trigger] known@.contains(x) == is_repeated(
                    next,
                    x,
                ) by {
                    assert(b[a.len() as int] == w.1@);
                    assert(is_repeated(was, x) == a.contains(x));
                    if a.contains(x) {
                        let k = choose|k: int| 0 <= k < a.len() && a[k] == x;
                        assert(b[k] == x);
                    }
                    if b.contains(x) && x != w.1@ {
                        let k = choose|k: int| 0 <= k < b.len() && b[k] == x;
                        assert(a[k] == x);
                    }
                }
            }
        }
        i += 1;
    }
    assert(all.take(found@.len() as int) =~= all);
    let ghost firsts = store_files::pair_views(kept@);
    kept.truncate(8);
    assert(store_files::pair_views(kept@) =~= rows::limited(firsts, 8));
    let ghost chosen = store_files::pair_views(kept@);
    let mut starred: Vec<String> = Vec::new();
    let mut k: usize = 0;
    assert(chosen.len() == kept@.len());
    while k < kept.len()
        invariant
            k <= kept.len(),
            chosen == store_files::pair_views(kept@),
            chosen.len() == kept@.len(),
            text::views(starred@) == chosen.take(k as int).map_values(
                |w: WordModel| w.0 + "*"@,
            ),
        decreases kept.len() - k,
    {
        let ghost was = text::views(starred@);
        let t = kept[k].0.clone().concat("*");
        assert(chosen[k as int].0 == kept@[k as int].0@);
        starred.push(t);
        assert(text::views(starred@) =~= was.push(t@));
        assert(chosen.take(k + 1).map_values(|w: WordModel| w.0 + "*"@) =~= was.push(t@));
        k += 1;
    }
    assert(chosen.take(chosen.len() as int) =~= chosen);
    text::joined(&starred, " OR ")
}

/// See [`question_query`].
pub fn fts_query_from(q: &str) -> (r: String)
    ensures
        r@ == question_query(q@),
{
    let parts = long_words(&words::letters_of(q));
    let ghost all = text::views(parts@);
    let ghost pair = |t: Seq<char>| (t, words::lowercase(t));
    assert(all.len() == parts@.len());
    let mut found: Vec<(String, String)> = Vec::new();
    let mut i: usize = 0;
    assert(store_files::pair_views(found@) =~= all.take(0).map_values(pair));
    while i < parts.len()
        invariant
            i <= parts.len(),
            all == text::views(parts@),
            all.len() == parts@.len(),
            pair == |t: Seq<char>| (t, words::lowercase(t)),
            store_files::pair_views(found@) == all.take(i as int).map_values(pair),
        decreases parts.len() - i,
    {
        let ghost was = store_files::pair_views(found@);
        let small = parts[i].as_str().to_lowercase();
        assert(all[i as int] == parts@[i as int]@);
        found.push((parts[i].clone(), small));
        assert(store_files::pair_views(found@) =~= was.push((all[i as int], small@)));
        assert(all.take(i + 1).map_values(pair) =~= was.push((all[i as int], small@)));
        i += 1;
    }
    assert(all.take(all.len() as int) =~= all);
    words_query(&found)
}

/// The lines from `from` up to `to`, one after the other.
pub open spec fn line_range(lines: Seq<Seq<char>>, from: nat, to: nat) -> Seq<char> {
    text::join(lines.subrange(from as int, to as int), "\n"@)
}

fn join_lines(lines: &Vec<String>, from: usize, to: usize) -> (r: String)
    requires
        from <= to <= lines@.len(),
    ensures
        r@ == line_range(text::views(lines@), from as nat, to as nat),
{
    let ghost all = text::views(lines@);
    let mut part: Vec<String> = Vec::new();
    let mut i: usize = from;
    while i < to
        invariant
            from <= i <= to <= lines@.len(),
            all == text::views(lines@),
            text::views(part@) == all.subrange(from as int, i as int),
        decreases to - i,
    {
        let ghost was = text::views(part@);
        part.push(lines[i].clone());
        assert(all[i as int] == lines@[i as int]@);
        assert(text::views(part@) =~= was.push(all[i as int]));
        assert(all.subrange(from as int, i + 1) =~= was.push(all[i as int]));
        i += 1;
    }
    text::joined(&part, "\n")
}

/// The smaller of two numbers.
pub open spec fn smaller(a: int, b: int) -> int {
    if a < b {
        a
    } else {
        b
    }
}

/// The lines of a symbol: from its first to its last, no more than `most` of
/// them, but always one; nothing where the text does not reach so far.
pub open spec fn snippet_of(
    content: Seq<char>,
    start: u32,
    end: u32,
    most: nat,
) -> Option<Seq<char>> {
    let lines = text::lines(content);
    let s: int = if start == 0 {
        0
    } else {
        start - 1
    };
    if s >= lines.len() {
        None
    } else {
        let e = smaller(smaller(end as int, s + most), lines.len() as int);
        Some(
            line_range(
                lines,
                s as nat,
                if e < s + 1 {
                    (s + 1) as nat
                } else {
                    e as nat
                },
            ),
        )
    }
}

/// See [`snippet_of`].
pub fn snippet(content: &str, start: u32, end: u32, most: u32) -> (r: Option<String>)
    ensures
        types::opt_text(r) == snippet_of(content@, start, end, most as nat),
{
    let lines = text::lines_of(content);
    assert(text::views(lines@).len() == lines@.len());
    let s: u32 = if start == 0 {
        0
    } else {
        start - 1
    };
    let n: usize = lines.len();
    if s as usize >= n {
        return None;
    }
    let upto: u64 = s as u64 + most as u64;
    let e: u64 = if (end as u64) < upto {
        end as u64
    } else {
        upto
    };
    let e: u64 = if e < n as u64 {
        e
    } else {
        n as u64
    };
    let e: u64 = if e < s as u64 + 1 {
        s as u64 + 1
    } else {
        e
    };
    Some(join_lines(&lines, s as usize, e as usize))
}

/// The beginning of a symbol's lines, for a question about it; see
/// [`snippet_of`].
pub fn read_snippet(content: &str, start: u32, end: u32) -> (r: Option<String>)
    ensures
        types::opt_text(r) == snippet_of(content@, start, end, 12),
{
    snippet(content, start, end, 12)
}

/// The nodes with a name.
pub open spec fn named(name: Seq<char>) -> spec_fn(NodeModel) -> bool {
    |n: NodeModel| n.name == name
}

/// The nodes with an id.
pub open spec fn identified(id: Seq<char>) -> spec_fn(NodeModel) -> bool {
    |n: NodeModel| n.id == id
}

/// The first node with a name.
pub fn resolve<'a>(nodes: &'a Vec<Node>, name: &str) -> (r: Option<&'a Node>)
    ensures
        match r {
            Some(n) => rows::first(types::node_views(nodes@), named(name@)) == Some(n@),
            None => rows::first(types::node_views(nodes@), named(name@)) is None,
        },
{
    let test = |n: &Node| -> (t: bool)
        ensures
            t == named(name@)(n@),
    { text::same(n.name.as_str(), name) };
    let k: usize = rows::find(nodes, Ghost(named(name@)), test);
    if k < nodes.len() {
        Some(&nodes[k])
    } else {
        None
    }
}

/// A text with blanks behind it up to a width.
pub open spec fn padded(s: Seq<char>, width: nat) -> Seq<char>
    decreases width - s.len(),
{
    if s.len() < width {
        padded(s.push(' '), width)
    } else {
        s
    }
}

fn pad(s: &str, width: usize) -> (r: String)
    ensures
        r@ == padded(s@, width as nat),
{
    let v = text::chars_of(s);
    let mut out = s.to_owned();
    let mut n: usize = v.len();
    while n < width
        invariant
            n == out@.len(),
            padded(s@, width as nat) == padded(out@, width as nat),
        decreases width - n,
    {
        out.push(' ');
        n += 1;
    }
    out
}

/// The line that shows a node.
pub open spec fn shown(n: NodeModel) -> Seq<char> {
    padded(n.name, 24) + " "@ + n.label.text() + "  "@ + n.file_path + ":"@ + text::decimal(
        n.line_start as nat,
    )
}

/// See [`shown`].
pub fn show(n: &Node) -> (r: String)
    ensures
        r@ == shown(n@),
{
    let name = pad(n.name.as_str(), 24);
    let line = text::to_decimal(n.line_start as u64);
    name.concat(" ").concat(n.label.as_str()).concat("  ").concat(n.file_path.as_str()).concat(
        ":",
    ).concat(line.as_str())
}

/// The line that shows the node with an id; the id where there is none.
pub fn fmt(nodes: &Vec<Node>, id: &str) -> (r: String)
    ensures
        r@ == (match rows::first(types::node_views(nodes@), identified(id@)) {
            Some(n) => shown(n),
            None => id@,
        }),
{
    let test = |n: &Node| -> (t: bool)
        ensures
            t == identified(id@)(n@),
    { text::same(n.id.as_str(), id) };
    let k: usize = rows::find(nodes, Ghost(identified(id@)), test);
    if k < nodes.len() {
        show(&nodes[k])
    } else {
        id.to_owned()
    }
}

/// What an answer to a question may rest on: a hit, with its lines where they
/// could be read.
pub open spec fn context_entry(n: NodeModel, lines: Option<Seq<char>>) -> Seq<char> {
    "### "@ + n.name + " ("@ + n.label.text() + ") - "@ + n.file_path + ":"@ + text::decimal(
        n.line_start as nat,
    ) + "\n"@ + (match lines {
        Some(l) => "```\n"@ + l + "\n```\n"@,
        None => Seq::empty(),
    })
}

/// What an answer may rest on: the first `k` hits.
pub open spec fn context_of(
    hits: Seq<NodeModel>,
    lines: Seq<Option<Seq<char>>>,
    k: nat,
) -> Seq<char>
    decreases k,
{
    if k == 0 {
        Seq::empty()
    } else {
        context_of(hits, lines, (k - 1) as nat) + context_entry(hits[k - 1], lines[k - 1])
    }
}

/// What an answer to a question may rest on: its first six hits, each with its
/// lines where they could be read.
pub fn ask_context(hits: &Vec<Node>, lines: &Vec<Option<String>>) -> (r: String)
    requires
        hits@.len() == lines@.len(),
    ensures
        r@ == context_of(
            types::node_views(hits@),
            types::opt_texts(lines@),
            if hits@.len() < 6 {
                hits@.len()
            } else {
                6
            },
        ),
{
    let ghost all = types::node_views(hits@);
    let ghost texts = types::opt_texts(lines@);
    let n: usize = if hits.len() < 6 {
        hits.len()
    } else {
        6
    };
    let mut out = String::new();
    let mut i: usize = 0;
    assert(out@ =~= context_of(all, texts, 0));
    while i < n
        invariant
            i <= n <= hits@.len(),
            hits@.len() == lines@.len(),
            all == types::node_views(hits@),
            texts == types::opt_texts(lines@),
            out@ == context_of(all, texts, i as nat),
        decreases n - i,
    {
        let h = &hits[i];
        assert(all[i as int] == h@);
        assert(texts[i as int] == types::opt_text(lines@[i as int]));
        let line = text::to_decimal(h.line_start as u64);
        let head = "### ".to_owned().concat(h.name.as_str()).concat(" (").concat(
            h.label.as_str(),
        ).concat(") - ").concat(h.file_path.as_str()).concat(":").concat(line.as_str()).concat(
            "\n",
        );
        let entry = match &lines[i] {
            Some(l) => {
                let body = "```\n".to_owned().concat(l.as_str()).concat("\n```\n");
                head.concat(body.as_str())
            },
            None => {
                assert(head@ + Seq::<char>::empty() =~= head@);
                head
            },
        };
        assert(entry@ =~= context_entry(all[i as int], texts[i as int]));
        out = out.concat(entry.as_str());
        i += 1;
    }
    out
}

/// The prompt of a question.
pub open spec fn question_prompt(context: Seq<char>, question: Seq<char>) -> Seq<char> {
    "You are a code assistant answering questions about a codebase using its symbol graph. Use ONLY the context below; if it is insufficient, say so. Be concise.\n\nContext (relevant symbols):\n"@
        + context + "\n\nQuestion: "@ + question + "\n\nAnswer:"@
}

/// See [`question_prompt`].
pub fn ask_prompt(context: &str, question: &str) -> (r: String)
    ensures
        r@ == question_prompt(context@, question@),
{
    "You are a code assistant answering questions about a codebase using its symbol graph. Use ONLY the context below; if it is insufficient, say so. Be concise.\n\nContext (relevant symbols):\n".to_owned().concat(
        context,
    ).concat("\n\nQuestion: ").concat(question).concat("\n\nAnswer:")
}

/// The place of the SCIP index among the files of a directory: the one with the
/// usual name, else the first with the extension.
pub open spec fn scip_place(names: Seq<Seq<char>>) -> Option<int> {
    match rows::first_at(names, |n: Seq<char>| n == "index.scip"@) {
        Some(i) => Some(i),
        None => rows::first_at(names, |n: Seq<char>| ".scip"@.is_suffix_of(n) && n != ".scip"@),
    }
}

/// See [`scip_place`].
pub fn pick_scip(names: &Vec<String>) -> (r: Option<usize>)
    ensures
        (match r {
            Some(i) => Some(i as int),
            None => None,
        }) == scip_place(text::views(names@)),
{
    let ghost all = text::views(names@);
    let ghost usual = |n: Seq<char>| n == "index.scip"@;
    let ghost other = |n: Seq<char>| ".scip"@.is_suffix_of(n) && n != ".scip"@;
    assert(all.len() == names@.len());
    let mut i: usize = 0;
    let mut first: Option<usize> = None;
    while i < names.len()
        invariant
            i <= names.len(),
            all == text::views(names@),
            all.len() == names@.len(),
            usual == (|n: Seq<char>| n == "index.scip"@),
            other == (|n: Seq<char>| ".scip"@.is_suffix_of(n) && n != ".scip"@),
            forall|j: int| 0 <= j < i ==> !usual(#[trigger] all[j]),
            match first {
                Some(k) => k < i && other(all[k as int]) && forall|j: int|
                    0 <= j < k ==> !other(#[trigger] all[j]),
                None => forall|j: int| 0 <= j < i ==> !other(#[trigger] all[j]),
            },
        decreases names.len() - i,
    {
        assert(all[i as int] == names@[i as int]@);
        if text::same(names[i].as_str(), "index.scip") {
            proof {
                rows::lemma_first_is(all, usual, i as int);
            }
            return Some(i);
        }
        if first.is_none() && text::finishes_with(names[i].as_str(), ".scip") && !text::same(
            names[i].as_str(),
            ".scip",
        ) {
            first = Some(i);
        }
        i += 1;
    }
    proof {
        rows::lemma_first_is(all, usual, all.len() as int);
        rows::lemma_first_is(
            all,
            other,
            match first {
                Some(k) => k as int,
                None => all.len() as int,
            },
        );
    }
    first
}

/// A program that writes a compiler's index, and how to get it.
#[derive(Debug, PartialEq, Eq)]
pub struct Indexer {
    pub lang: &'static str,
    pub bin: &'static str,
    pub args: Vec<&'static str>,
    pub install: &'static str,
}

/// The files that mark a project of a language.
#[derive(Debug, Clone, Copy, PartialEq, Eq, Structural)]
pub struct Markers {
    pub tsconfig_json: bool,
    pub package_json: bool,
    pub cargo_toml: bool,
    pub pyproject_toml: bool,
    pub setup_py: bool,
    pub requirements_txt: bool,
    pub pom_xml: bool,
    pub build_gradle: bool,
    pub build_gradle_kts: bool,
    pub go_mod: bool,
}

/// The program for a project, with its arguments: by the first language whose
/// mark is there.
pub open spec fn indexer_for(m: Markers) -> Option<
    (Seq<char>, Seq<char>, Seq<Seq<char>>, Seq<char>),
> {
    if m.tsconfig_json || m.package_json {
        Some(
            (
                "typescript"@,
                "scip-typescript"@,
                seq!["index"@],
                "npm i -g @sourcegraph/scip-typescript"@,
            ),
        )
    } else if m.cargo_toml {
        Some(
            (
                "rust"@,
                "rust-analyzer"@,
                seq!["scip"@, "."@],
                "rustup component add rust-analyzer"@,
            ),
        )
    } else if m.pyproject_toml || m.setup_py || m.requirements_txt {
        Some(
            (
                "python"@,
                "scip-python"@,
                seq!["index"@],
                "npm i -g @sourcegraph/scip-python"@,
            ),
        )
    } else if m.pom_xml || m.build_gradle || m.build_gradle_kts {
        Some(("java"@, "scip-java"@, seq!["index"@], "coursier install scip-java"@))
    } else if m.go_mod {
        Some(
            (
                "go"@,
                "scip-go"@,
                Seq::empty(),
                "go install github.com/sourcegraph/scip-go/cmd/scip-go@latest"@,
            ),
        )
    } else {
        None
    }
}

/// What an indexer says of itself.
pub open spec fn indexer_view(i: Indexer) -> (Seq<char>, Seq<char>, Seq<Seq<char>>, Seq<char>) {
    (i.lang@, i.bin@, i.args@.map_values(|a: &'static str| a@), i.install@)
}

/// See [`indexer_for`].
pub fn detect(m: &Markers) -> (r: Option<Indexer>)
    ensures
        match r {
            Some(i) => indexer_for(*m) == Some(indexer_view(i)),
            None => indexer_for(*m) is None,
        },
{
    let mut args: Vec<&'static str> = Vec::new();
    if m.tsconfig_json || m.package_json {
        args.push("index");
        assert(args@.map_values(|a: &'static str| a@) =~= seq!["index"@]);
        Some(
            Indexer {
                lang: "typescript",
                bin: "scip-typescript",
                args,
                install: "npm i -g @sourcegraph/scip-typescript",
            },
        )
    } else if m.cargo_toml {
        args.push("scip");
        args.push(".");
        assert(args@.map_values(|a: &'static str| a@) =~= seq!["scip"@, "."@]);
        Some(
            Indexer {
                lang: "rust",
                bin: "rust-analyzer",
                args,
                install: "rustup component add rust-analyzer",
            },
        )
    } else if m.pyproject_toml || m.setup_py || m.requirements_txt {
        args.push("index");
        assert(args@.map_values(|a: &'static str| a@) =~= seq!["index"@]);
        Some(
            Indexer {
                lang: "python",
                bin: "scip-python",
                args,
                install: "npm i -g @sourcegraph/scip-python",
            },
        )
    } else if m.pom_xml || m.build_gradle || m.build_gradle_kts {
        args.push("index");
        assert(args@.map_values(|a: &'static str| a@) =~= seq!["index"@]);
        Some(
            Indexer {
                lang: "java",
                bin: "scip-java",
                args,
                install: "coursier install scip-java",
            },
        )
    } else if m.go_mod {
        assert(args@.map_values(|a: &'static str| a@) =~= Seq::empty());
        Some(
            Indexer {
                lang: "go",
                bin: "scip-go",
                args,
                install: "go install github.com/sourcegraph/scip-go/cmd/scip-go@latest",
            },
        )
    } else {
        None
    }
}

} // verus!
