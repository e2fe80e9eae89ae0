//! First-run setup: the block in the agent's notes, the entries in JSON
//! settings, and the commented configuration.

use vstd::prelude::*;
use vstd::string::*;

use crate::text;
use crate::value;
use crate::value::{Datum, DatumModel, Entries};

verus! {

/// The line that opens the block in the agent's notes.
pub open spec fn block_begin() -> Seq<char> {
    "<!-- BEGIN codegraph -->"@
}

/// The line that closes it.
pub open spec fn block_end() -> Seq<char> {
    "<!-- END codegraph -->"@
}

/// What stands between the two lines.
pub open spec fn block_guide() -> Seq<char> {
    "## CodeGraph (code navigation)\n\nThis repository is indexed by **CodeGraph** into a live code knowledge graph (auto-reindexed before each query). For code navigation, **prefer the `mcp__codegraph__*` tools over grep / reading files** — they return exact `file:line` and resolved call edges:\n- `search` — where a symbol is defined or used\n- `callers` / `callees` — trace call edges\n- `blast_radius` — what depends on a symbol (before a refactor)\n- `trace_path` — shortest path between two symbols\n- `important` — most central symbols (map an unfamiliar repo)\n- `semantic_search` — find code by meaning\n"@
}

/// The block that tells an agent of the graph.
pub open spec fn block_text() -> Seq<char> {
    block_begin() + "\n"@ + block_guide() + block_end() + "\n"@
}

/// See [`block_text`].
pub fn claude_block() -> (r: String)
    ensures
        r@ == block_text(),
{
    "<!-- BEGIN codegraph -->".to_owned().concat("\n").concat(
        "## CodeGraph (code navigation)\n\nThis repository is indexed by **CodeGraph** into a live code knowledge graph (auto-reindexed before each query). For code navigation, **prefer the `mcp__codegraph__*` tools over grep / reading files** — they return exact `file:line` and resolved call edges:\n- `search` — where a symbol is defined or used\n- `callers` / `callees` — trace call edges\n- `blast_radius` — what depends on a symbol (before a refactor)\n- `trace_path` — shortest path between two symbols\n- `important` — most central symbols (map an unfamiliar repo)\n- `semantic_search` — find code by meaning\n",
    ).concat("<!-- END codegraph -->").concat("\n")
}

/// The notes without the block: what stands before its first line and behind
/// its last one, trimmed. Notes without the two lines are as they were.
pub open spec fn stripped(s: Seq<char>) -> Seq<char> {
    match (text::find(s, block_begin()), text::find(s, block_end())) {
        (Some(b), Some(e)) => text::trim(s.take(b) + s.skip(e + block_end().len())),
        _ => s,
    }
}

/// See [`stripped`].
pub fn strip_block(s: &str) -> (r: String)
    ensures
        r@ == stripped(s@),
{
    let v = text::chars_of(s);
    let begin = text::chars_of("<!-- BEGIN codegraph -->");
    let end = text::chars_of("<!-- END codegraph -->");
    let b = text::find_chars(&v, &begin, 0);
    let e = text::find_chars(&v, &end, 0);
    proof {
        text::lemma_find_from(s@, block_begin(), 0);
        text::lemma_find_from(s@, block_end(), 0);
    }
    match (b, e) {
        (Some(b), Some(e)) => {
            let n: usize = v.len();
            let head = text::slice(&v, 0, b);
            let tail = text::slice(&v, e + end.len(), n);
            assert(head@ =~= s@.take(b as int));
            assert(tail@ =~= s@.skip(e + block_end().len()));
            let all = head.concat(tail.as_str());
            text::trimmed(all.as_str())
        },
        _ => s.to_owned(),
    }
}

/// The notes with one block at their end.
pub open spec fn with_block(s: Seq<char>) -> Seq<char> {
    let t = stripped(s);
    if text::trim(t).len() == 0 {
        block_text()
    } else {
        text::trim_end(t) + "\n\n"@ + block_text()
    }
}

/// The text without trailing white space.
fn without_trailing_space(s: &str) -> (r: String)
    ensures
        r@ == text::trim_end(s@),
{
    let v = text::chars_of(s);
    let mut hi: usize = v.len();
    while hi > 0 && text::space_char_test(v[hi - 1])
        invariant
            hi <= v.len(),
            forall|i: int| hi <= i < v.len() ==> text::is_space(v@[i]),
        decreases hi,
    {
        hi -= 1;
    }
    proof {
        text::lemma_trim_end(v@, hi as int);
    }
    text::slice(&v, 0, hi)
}

/// See [`with_block`].
pub fn add_block(s: &str) -> (r: String)
    ensures
        r@ == with_block(s@),
{
    let t = strip_block(s);
    let inner = text::trimmed(t.as_str());
    if inner.as_str().is_empty() {
        claude_block()
    } else {
        let head = without_trailing_space(t.as_str());
        let block = claude_block();
        head.concat("\n\n").concat(block.as_str())
    }
}

/// What is to be done with the notes.
#[derive(Debug, PartialEq, Eq)]
pub enum NoteEdit {
    Keep,
    Remove,
    Write(String),
}

/// The notes after the nudge was put in or taken out.
pub open spec fn nudged(existing: Seq<char>, remove: bool) -> Seq<char> {
    if remove {
        stripped(existing)
    } else {
        with_block(existing)
    }
}

/// What to do with the notes: nothing where they stay the same, and no file is
/// left with nothing in it.
pub fn agent_nudge(existing: &str, remove: bool) -> (r: NoteEdit)
    ensures
        match r {
            NoteEdit::Keep => nudged(existing@, remove) == existing@,
            NoteEdit::Remove => nudged(existing@, remove) != existing@ && text::trim(
                nudged(existing@, remove),
            ).len() == 0,
            NoteEdit::Write(s) => s@ == nudged(existing@, remove) && s@ != existing@
                && text::trim(s@).len() > 0,
        },
{
    let next = if remove {
        strip_block(existing)
    } else {
        add_block(existing)
    };
    if text::same(next.as_str(), existing) {
        NoteEdit::Keep
    } else {
        let inner = text::trimmed(next.as_str());
        if inner.as_str().is_empty() {
            NoteEdit::Remove
        } else {
            NoteEdit::Write(next)
        }
    }
}

/// What a JSON value is, in words.
pub open spec fn kind_text(v: DatumModel) -> Seq<char> {
    match v {
        DatumModel::Null => "null"@,
        DatumModel::Bool(_) => "a boolean"@,
        DatumModel::Number(_) => "a number"@,
        DatumModel::Fraction(_) => "a number"@,
        DatumModel::Text(_) => "a string"@,
        DatumModel::Other(_) => "a string"@,
        DatumModel::List(_) => "an array"@,
        DatumModel::Table(_) => "an object"@,
    }
}

/// See [`kind_text`].
pub fn json_type(v: &Datum) -> (r: &'static str)
    ensures
        r@ == kind_text(v@),
{
    match v {
        Datum::Null => "null",
        Datum::Bool(_) => "a boolean",
        Datum::Number(_) => "a number",
        Datum::Fraction(_) => "a number",
        Datum::Text(_) => "a string",
        Datum::Other(_) => "a string",
        Datum::List(_) => "an array",
        Datum::Table(_) => "an object",
    }
}

/// Why settings were not touched.
#[derive(Debug)]
pub enum SetupError {
    /// The file is no JSON; with the reason.
    Invalid(String),
    /// The document is no object; with what it is.
    Root(String),
    /// A field is no object; with its name and what it is.
    Field(String, String),
}

/// The model of a [`SetupError`].
pub enum SetupFault {
    Invalid(Seq<char>),
    Root(Seq<char>),
    Field(Seq<char>, Seq<char>),
}

impl View for SetupError {
    type V = SetupFault;

    open spec fn view(&self) -> SetupFault {
        match *self {
            SetupError::Invalid(e) => SetupFault::Invalid(e@),
            SetupError::Root(k) => SetupFault::Root(k@),
            SetupError::Field(f, k) => SetupFault::Field(f@, k@),
        }
    }
}

/// The words of an error about the file `path`.
pub open spec fn fault_text(f: SetupFault, path: Seq<char>) -> Seq<char> {
    match f {
        SetupFault::Invalid(e) => path + ": invalid JSON ("@ + e
            + ") — fix or remove the file and re-run; refusing to overwrite it"@,
        SetupFault::Root(k) => path + ": top-level JSON is "@ + k
            + " (expected an object) — fix the file and re-run; refusing to overwrite it"@,
        SetupFault::Field(f, k) => path + ": `"@ + f + "` is "@ + k
            + " (expected an object) — fix the file and re-run; refusing to overwrite it"@,
    }
}

impl SetupError {
    /// See [`fault_text`].
    pub fn message(&self, path: &str) -> (r: String)
        ensures
            r@ == fault_text(self@, path@),
    {
        match self {
            SetupError::Invalid(e) => path.to_owned().concat(": invalid JSON (").concat(
                e.as_str(),
            ).concat(") — fix or remove the file and re-run; refusing to overwrite it"),
            SetupError::Root(k) => path.to_owned().concat(": top-level JSON is ").concat(
                k.as_str(),
            ).concat(
                " (expected an object) — fix the file and re-run; refusing to overwrite it",
            ),
            SetupError::Field(f, k) => path.to_owned().concat(": `").concat(f.as_str()).concat(
                "` is ",
            ).concat(k.as_str()).concat(
                " (expected an object) — fix the file and re-run; refusing to overwrite it",
            ),
        }
    }
}

/// The object that settings hold: none yet where there is no file.
pub open spec fn settings_in(t: Option<Seq<char>>) -> Result<Entries, SetupFault> {
    match t {
        None => Ok(Seq::empty()),
        Some(t) => match value::json_parsed(t) {
            Err(e) => Err(SetupFault::Invalid(e)),
            Ok(DatumModel::Table(m)) => Ok(m),
            Ok(v) => Err(SetupFault::Root(kind_text(v))),
        },
    }
}

/// The text behind an optional reference.
pub open spec fn given(t: Option<&str>) -> Option<Seq<char>> {
    match t {
        Some(t) => Some(t@),
        None => None,
    }
}

/// See [`settings_in`].
pub fn load_json_object(t: Option<&str>) -> (r: Result<Vec<(String, Datum)>, SetupError>)
    ensures
        match r {
            Ok(m) => settings_in(given(t)) == Ok::<Entries, SetupFault>(value::entries(m@))
                && value::is_json(DatumModel::Table(value::entries(m@)), value::json_depth()),
            Err(e) => settings_in(given(t)) == Err::<Entries, SetupFault>(e@),
        },
{
    broadcast use value::lemma_value_model;

    match t {
        None => {
            let m: Vec<(String, Datum)> = Vec::new();
            assert(value::entries(m@) =~= Seq::empty());
            Ok(m)
        },
        Some(t) => match value::parse_json(t) {
            Err(e) => Err(SetupError::Invalid(e)),
            Ok(v) => {
                let kind = json_type(&v);
                match v {
                    Datum::Table(m) => {
                        assert(Datum::Table(m)@ == DatumModel::Table(value::entries(m@)));
                        Ok(m)
                    },
                    other => {
                        assert(!(other@ is Table));
                        Err(SetupError::Root(kind.to_owned()))
                    },
                }
            },
        },
    }
}

/// The object in a field, empty where there is no such field.
pub open spec fn object_in(root: Entries, key: Seq<char>) -> Result<Entries, SetupFault> {
    match value::lookup(root, key) {
        None => Ok(Seq::empty()),
        Some(DatumModel::Table(t)) => Ok(t),
        Some(v) => Err(SetupFault::Field(key, kind_text(v))),
    }
}

/// See [`object_in`].
pub fn ensure_object_field(root: &Vec<(String, Datum)>, key: &str) -> (r: Result<
    Vec<(String, Datum)>,
    SetupError,
>)
    ensures
        match r {
            Ok(t) => object_in(value::entries(root@), key@) == Ok::<Entries, SetupFault>(
                value::entries(t@),
            ),
            Err(e) => object_in(value::entries(root@), key@) == Err::<Entries, SetupFault>(e@),
        },
{
    broadcast use value::lemma_value_model;

    let k: usize = value::position(root, key);
    if k < root.len() {
        let v = root[k].1.clone();
        let kind = json_type(&v);
        match v {
            Datum::Table(t) => {
                assert(Datum::Table(t)@ == DatumModel::Table(value::entries(t@)));
                Ok(t)
            },
            other => {
                assert(!(other@ is Table));
                Err(SetupError::Field(key.to_owned(), kind.to_owned()))
            },
        }
    } else {
        let t: Vec<(String, Datum)> = Vec::new();
        assert(value::entries(t@) =~= Seq::empty());
        Ok(t)
    }
}

/// The settings with `v` under `name` in the object under `key`. All else is
/// kept, and a field of another type is never overwritten.
pub open spec fn merged(
    root: Entries,
    key: Seq<char>,
    name: Seq<char>,
    v: DatumModel,
) -> Result<Entries, SetupFault> {
    match object_in(root, key) {
        Ok(t) => Ok(value::put(root, key, DatumModel::Table(value::put(t, name, v)))),
        Err(f) => Err(f),
    }
}

/// The text of the settings after the merge.
pub open spec fn merged_text(
    t: Option<Seq<char>>,
    key: Seq<char>,
    name: Seq<char>,
    v: DatumModel,
) -> Result<Seq<char>, SetupFault> {
    match settings_in(t) {
        Ok(root) => match merged(root, key, name, v) {
            Ok(m) => Ok(value::json_written(DatumModel::Table(m))),
            Err(f) => Err(f),
        },
        Err(f) => Err(f),
    }
}

/// The result of a merge, as text.
pub open spec fn merge_says(r: Result<String, SetupError>) -> Result<Seq<char>, SetupFault> {
    match r {
        Ok(s) => Ok(s@),
        Err(e) => Err(e@),
    }
}

/// Whether a text is JSON with `v` under `name` in the object under `key`.
pub open spec fn carries(t: Seq<char>, key: Seq<char>, name: Seq<char>, v: DatumModel) -> bool {
    match value::json_parsed(t) {
        Ok(m) => match value::field(m, key) {
            Some(inner) => match value::field(inner, name) {
                Some(found) => value::alike(found, v),
                None => false,
            },
            None => false,
        },
        Err(_) => false,
    }
}

/// Whether every number in the settings is a whole number of 64 bits.
pub open spec fn has_whole_settings(t: Option<Seq<char>>) -> bool {
    match settings_in(t) {
        Ok(root) => value::has_whole_numbers(DatumModel::Table(root)),
        Err(_) => true,
    }
}

/// Whether settings are written after a merge in a text that is read back as
/// what was written: every number in them is whole, or each of the others has a
/// notation that is read back.
pub open spec fn is_read_back(
    t: Option<Seq<char>>,
    key: Seq<char>,
    name: Seq<char>,
    v: DatumModel,
) -> bool {
    has_whole_settings(t) || match settings_in(t) {
        Ok(root) => match merged(root, key, name, v) {
            Ok(m) => value::reads_back(DatumModel::Table(m)),
            Err(_) => true,
        },
        Err(_) => true,
    }
}

/// Whether settings carry `v` under `name` in the object under `key`, and
/// merging it once more gives the same text.
pub open spec fn is_settled(s: Seq<char>, key: Seq<char>, name: Seq<char>, v: DatumModel) -> bool {
    carries(s, key, name, v) && merged_text(Some(s), key, name, v) == Ok::<Seq<char>, SetupFault>(s)
}

/// What is merged into JSON is JSON.
proof fn lemma_merged(root: Entries, key: Seq<char>, name: Seq<char>, v: DatumModel)
    requires
        value::is_json(DatumModel::Table(root), value::json_depth()),
        value::is_json(v, (value::json_depth() - 2) as nat),
        value::has_whole_numbers(v),
        merged(root, key, name, v) is Ok,
    ensures
        value::is_json(
            DatumModel::Table(merged(root, key, name, v)->Ok_0),
            value::json_depth(),
        ),
        value::has_whole_numbers(DatumModel::Table(root)) ==> value::has_whole_numbers(
            DatumModel::Table(merged(root, key, name, v)->Ok_0),
        ),
{
    let whole = value::has_whole_numbers(DatumModel::Table(root));
    let d = value::json_depth();
    let t = object_in(root, key)->Ok_0;
    let found = DatumModel::Table(t);
    let one = |x: DatumModel|
        value::is_json(x, (d - 1) as nat) && (whole ==> value::has_whole_numbers(x));
    let two = |x: DatumModel|
        value::is_json(x, (d - 2) as nat) && (whole ==> value::has_whole_numbers(x));
    if value::lookup(root, key) is Some {
        value::lemma_lookup_place(root, key);
    }
    assert(one(found));
    let inner = value::put(t, name, v);
    value::lemma_put_keeps(t, name, v, two);
    assert(one(DatumModel::Table(inner)));
    value::lemma_put_keeps(root, key, DatumModel::Table(inner), one);
}

fn merge_setting(t: Option<&str>, key: &str, name: &str, v: Datum) -> (r: Result<
    String,
    SetupError,
>)
    requires
        value::is_json(v@, (value::json_depth() - 2) as nat),
        value::has_whole_numbers(v@),
    ensures
        merge_says(r) == merged_text(given(t), key@, name@, v@),
        r matches Ok(s) ==> is_read_back(given(t), key@, name@, v@) ==> is_settled(
            s@,
            key@,
            name@,
            v@,
        ),
{
    broadcast use value::lemma_value_model;

    let ghost vm = v@;
    let mut root = match load_json_object(t) {
        Ok(m) => m,
        Err(e) => {
            return Err(e);
        },
    };
    let ghost before = value::entries(root@);
    let mut inner = match ensure_object_field(&root, key) {
        Ok(m) => m,
        Err(e) => {
            return Err(e);
        },
    };
    value::insert(&mut inner, name, v);
    let table = Datum::Table(inner);
    assert(table@ == DatumModel::Table(value::entries(inner@)));
    value::insert(&mut root, key, table);
    let all = Datum::Table(root);
    assert(all@ == DatumModel::Table(value::entries(root@)));
    proof {
        lemma_merged(before, key@, name@, vm);
        law_merge_is_idempotent(before, key@, name@, vm);
        law_merge_keeps_the_rest(before, key@, name@, vm);
        value::lemma_alike(vm, (value::json_depth() - 2) as nat);
    }
    Ok(value::write_json(&all))
}

/// The entry under which an agent starts the server.
pub open spec fn mcp_entry() -> DatumModel {
    DatumModel::Table(
        seq![
            ("command"@, DatumModel::Text("codegraph"@)),
            ("args"@, DatumModel::List(seq![DatumModel::Text("mcp"@)])),
        ],
    )
}

fn make_mcp_entry() -> (r: Datum)
    ensures
        r@ == mcp_entry(),
{
    broadcast use value::lemma_value_model;

    let mut args: Vec<Datum> = Vec::new();
    args.push(Datum::Text("mcp".to_owned()));
    assert(value::items(args@) =~= seq![DatumModel::Text("mcp"@)]);
    let mut t: Vec<(String, Datum)> = Vec::new();
    t.push(("command".to_owned(), Datum::Text("codegraph".to_owned())));
    t.push(("args".to_owned(), Datum::List(args)));
    assert(Datum::List(args)@ == DatumModel::List(value::items(args@)));
    assert(value::entries(t@) =~= seq![
        ("command"@, DatumModel::Text("codegraph"@)),
        ("args"@, DatumModel::List(seq![DatumModel::Text("mcp"@)])),
    ]);
    Datum::Table(t)
}

/// The settings of an agent with the entry for the server in them: the new
/// text, or why the file is left as it is.
pub fn merge_mcp_entry(t: Option<&str>) -> (r: Result<String, SetupError>)
    ensures
        merge_says(r) == merged_text(given(t), "mcpServers"@, "codegraph"@, mcp_entry()),
        r matches Ok(s) ==> is_read_back(
            given(t),
            "mcpServers"@,
            "codegraph"@,
            mcp_entry(),
        ) ==> is_settled(
            s@,
            "mcpServers"@,
            "codegraph"@,
            mcp_entry(),
        ),
{
    let entry = make_mcp_entry();
    proof {
        lemma_entries_are_json(""@);
    }
    merge_setting(t, "mcpServers", "codegraph", entry)
}

/// The command of the hook, whose script is in the agent's directory.
pub open spec fn hook_command(dir: Seq<char>) -> Seq<char> {
    "bash "@ + dir + "/hooks/codegraph-nudge.sh"@
}

/// The hook that tells an agent of the graph at the start of a session; `dir` is
/// where the agent keeps its files.
pub open spec fn session_hook(dir: Seq<char>) -> DatumModel {
    DatumModel::List(
        seq![
            DatumModel::Table(
                seq![
                    (
                        "hooks"@,
                        DatumModel::List(
                            seq![
                                DatumModel::Table(
                                    seq![
                                        ("type"@, DatumModel::Text("command"@)),
                                        ("command"@, DatumModel::Text(hook_command(dir))),
                                    ],
                                ),
                            ],
                        ),
                    ),
                ],
            ),
        ],
    )
}

fn make_session_hook(dir: &str) -> (r: Datum)
    ensures
        r@ == session_hook(dir@),
{
    broadcast use value::lemma_value_model;

    let run = "bash ".to_owned().concat(dir).concat("/hooks/codegraph-nudge.sh");
    let mut command: Vec<(String, Datum)> = Vec::new();
    command.push(("type".to_owned(), Datum::Text("command".to_owned())));
    command.push(("command".to_owned(), Datum::Text(run)));
    let c = Datum::Table(command);
    assert(c@ == DatumModel::Table(value::entries(command@)));
    assert(value::entries(command@) =~= seq![
        ("type"@, DatumModel::Text("command"@)),
        ("command"@, DatumModel::Text(hook_command(dir@))),
    ]);
    let mut inner: Vec<Datum> = Vec::new();
    inner.push(c);
    assert(value::items(inner@) =~= seq![c@]);
    let l = Datum::List(inner);
    assert(l@ == DatumModel::List(value::items(inner@)));
    let mut group: Vec<(String, Datum)> = Vec::new();
    group.push(("hooks".to_owned(), l));
    assert(value::entries(group@) =~= seq![("hooks"@, l@)]);
    let g = Datum::Table(group);
    assert(g@ == DatumModel::Table(value::entries(group@)));
    let mut all: Vec<Datum> = Vec::new();
    all.push(g);
    assert(value::items(all@) =~= seq![g@]);
    Datum::List(all)
}

/// The two entries are JSON.
proof fn lemma_entries_are_json(dir: Seq<char>)
    ensures
        value::is_json(mcp_entry(), (value::json_depth() - 2) as nat),
        value::has_whole_numbers(mcp_entry()),
        value::is_json(session_hook(dir), (value::json_depth() - 2) as nat),
        value::has_whole_numbers(session_hook(dir)),
{
    reveal_strlit("command");
    reveal_strlit("args");
    reveal_strlit("type");
    reveal_with_fuel(value::is_json, 5);
    reveal_with_fuel(value::has_whole_numbers, 5);
    assert("command"@.len() != "args"@.len());
    assert("command"@.len() != "type"@.len());
}

/// The settings of a project with the hook in them: the new text, or why the
/// file is left as it is.
pub fn merge_hook_settings(t: Option<&str>, dir: &str) -> (r: Result<String, SetupError>)
    ensures
        merge_says(r) == merged_text(given(t), "hooks"@, "SessionStart"@, session_hook(dir@)),
        r matches Ok(s) ==> is_read_back(
            given(t),
            "hooks"@,
            "SessionStart"@,
            session_hook(dir@),
        ) ==> is_settled(
            s@,
            "hooks"@,
            "SessionStart"@,
            session_hook(dir@),
        ),
{
    let hook = make_session_hook(dir);
    proof {
        lemma_entries_are_json(dir@);
    }
    merge_setting(t, "hooks", "SessionStart", hook)
}

fn carries_setting(t: &str, key: &str, name: &str, v: &Datum) -> (r: bool)
    ensures
        r == carries(t@, key@, name@, v@),
{
    match value::parse_json(t) {
        Ok(m) => match m.get(key) {
            Some(inner) => match inner.get(name) {
                Some(found) => value::same_datum(found, v),
                None => false,
            },
            None => false,
        },
        Err(_) => false,
    }
}

/// Whether written settings carry the entry for the server.
pub fn has_mcp_entry(t: &str) -> (r: bool)
    ensures
        r == carries(t@, "mcpServers"@, "codegraph"@, mcp_entry()),
{
    let entry = make_mcp_entry();
    carries_setting(t, "mcpServers", "codegraph", &entry)
}

/// Whether written settings carry the hook.
pub fn has_session_hook(t: &str, dir: &str) -> (r: bool)
    ensures
        r == carries(t@, "hooks"@, "SessionStart"@, session_hook(dir@)),
{
    let hook = make_session_hook(dir);
    carries_setting(t, "hooks", "SessionStart", &hook)
}

/// A document without the hook; one that is no object, or in which `hooks` is
/// none, stays as it is.
pub open spec fn unhooked(v: DatumModel) -> DatumModel {
    match v {
        DatumModel::Table(root) => match value::lookup(root, "hooks"@) {
            Some(DatumModel::Table(t)) => DatumModel::Table(
                value::put(
                    root,
                    "hooks"@,
                    DatumModel::Table(value::without(t, "SessionStart"@)),
                ),
            ),
            _ => v,
        },
        _ => v,
    }
}

/// What is left of JSON without the hook is JSON.
proof fn lemma_unhooked(v: DatumModel)
    requires
        value::is_json(v, value::json_depth()),
    ensures
        value::is_json(unhooked(v), value::json_depth()),
        value::has_whole_numbers(v) ==> value::has_whole_numbers(unhooked(v)),
{
    let whole = value::has_whole_numbers(v);
    if let DatumModel::Table(root) = v {
        if let Some(DatumModel::Table(t)) = value::lookup(root, "hooks"@) {
            let d = value::json_depth();
            let one = |x: DatumModel|
                value::is_json(x, (d - 1) as nat) && (whole ==> value::has_whole_numbers(x));
            let two = |x: DatumModel|
                value::is_json(x, (d - 2) as nat) && (whole ==> value::has_whole_numbers(x));
            value::lemma_lookup_place(root, "hooks"@);
            assert(one(DatumModel::Table(t)));
            let rest = value::without(t, "SessionStart"@);
            value::lemma_without_keeps(t, "SessionStart"@, two);
            assert(one(DatumModel::Table(rest)));
            value::lemma_put_keeps(root, "hooks"@, DatumModel::Table(rest), one);
        }
    }
}

fn unhook(v: Datum) -> (r: Datum)
    ensures
        r@ == unhooked(v@),
{
    broadcast use value::lemma_value_model;

    match v {
        Datum::Table(root) => {
            let mut root = root;
            assert(Datum::Table(root)@ == DatumModel::Table(value::entries(root@)));
            let k: usize = value::position(&root, "hooks");
            if k < root.len() {
                let found = root[k].1.clone();
                match found {
                    Datum::Table(t) => {
                        let mut t = t;
                        assert(Datum::Table(t)@ == DatumModel::Table(value::entries(t@)));
                        value::remove(&mut t, "SessionStart");
                        let inner = Datum::Table(t);
                        assert(inner@ == DatumModel::Table(value::entries(t@)));
                        value::insert(&mut root, "hooks", inner);
                    },
                    other => {
                        assert(!(other@ is Table));
                    },
                }
            }
            let all = Datum::Table(root);
            assert(all@ == DatumModel::Table(value::entries(root@)));
            all
        },
        other => other,
    }
}

/// The settings of a project without the hook: the new text, or nothing where
/// the file is no JSON, which stays as it is.
pub fn remove_hook_settings(t: &str) -> (r: Option<String>)
    ensures
        match r {
            Some(s) => {
                &&& value::json_parsed(t@) matches Ok(v)
                &&& s@ == value::json_written(unhooked(v))
                &&& value::has_whole_numbers(v) ==> value::reads_as(s@, unhooked(v))
            },
            None => value::json_parsed(t@) is Err,
        },
{
    match value::parse_json(t) {
        Ok(v) => {
            proof {
                lemma_unhooked(v@);
            }
            let out = unhook(v);
            Some(value::write_json(&out))
        },
        Err(_) => None,
    }
}

/// What an answer to a question says, with the answer that none stands for.
pub open spec fn said_yes(line: Seq<char>, default_yes: bool) -> bool {
    let a = text::lower(text::trim(line));
    if a.len() == 0 {
        default_yes
    } else {
        a == "y"@ || a == "yes"@
    }
}

/// See [`said_yes`].
pub fn is_yes_answer(line: &str, default_yes: bool) -> (r: bool)
    ensures
        r == said_yes(line@, default_yes),
{
    let inner = text::trimmed(line);
    let a = text::to_lower(inner.as_str());
    if a.as_str().is_empty() {
        default_yes
    } else {
        text::same(a.as_str(), "y") || text::same(a.as_str(), "yes")
    }
}

/// The configuration that setup writes.
pub const CONFIG_TEMPLATE: &'static str = r#"# CodeGraph configuration. Core (index/search/callers/impact/trace/query) works
# with NO model — everything below is OPTIONAL. Env vars (CODEGRAPH_*) override these.

# Where graphs are stored (default: ~/.cache/codegraph, keyed by project path).
# cache_dir = "/custom/path"

# Embedding model for semantic search (needs a running provider that serves it,
# or build with --features local-embed for in-process embeddings).
# embed_model = "nomic-embed-text"

[llm]
provider = "auto"                       # auto | lmstudio | mlx | ollama | openai | gemini
# base_url = "http://localhost:1234/v1"
model = "Qwen2.5-Coder-1.5B-Instruct"   # small chat model for `ask` / HyDE
rerank = false                          # rerank `search` results with the LLM
hyde = false                            # HyDE in semantic search by default
auto_install = false                    # never auto-download models

[ingest]
media = false                           # OCR images / transcribe video (opt-in; needs --features media)
prompted = true                         # init already asked about media; don't re-prompt
"#;

/// The script of the hook.
pub const NUDGE_SCRIPT: &'static str = r#"#!/usr/bin/env bash
# CodeGraph agent nudge (SessionStart). Emits factual context so the agent uses the MCP.
cat <<'JSON'
{"hookSpecificOutput":{"hookEventName":"SessionStart","additionalContext":"This repository is indexed by CodeGraph (live, auto-reindexed before each query). For code navigation prefer the mcp__codegraph__* tools (search, callers, callees, blast_radius, trace_path, important, semantic_search) over grep or reading files — they return exact file:line and resolved call edges."}}
JSON
"#;

/// Merging twice is merging once.
pub proof fn law_merge_is_idempotent(
    root: Entries,
    key: Seq<char>,
    name: Seq<char>,
    v: DatumModel,
)
    ensures
        match merged(root, key, name, v) {
            Ok(m) => merged(m, key, name, v) == Ok::<Entries, SetupFault>(m),
            Err(_) => true,
        },
{
    if let Ok(t) = object_in(root, key) {
        let inner = DatumModel::Table(value::put(t, name, v));
        value::lemma_put(t, name, v);
        value::lemma_put(root, key, inner);
    }
}

/// After the removal no hook is left, and every other field of the settings
/// stays.
pub proof fn law_hook_comes_out(v: DatumModel)
    requires
        value::is_json(v, value::json_depth()),
    ensures
        match value::field(unhooked(v), "hooks"@) {
            Some(h) => value::field(h, "SessionStart"@) is None,
            None => true,
        },
        forall|other: Seq<char>|
            other != "hooks"@ ==> #[trigger] value::field(unhooked(v), other) == value::field(
                v,
                other,
            ),
{
    if let DatumModel::Table(root) = v {
        if let Some(DatumModel::Table(t)) = value::lookup(root, "hooks"@) {
            value::lemma_lookup_place(root, "hooks"@);
            assert(value::is_json(DatumModel::Table(t), (value::json_depth() - 1) as nat));
            value::lemma_without_keeps(t, "SessionStart"@, |x: DatumModel| true);
            value::lemma_put(
                root,
                "hooks"@,
                DatumModel::Table(value::without(t, "SessionStart"@)),
            );
        }
    }
}

/// Merging sets the one entry and keeps every other field of the settings and
/// of the object that it stands in.
pub proof fn law_merge_keeps_the_rest(
    root: Entries,
    key: Seq<char>,
    name: Seq<char>,
    v: DatumModel,
)
    ensures
        match merged(root, key, name, v) {
            Ok(m) => {
                &&& object_in(m, key) is Ok
                &&& value::lookup(object_in(m, key)->Ok_0, name) == Some(v)
                &&& forall|other: Seq<char>|
                    other != name ==> #[trigger] value::lookup(object_in(m, key)->Ok_0, other)
                        == value::lookup(object_in(root, key)->Ok_0, other)
                &&& forall|other: Seq<char>|
                    other != key ==> #[trigger] value::lookup(m, other) == value::lookup(
                        root,
                        other,
                    )
            },
            Err(f) => value::lookup(root, key) is Some && f == SetupFault::Field(
                key,
                kind_text(value::lookup(root, key)->0),
            ),
        },
{
    if let Ok(t) = object_in(root, key) {
        value::lemma_put(t, name, v);
        value::lemma_put(root, key, DatumModel::Table(value::put(t, name, v)));
    }
}

/// What the characters of the block's two lines and of its guide are.
proof fn lemma_block_characters()
    ensures
        block_begin().len() == 24,
        block_end().len() == 22,
        block_begin()[0] == '<',
        block_end()[0] == '<',
        block_begin()[5] == 'B',
        block_end()[5] == 'E',
        forall|i: int| 0 <= i < 24 ==> #[trigger] block_begin()[i] != '\n',
        forall|i: int| 0 <= i < 22 ==> #[trigger] block_end()[i] != '\n',
        forall|i: int| 0 < i < 24 ==> #[trigger] block_begin()[i] != '<',
        forall|i: int| 0 <= i < block_guide().len() ==> #[trigger] block_guide()[i] != '<',
        "\n"@.len() == 1,
        "\n"@[0] == '\n',
        "\n\n"@.len() == 2,
        "\n\n"@[0] == '\n',
        "\n\n"@[1] == '\n',
{
    reveal_strlit("<!-- BEGIN codegraph -->");
    reveal_strlit("<!-- END codegraph -->");
    reveal_strlit("\n");
    reveal_strlit("\n\n");
    reveal_strlit(
        "## CodeGraph (code navigation)\n\nThis repository is indexed by **CodeGraph** into a live code knowledge graph (auto-reindexed before each query). For code navigation, **prefer the `mcp__codegraph__*` tools over grep / reading files** — they return exact `file:line` and resolved call edges:\n- `search` — where a symbol is defined or used\n- `callers` / `callees` — trace call edges\n- `blast_radius` — what depends on a symbol (before a refactor)\n- `trace_path` — shortest path between two symbols\n- `important` — most central symbols (map an unfamiliar repo)\n- `semantic_search` — find code by meaning\n",
    );
}

/// Whether a text holds neither line of the block.
pub open spec fn is_unmarked(s: Seq<char>) -> bool {
    !text::has_text(s, block_begin()) && !text::has_text(s, block_end())
}

/// A text that holds no line break is not found across one.
proof fn lemma_no_match_before(u: Seq<char>, rest: Seq<char>, pat: Seq<char>, i: int)
    requires
        pat.len() > 0,
        forall|k: int| 0 <= k < pat.len() ==> #[trigger] pat[k] != '\n',
        u.len() == 0 || u.last() == '\n',
        !text::has_text(u, pat),
        0 <= i < u.len(),
    ensures
        !text::occurs_at(u + rest, pat, i),
{
    let n = u + rest;
    if text::occurs_at(n, pat, i) {
        let m = n.subrange(i, i + pat.len());
        if i + pat.len() <= u.len() {
            assert(u.subrange(i, i + pat.len()) =~= m);
            assert(text::occurs_at(u, pat, i));
        } else {
            let k = u.len() - 1 - i;
            assert(m[k] == n[u.len() - 1]);
            assert(pat[k] == '\n');
        }
    }
}

proof fn lemma_first_match(s: Seq<char>, pat: Seq<char>, p: int)
    requires
        text::occurs_at(s, pat, p),
        forall|i: int| 0 <= i < p ==> !#[trigger] text::occurs_at(s, pat, i),
    ensures
        text::find(s, pat) == Some(p),
{
    text::lemma_find_from(s, pat, 0);
}

/// Where the two lines stand behind a text without them.
proof fn lemma_block_found(u: Seq<char>)
    requires
        is_unmarked(u),
        u.len() == 0 || u.last() == '\n',
    ensures
        text::find(u + block_text(), block_begin()) == Some(u.len() as int),
        text::find(u + block_text(), block_end()) == Some(
            u.len() as int + 25 + block_guide().len(),
        ),
        (u + block_text()).len() == u.len() + 48 + block_guide().len(),
        (u + block_text()).last() == '\n',
{
    lemma_block_characters();
    let b = block_text();
    let n = u + b;
    let g = block_guide();
    assert(n.subrange(u.len() as int, u.len() as int + 24) =~= block_begin());
    assert forall|i: int| 0 <= i < u.len() implies !#[trigger] text::occurs_at(
        n,
        block_begin(),
        i,
    ) by {
        lemma_no_match_before(u, b, block_begin(), i);
    }
    lemma_first_match(n, block_begin(), u.len() as int);
    let p: int = u.len() as int + 25 + g.len();
    assert(n.subrange(p, p + 22) =~= block_end());
    assert forall|i: int| 0 <= i < p implies !#[trigger] text::occurs_at(n, block_end(), i) by {
        if i < u.len() {
            lemma_no_match_before(u, b, block_end(), i);
        } else if text::occurs_at(n, block_end(), i) {
            let m = n.subrange(i, i + 22);
            assert(m[0] == n[i]);
            assert(m[5] == n[i + 5]);
            let j = i - u.len();
            if j < 24 {
                assert(n[i] == block_begin()[j]);
                if j == 0 {
                    assert(n[i + 5] == block_begin()[5]);
                }
            } else if j == 24 {
                assert(n[i] == '\n');
            } else {
                assert(n[i] == g[j - 25]);
            }
        }
    }
    lemma_first_match(n, block_end(), p);
}

/// White space at the end changes nothing of a trimmed text.
proof fn lemma_trim_tail(s: Seq<char>, tail: Seq<char>)
    requires
        forall|i: int| 0 <= i < tail.len() ==> text::is_space(#[trigger] tail[i]),
    ensures
        text::trim_end(s + tail) == text::trim_end(s),
    decreases tail.len(),
{
    let a = s + tail;
    if tail.len() == 0 {
        assert(a =~= s);
    } else {
        assert(a.last() == tail.last());
        assert(a.drop_last() =~= s + tail.drop_last());
        lemma_trim_tail(s, tail.drop_last());
    }
}

proof fn lemma_trim_start_tail(s: Seq<char>, tail: Seq<char>)
    requires
        forall|i: int| 0 <= i < tail.len() ==> text::is_space(#[trigger] tail[i]),
    ensures
        text::trim_start(s).len() > 0 ==> text::trim_start(s + tail) == text::trim_start(s) + tail,
        text::trim_start(s).len() == 0 ==> text::trim_start(s + tail).len() == 0,
    decreases s.len(),
{
    let a = s + tail;
    if s.len() == 0 {
        assert(a =~= tail);
        lemma_all_space_start(tail);
    } else if text::is_space(s[0]) {
        assert(a[0] == s[0]);
        assert(a.drop_first() =~= s.drop_first() + tail);
        lemma_trim_start_tail(s.drop_first(), tail);
    } else {
        assert(a[0] == s[0]);
    }
}

proof fn lemma_all_space_start(s: Seq<char>)
    requires
        forall|i: int| 0 <= i < s.len() ==> text::is_space(#[trigger] s[i]),
    ensures
        text::trim_start(s).len() == 0,
    decreases s.len(),
{
    if s.len() > 0 {
        lemma_all_space_start(s.drop_first());
    }
}

/// White space at the end is not in a trimmed text.
proof fn lemma_trim_with_tail(s: Seq<char>, tail: Seq<char>)
    requires
        forall|i: int| 0 <= i < tail.len() ==> text::is_space(#[trigger] tail[i]),
    ensures
        text::trim(s + tail) == text::trim(s),
{
    lemma_trim_start_tail(s, tail);
    let t = text::trim_start(s);
    let u = text::trim_start(s + tail);
    if t.len() > 0 {
        lemma_trim_tail(t, tail);
    } else {
        assert(t =~= u);
    }
}

/// What trimming the end leaves is a beginning of the text, and what it takes
/// is white space.
proof fn lemma_trim_end_split(s: Seq<char>)
    ensures
        text::trim_end(s).len() <= s.len(),
        text::trim_end(s) == s.take(text::trim_end(s).len() as int),
        forall|i: int| text::trim_end(s).len() <= i < s.len() ==> text::is_space(#[trigger] s[i]),
    decreases s.len(),
{
    if s.len() > 0 && text::is_space(s.last()) {
        let d = s.drop_last();
        lemma_trim_end_split(d);
        assert(d.take(text::trim_end(d).len() as int) =~= s.take(text::trim_end(d).len() as int));
        assert forall|i: int| text::trim_end(s).len() <= i < s.len() implies text::is_space(
            #[trigger] s[i],
        ) by {
            if i < d.len() {
                assert(d[i] == s[i]);
            }
        }
    } else {
        assert(s.take(s.len() as int) =~= s);
    }
}

proof fn lemma_trim_of_trim_end(s: Seq<char>)
    ensures
        text::trim(text::trim_end(s)) == text::trim(s),
{
    lemma_trim_end_split(s);
    let e = text::trim_end(s);
    let tail = s.skip(e.len() as int);
    assert forall|i: int| 0 <= i < tail.len() implies text::is_space(#[trigger] tail[i]) by {
        assert(tail[i] == s[e.len() + i]);
    }
    assert(e + tail =~= s);
    lemma_trim_with_tail(e, tail);
}

/// The notes before the block, with the empty line behind them.
spec fn before_block(s: Seq<char>) -> Seq<char> {
    let t = stripped(s);
    if text::trim(t).len() == 0 {
        Seq::empty()
    } else {
        text::trim_end(t) + "\n\n"@
    }
}

proof fn lemma_before_block(s: Seq<char>)
    requires
        is_unmarked(stripped(s)),
    ensures
        with_block(s) == before_block(s) + block_text(),
        is_unmarked(before_block(s)),
        before_block(s).len() == 0 || before_block(s).last() == '\n',
        text::trim(before_block(s)) == text::trim(stripped(s)),
{
    lemma_block_characters();
    let t = stripped(s);
    let u = before_block(s);
    assert(with_block(s) =~= u + block_text());
    if text::trim(t).len() == 0 {
        assert forall|i: int| !#[trigger] text::occurs_at(u, block_begin(), i) by {}
        assert forall|i: int| !#[trigger] text::occurs_at(u, block_end(), i) by {}
        assert(text::trim(t) =~= Seq::empty());
        assert(text::trim(u) =~= Seq::empty());
    } else {
        lemma_trim_end_split(t);
        let e = text::trim_end(t);
        lemma_trim_with_tail(e, "\n\n"@);
        lemma_trim_of_trim_end(t);
        assert forall|i: int| !#[trigger] text::occurs_at(u, block_begin(), i) by {
            if text::occurs_at(u, block_begin(), i) {
                lemma_within(t, e, i, block_begin());
            }
        }
        assert forall|i: int| !#[trigger] text::occurs_at(u, block_end(), i) by {
            if text::occurs_at(u, block_end(), i) {
                lemma_within(t, e, i, block_end());
            }
        }
    }
}

proof fn lemma_within(t: Seq<char>, e: Seq<char>, i: int, pat: Seq<char>)
    requires
        e.len() <= t.len(),
        e == t.take(e.len() as int),
        pat.len() > 2,
        forall|k: int| 0 <= k < pat.len() ==> #[trigger] pat[k] != '\n',
        text::occurs_at(e + "\n\n"@, pat, i),
    ensures
        text::has_text(t, pat),
{
    lemma_block_characters();
    let u = e + "\n\n"@;
    let m = u.subrange(i, i + pat.len());
    if i + pat.len() <= e.len() {
        assert(t.subrange(i, i + pat.len()) =~= m);
        assert(text::occurs_at(t, pat, i));
    } else {
        let k = e.len() - i;
        assert(m[k] == u[e.len() as int]);
        assert(pat[k] == '\n');
    }
}

/// Taking the block out again gives back the notes as they were before it was
/// put in, trimmed.
pub proof fn law_block_comes_out(s: Seq<char>)
    requires
        is_unmarked(stripped(s)),
    ensures
        stripped(with_block(s)) == text::trim(stripped(s)),
{
    lemma_before_block(s);
    lemma_block_characters();
    let u = before_block(s);
    let n = with_block(s);
    lemma_block_found(u);
    let p: int = u.len() as int + 25 + block_guide().len();
    assert(n.take(u.len() as int) =~= u);
    assert(n.skip(p + 22) =~= "\n"@);
    lemma_trim_with_tail(u, "\n"@);
}

/// Putting the block in twice is putting it in once. Notes that begin with
/// white space lose it the second time.
pub proof fn law_block_is_put_in_once(s: Seq<char>)
    requires
        is_unmarked(stripped(s)),
        text::trim_start(stripped(s)) == stripped(s) || text::trim(stripped(s)).len() == 0,
    ensures
        with_block(with_block(s)) == with_block(s),
{
    law_block_comes_out(s);
    let t = stripped(s);
    let a = text::trim(t);
    lemma_trim_of_trim_end(t);
    if a.len() == 0 {
        assert(a =~= Seq::empty());
        assert(text::trim(a).len() == 0);
    } else {
        assert(a == text::trim_end(t));
        assert(text::trim(a) == a);
        lemma_trim_end_twice(t);
    }
}

proof fn lemma_trim_end_twice(s: Seq<char>)
    ensures
        text::trim_end(text::trim_end(s)) == text::trim_end(s),
    decreases s.len(),
{
    if s.len() > 0 && text::is_space(s.last()) {
        lemma_trim_end_twice(s.drop_last());
    }
}

} // verus!
