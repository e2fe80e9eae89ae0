//! The tools that answer with lists: routes, the symbols of a diff, the context
//! of a task.

use vstd::prelude::*;
use vstd::string::*;

use crate::graph;
use crate::order;
use crate::review;
use crate::rows;
use crate::scan;
use crate::snapshot::GraphSnapshot;
use crate::store;
use crate::store::{Store, StoreModel};
use crate::store_queries;
use crate::text;
use crate::tools::RoutesArgs;
use crate::types;
use crate::types::{Node, NodeLabel, NodeModel};
use crate::value;
use crate::value::{Datum, DatumModel};
use crate::words;
use crate::words::Letter;

verus! {

/// The beginning of the first line of a document that is not blank.
pub open spec fn preview_of(t: Seq<char>) -> Seq<char> {
    rows::limited(scan::first_line(text::lines(t), Seq::empty()), 120)
}

/// The beginning of a text.
fn shorten(t: &str, most: usize) -> (r: String)
    ensures
        r@ == rows::limited(t@, most as nat),
{
    let v = text::chars_of(t);
    if v.len() <= most {
        t.to_owned()
    } else {
        let r = text::slice(&v, 0, most);
        assert(r@ =~= t@.take(most as int));
        r
    }
}

/// See [`preview_of`].
pub fn preview(t: &str) -> (r: String)
    ensures
        r@ == preview_of(t@),
{
    proof {
        reveal_strlit("");
        assert(""@ =~= Seq::empty());
    }
    let lines = text::lines_of(t);
    let line = scan::find_first_line(&lines, "");
    shorten(line.as_str(), 120)
}

/// What a node says under a key; nothing is an empty text.
pub open spec fn meta_or_empty(n: NodeModel, key: Seq<char>) -> Seq<char> {
    match types::meta_text(n.metadata, key) {
        Some(t) => t,
        None => Seq::empty(),
    }
}

fn meta_text_or_empty(n: &Node, key: &str) -> (r: String)
    ensures
        r@ == meta_or_empty(n@, key@),
{
    match n.metadata.text(key) {
        Some(t) => t.clone(),
        None => {
            let none = String::new();
            assert(none@ =~= Seq::empty());
            none
        },
    }
}

/// A route.
#[derive(Debug, PartialEq, Eq)]
pub struct RouteRow {
    pub method: String,
    pub path: String,
    pub handler: String,
    pub file: String,
    pub line: u32,
}

/// The model of a [`RouteRow`].
pub struct RouteModel {
    pub method: Seq<char>,
    pub path: Seq<char>,
    pub handler: Seq<char>,
    pub file: Seq<char>,
    pub line: u32,
}

impl View for RouteRow {
    type V = RouteModel;

    open spec fn view(&self) -> RouteModel {
        RouteModel {
            method: self.method@,
            path: self.path@,
            handler: self.handler@,
            file: self.file@,
            line: self.line,
        }
    }
}

/// A node as a route.
pub open spec fn route_of() -> spec_fn(NodeModel) -> RouteModel {
    |n: NodeModel|
        RouteModel {
            method: meta_or_empty(n, "method"@),
            path: meta_or_empty(n, "path"@),
            handler: meta_or_empty(n, "handler"@),
            file: n.file_path,
            line: n.line_start,
        }
}

/// The order of nodes by name.
pub open spec fn name_order() -> spec_fn(NodeModel, NodeModel) -> bool {
    |a: NodeModel, b: NodeModel| text::text_less(a.name, b.name)
}

/// The nodes by name.
pub fn arrange_by_name(nodes: Vec<Node>) -> (r: Vec<Node>)
    ensures
        types::node_views(r@) == order::arranged(types::node_views(nodes@), name_order()),
{
    let ghost all = nodes@;
    let ghost before = |a: Node, b: Node| text::text_less(a@.name, b@.name);
    let less = |a: &Node, b: &Node| -> (t: bool)
        ensures
            t == text::text_less(a@.name, b@.name),
    { text::less(a.name.as_str(), b.name.as_str()) };
    let r = order::arrange(nodes, Ghost(before), less);
    proof {
        order::lemma_arranged_map(all, before, |n: Node| n@, name_order());
        assert(types::node_views(r@) =~= r@.map_values(|n: Node| n@));
        assert(types::node_views(all) =~= all.map_values(|n: Node| n@));
    }
    r
}

/// Whether a route is one that was asked for: its path begins as given, and its
/// method is the one given, in any case of the letters.
pub open spec fn is_wanted(prefix: Option<Seq<char>>, method: Option<Seq<char>>) -> spec_fn(
    NodeModel,
) -> bool {
    |n: NodeModel|
        {
            &&& prefix matches Some(p) ==> p.is_prefix_of(meta_or_empty(n, "path"@))
            &&& method matches Some(m) ==> meta_or_empty(n, "method"@) == text::upper(m)
        }
}

/// The part of a list from a place on, of a length at most.
pub open spec fn page<M>(s: Seq<M>, offset: nat, limit: nat) -> Seq<M> {
    if offset >= s.len() {
        Seq::empty()
    } else {
        rows::limited(s.skip(offset as int), limit)
    }
}

/// A page of routes.
#[derive(Debug, PartialEq, Eq)]
pub struct RoutesAnswer {
    pub total: usize,
    pub routes: Vec<RouteRow>,
    /// Where the next page begins.
    pub next: Option<usize>,
}

/// The routes that were asked for, by name.
pub open spec fn wanted_routes(
    s: StoreModel,
    prefix: Option<Seq<char>>,
    method: Option<Seq<char>>,
) -> Seq<NodeModel> {
    rows::kept(
        order::arranged(rows::kept(s.nodes, store::node_labelled(NodeLabel::Route)), name_order()),
        is_wanted(prefix, method),
    )
}

fn numbered(n: Option<usize>, default: usize) -> (r: usize)
    ensures
        r == (match n {
            Some(n) => n,
            None => default,
        }),
{
    match n {
        Some(n) => n,
        None => default,
    }
}

/// A page of the routes that were asked for: a hundred of them from the first
/// on, where nothing else is said.
pub fn routes(store: &Store, args: &RoutesArgs) -> (r: RoutesAnswer)
    ensures
        ({
            let all = wanted_routes(
                store@,
                types::opt_text(args.path_prefix),
                types::opt_text(args.method),
            );
            let offset: nat = match args.offset {
                Some(n) => n as nat,
                None => 0,
            };
            let limit: nat = match args.limit {
                Some(n) => n as nat,
                None => 100,
            };
            &&& r.total == all.len()
            &&& rows::seen(r.routes@) == page(all, offset, limit).map_values(route_of())
            &&& r.next == (if offset + limit < all.len() {
                Some((offset + limit) as usize)
            } else {
                None
            })
        }),
{
    let found = store.nodes_by_label(NodeLabel::Route);
    let sorted = arrange_by_name(found);
    let upper = match &args.method {
        Some(m) => Some(text::to_upper(m.as_str())),
        None => None,
    };
    let test = |n: &Node| -> (t: bool)
        ensures
            t == is_wanted(types::opt_text(args.path_prefix), types::opt_text(args.method))(n@),
    {
        let by_path = match &args.path_prefix {
            Some(p) => {
                let path = meta_text_or_empty(n, "path");
                text::begins_with(path.as_str(), p.as_str())
            },
            None => true,
        };
        let by_method = match &upper {
            Some(m) => {
                let method = meta_text_or_empty(n, "method");
                text::same(method.as_str(), m.as_str())
            },
            None => true,
        };
        by_path && by_method
    };
    let all = rows::select(
        &sorted,
        Ghost(is_wanted(types::opt_text(args.path_prefix), types::opt_text(args.method))),
        test,
    );
    let ghost views = types::node_views(all@);
    let total: usize = all.len();
    assert(views.len() == total);
    let offset: usize = numbered(args.offset, 0);
    let limit: usize = numbered(args.limit, 100);
    let from: usize = if offset < total {
        offset
    } else {
        total
    };
    let count: usize = if limit < total - from {
        limit
    } else {
        total - from
    };
    let to: usize = from + count;
    let mut shown: Vec<Node> = Vec::new();
    let mut i: usize = from;
    while i < to
        invariant
            from <= i <= to <= all@.len(),
            views == types::node_views(all@),
            types::node_views(shown@) == views.subrange(from as int, i as int),
        decreases to - i,
    {
        let ghost was = types::node_views(shown@);
        let n = all[i].clone();
        assert(views[i as int] == n@);
        shown.push(n);
        assert(types::node_views(shown@) =~= was.push(n@));
        assert(views.subrange(from as int, i + 1) =~= was.push(n@));
        i += 1;
    }
    assert(types::node_views(shown@) =~= page(views, offset as nat, limit as nat));
    let make = |n: &Node| -> (t: RouteRow)
        ensures
            t@ == route_of()(n@),
    {
        RouteRow {
            method: meta_text_or_empty(n, "method"),
            path: meta_text_or_empty(n, "path"),
            handler: meta_text_or_empty(n, "handler"),
            file: n.file_path.clone(),
            line: n.line_start,
        }
    };
    let rows = rows::made(&shown, Ghost(route_of()), make);
    let next = if offset < total && limit < total - offset {
        Some(offset + limit)
    } else {
        None
    };
    RoutesAnswer { total, routes: rows, next }
}

/// A symbol that a diff touches, as an agent is told of it.
#[derive(Debug, PartialEq, Eq)]
pub struct TouchedRow {
    pub name: String,
    pub file: String,
    pub line: u32,
    pub fan_in: usize,
    pub tested: bool,
    pub risk: &'static str,
}

/// The model of a [`TouchedRow`].
pub struct TouchedModel {
    pub name: Seq<char>,
    pub file: Seq<char>,
    pub line: u32,
    pub fan_in: nat,
    pub tested: bool,
    pub risk: Seq<char>,
}

impl View for TouchedRow {
    type V = TouchedModel;

    open spec fn view(&self) -> TouchedModel {
        TouchedModel {
            name: self.name@,
            file: self.file@,
            line: self.line,
            fan_in: self.fan_in as nat,
            tested: self.tested,
            risk: self.risk@,
        }
    }
}

/// How risky it is to touch something that is called so often.
pub open spec fn risk_word(fan_in: nat, tested: bool) -> Seq<char> {
    if fan_in >= 10 {
        if tested {
            "MED"@
        } else {
            "HIGH"@
        }
    } else if fan_in >= 3 && !tested {
        "MED"@
    } else {
        "low"@
    }
}

/// What an agent is told of a symbol that a diff touches.
pub open spec fn touched(s: StoreModel) -> spec_fn(NodeModel) -> TouchedModel {
    |n: NodeModel|
        {
            let fan_in = rows::kept(s.calls, store_queries::calls_naming(n.name)).len();
            let tested = store_queries::is_tested(s, n.name);
            TouchedModel {
                name: n.name,
                file: n.file_path,
                line: n.line_start,
                fan_in,
                tested,
                risk: risk_word(fan_in, tested),
            }
        }
}

/// What a symbol weighs: what is called often and not tested comes first.
pub open spec fn weight(t: TouchedModel) -> nat {
    if t.tested {
        t.fan_in
    } else {
        t.fan_in * 3
    }
}

/// The order of touched symbols.
pub open spec fn weight_order() -> spec_fn(TouchedModel, TouchedModel) -> bool {
    |a: TouchedModel, b: TouchedModel| weight(a) > weight(b)
}

/// The symbols of the first `k` files.
pub open spec fn symbols_of_files(s: StoreModel, files: Seq<Seq<char>>, k: nat) -> Seq<NodeModel>
    decreases k,
{
    if k == 0 {
        Seq::empty()
    } else {
        symbols_of_files(s, files, (k - 1) as nat) + review::file_symbols(s, files[k - 1])
    }
}

/// What an agent is told of a diff.
pub struct ChangesAnswer {
    pub affected_symbols: Vec<TouchedRow>,
    pub co_change_hints: Vec<(String, u32)>,
}

fn weigh(t: &TouchedRow) -> (r: u128)
    ensures
        r == weight(t@),
{
    if t.tested {
        t.fan_in as u128
    } else {
        (t.fan_in as u128) * 3
    }
}

/// What an agent is told of a diff: at most forty of the symbols that it
/// touches, the heaviest first, and the files that usually change too.
pub fn changes(store: &Store, changed: &Vec<String>) -> (r: ChangesAnswer)
    ensures
        rows::seen(r.affected_symbols@) == rows::limited(
            order::arranged(
                symbols_of_files(store@, text::views(changed@), changed@.len()).map_values(
                    touched(store@),
                ),
                weight_order(),
            ),
            40,
        ),
        review::hint_views(r.co_change_hints@) == review::hints_for(
            store@,
            text::views(changed@),
        ),
{
    let ghost files = text::views(changed@);
    let mut syms: Vec<Node> = Vec::new();
    let mut i: usize = 0;
    assert(types::node_views(syms@) =~= symbols_of_files(store@, files, 0));
    while i < changed.len()
        invariant
            i <= changed.len(),
            files == text::views(changed@),
            types::node_views(syms@) == symbols_of_files(store@, files, i as nat),
        decreases changed.len() - i,
    {
        let mut more = store.symbols_in_file(changed[i].as_str());
        let ghost (a, b) = (syms@, more@);
        assert(files[i as int] == changed@[i as int]@);
        syms.append(&mut more);
        assert(types::node_views(syms@) =~= types::node_views(a) + types::node_views(b));
        i += 1;
    }
    let make = |n: &Node| -> (t: TouchedRow)
        ensures
            t@ == touched(store@)(n@),
    {
        let fan_in: usize = store.call_site_count(n.name.as_str());
        let tested = store.has_test_reference(n.name.as_str());
        let risk = if fan_in >= 10 {
            if tested {
                "MED"
            } else {
                "HIGH"
            }
        } else if fan_in >= 3 && !tested {
            "MED"
        } else {
            "low"
        };
        TouchedRow {
            name: n.name.clone(),
            file: n.file_path.clone(),
            line: n.line_start,
            fan_in,
            tested,
            risk,
        }
    };
    let found = rows::made(&syms, Ghost(touched(store@)), make);
    let ghost given = found@;
    let ghost before = |a: TouchedRow, b: TouchedRow| weight(a@) > weight(b@);
    let less = |a: &TouchedRow, b: &TouchedRow| -> (t: bool)
        ensures
            t == (weight(a@) > weight(b@)),
    { weigh(a) > weigh(b) };
    let mut sorted = order::arrange(found, Ghost(before), less);
    proof {
        order::lemma_arranged_map(given, before, |t: TouchedRow| t@, weight_order());
        assert(rows::seen(sorted@) =~= sorted@.map_values(|t: TouchedRow| t@));
        assert(rows::seen(given) =~= given.map_values(|t: TouchedRow| t@));
    }
    let ghost all = rows::seen(sorted@);
    sorted.truncate(40);
    assert(rows::seen(sorted@) =~= rows::limited(all, 40));
    ChangesAnswer { affected_symbols: sorted, co_change_hints: store.co_change_hints(changed) }
}

/// The whole number that a value is.
pub open spec fn whole_number(v: DatumModel) -> Option<u64> {
    match v {
        DatumModel::Number(n) => match text::parse_nat(n) {
            Some(k) => if k <= u64::MAX {
                Some(k as u64)
            } else {
                None
            },
            None => None,
        },
        _ => None,
    }
}

/// See [`whole_number`].
pub fn as_count(v: &Datum) -> (r: Option<u64>)
    ensures
        r == whole_number(v@),
{
    match v {
        Datum::Number(n) => text::parse_number(n.as_str(), u64::MAX),
        _ => None,
    }
}

/// The whole number under a key; zero where there is none.
pub open spec fn count_under(v: DatumModel, key: Seq<char>) -> u64 {
    match value::field(v, key) {
        Some(f) => match whole_number(f) {
            Some(n) => n,
            None => 0,
        },
        None => 0,
    }
}

/// See [`count_under`].
pub fn count_in(v: &Datum, key: &str) -> (r: u64)
    ensures
        r == count_under(v@, key@),
{
    match v.get(key) {
        Some(f) => match as_count(f) {
            Some(n) => n,
            None => 0,
        },
        None => 0,
    }
}

/// What the last audit is worth now.
#[derive(Debug, PartialEq, Eq)]
pub enum AuditState {
    /// There is none that can be read.
    Missing,
    /// It measured the graph as it is.
    Current(Datum),
    /// It measured an older graph.
    Stale(Datum),
}

/// What the last audit is worth for a graph of the given generation. An audit
/// of an older graph is never passed for one of this.
pub fn audit_state(raw: Option<&str>, current: u64) -> (r: AuditState)
    ensures
        match r {
            AuditState::Missing => raw matches Some(t) ==> value::json_parsed(t@) is Err,
            AuditState::Current(a) => raw matches Some(t) && value::json_parsed(t@)
                == Ok::<DatumModel, Seq<char>>(a@) && count_under(a@, "generation"@) >= current,
            AuditState::Stale(a) => raw matches Some(t) && value::json_parsed(t@)
                == Ok::<DatumModel, Seq<char>>(a@) && count_under(a@, "generation"@) < current,
        },
{
    match raw {
        Some(t) => match value::parse_json(t) {
            Ok(a) => {
                if count_in(&a, "generation") < current {
                    AuditState::Stale(a)
                } else {
                    AuditState::Current(a)
                }
            },
            Err(_) => AuditState::Missing,
        },
        None => AuditState::Missing,
    }
}

/// The letters and digits of a text, with a blank for each white space.
pub open spec fn plain_text(l: Seq<Letter>) -> Seq<char>
    decreases l.len(),
{
    if l.len() == 0 {
        Seq::empty()
    } else {
        let rest = plain_text(l.drop_last());
        if text::is_space(l.last().c) {
            rest.push(' ')
        } else if l.last().alphanumeric {
            rest.push(l.last().c)
        } else {
            rest
        }
    }
}

/// Whether a word takes more than one byte.
pub open spec fn is_word() -> spec_fn(Seq<char>) -> bool {
    |w: Seq<char>| vstd::utf8::encode_utf8(w).len() > 1
}

/// The full-text query for a task: any word that begins with one of the words
/// of its description; the description itself where it has none.
pub open spec fn task_query(l: Seq<Letter>) -> Seq<char> {
    let found = rows::kept(text::split_char(plain_text(l), ' '), is_word());
    let query = text::join(found.map_values(|w: Seq<char>| w + "*"@), " OR "@);
    if query.len() == 0 {
        l.map_values(|x: Letter| x.c)
    } else {
        query
    }
}

/// The full-text query for a task whose description is given with what Unicode
/// says of its characters; see [`task_query`].
pub fn letters_query(l: &Vec<Letter>) -> (r: String)
    ensures
        r@ == task_query(l@),
{
    let ghost chars = l@.map_values(|x: Letter| x.c);
    let mut t = String::new();
    let mut q = String::new();
    let mut i: usize = 0;
    assert(l@.take(0) =~= Seq::empty());
    assert(t@ =~= Seq::empty());
    assert(q@ =~= Seq::empty());
    while i < l.len()
        invariant
            i <= l.len(),
            chars == l@.map_values(|x: Letter| x.c),
            t@ == plain_text(l@.take(i as int)),
            q@ == chars.take(i as int),
        decreases l.len() - i,
    {
        assert(l@.take(i + 1).drop_last() =~= l@.take(i as int));
        if text::space_char_test(l[i].c) {
            t.push(' ');
        } else if l[i].alphanumeric {
            t.push(l[i].c);
        }
        q.push(l[i].c);
        assert(chars.take(i + 1) =~= chars.take(i as int).push(chars[i as int]));
        i += 1;
    }
    assert(l@.take(l@.len() as int) =~= l@);
    assert(chars.take(chars.len() as int) =~= chars);
    let parts = text::split_on(t.as_str(), ' ');
    let ghost all = text::views(parts@);
    let ghost star = |w: Seq<char>| w + "*"@;
    let mut starred: Vec<String> = Vec::new();
    let mut i: usize = 0;
    assert(all.take(0) =~= Seq::empty());
    assert(rows::kept(all.take(0), is_word()).map_values(star) =~= Seq::empty());
    assert(text::views(starred@) =~= Seq::empty());
    while i < parts.len()
        invariant
            i <= parts.len(),
            all == text::views(parts@),
            star == |w: Seq<char>| w + "*"@,
            text::views(starred@) == rows::kept(all.take(i as int), is_word()).map_values(star),
        decreases parts.len() - i,
    {
        let ghost was = text::views(starred@);
        let ghost before = rows::kept(all.take(i as int), is_word());
        let ghost now = rows::kept(all.take(i + 1), is_word());
        proof {
            assert(all[i as int] == parts@[i as int]@);
            rows::lemma_kept_next(all, i as int, is_word());
        }
        if text::byte_len(parts[i].as_str()) > 1 {
            let s = parts[i].clone().concat("*");
            assert(now == before.push(all[i as int]));
            starred.push(s);
            assert(text::views(starred@) =~= was.push(s@));
            assert(now.map_values(star) =~= before.map_values(star).push(s@));
        }
        i += 1;
    }
    assert(all.take(parts@.len() as int) =~= all);
    let query = text::joined(&starred, " OR ");
    if query.as_str().is_empty() {
        q
    } else {
        query
    }
}

/// The full-text query for a task; see [`task_query`].
pub fn context_query(q: &str) -> (r: String)
    ensures
        r@ == task_query(words::letters(q@)),
{
    letters_query(&words::letters_of(q))
}

/// The line on which a symbol begins, trimmed and cut off.
pub open spec fn signature_of(content: Option<Seq<char>>, line_start: u32) -> Seq<char> {
    match content {
        Some(c) => {
            let lines = text::lines(c);
            let k: int = if line_start == 0 {
                0
            } else {
                line_start - 1
            };
            if k < lines.len() {
                rows::limited(text::trim(lines[k]), 120)
            } else {
                Seq::empty()
            }
        },
        None => Seq::empty(),
    }
}

/// See [`signature_of`].
pub fn signature(content: &Option<String>, line_start: u32) -> (r: String)
    ensures
        r@ == signature_of(types::opt_text(*content), line_start),
{
    match content {
        Some(c) => {
            let lines = text::lines_of(c.as_str());
            assert(text::views(lines@).len() == lines@.len());
            let k: usize = if line_start == 0 {
                0
            } else {
                (line_start - 1) as usize
            };
            if k < lines.len() {
                assert(text::views(lines@)[k as int] == lines@[k as int]@);
                let t = text::trimmed(lines[k].as_str());
                shorten(t.as_str(), 120)
            } else {
                let none = String::new();
                assert(none@ =~= Seq::empty());
                none
            }
        },
        None => {
            let none = String::new();
            assert(none@ =~= Seq::empty());
            none
        },
    }
}

/// A symbol in the context of a task, with its place among the ranked ones.
#[derive(Debug, PartialEq, Eq)]
pub struct ContextRow {
    pub rank: usize,
    pub name: String,
    pub label: NodeLabel,
    pub file: String,
    pub line: u32,
    pub snippet: String,
}

/// The model of a [`ContextRow`].
pub struct ContextModel {
    pub rank: nat,
    pub name: Seq<char>,
    pub label: NodeLabel,
    pub file: Seq<char>,
    pub line: u32,
    pub snippet: Seq<char>,
}

impl View for ContextRow {
    type V = ContextModel;

    open spec fn view(&self) -> ContextModel {
        ContextModel {
            rank: self.rank as nat,
            name: self.name@,
            label: self.label,
            file: self.file@,
            line: self.line,
            snippet: self.snippet@,
        }
    }
}

/// About how many tokens a symbol takes.
pub open spec fn cost_of(n: NodeModel, snippet: Seq<char>) -> nat {
    (vstd::utf8::encode_utf8(n.name).len() + vstd::utf8::encode_utf8(n.file_path).len()
        + vstd::utf8::encode_utf8(snippet).len()) / 4 + 4
}

/// The context of a task as it is put together.
pub struct ContextState {
    pub rows: Seq<ContextModel>,
    pub used: nat,
    pub full: bool,
}

/// The context out of the first `k` ranked ids: files and unknown ids are left
/// out, and it ends with the first symbol that does not fit.
pub open spec fn context_of(
    nodes: Seq<NodeModel>,
    ranked: Seq<Seq<char>>,
    contents: Seq<Option<Seq<char>>>,
    budget: nat,
    k: nat,
) -> ContextState
    decreases k,
{
    if k == 0 {
        ContextState { rows: Seq::empty(), used: 0, full: false }
    } else {
        let c = context_of(nodes, ranked, contents, budget, (k - 1) as nat);
        match graph::node_with_id(nodes, ranked[k - 1]) {
            Some(n) => {
                let snippet = signature_of(contents[k - 1], n.line_start);
                if c.full || n.label == NodeLabel::File {
                    c
                } else if c.used + cost_of(n, snippet) > budget {
                    ContextState { full: true, ..c }
                } else {
                    ContextState {
                        rows: c.rows.push(
                            ContextModel {
                                rank: (k - 1) as nat,
                                name: n.name,
                                label: n.label,
                                file: n.file_path,
                                line: n.line_start,
                                snippet,
                            },
                        ),
                        used: c.used + cost_of(n, snippet),
                        full: false,
                    }
                }
            },
            None => c,
        }
    }
}

proof fn lemma_full(
    nodes: Seq<NodeModel>,
    ranked: Seq<Seq<char>>,
    contents: Seq<Option<Seq<char>>>,
    budget: nat,
    k: nat,
    n: nat,
)
    requires
        k <= n,
        context_of(nodes, ranked, contents, budget, k).full,
    ensures
        context_of(nodes, ranked, contents, budget, n) == context_of(
            nodes,
            ranked,
            contents,
            budget,
            k,
        ),
    decreases n,
{
    if k < n {
        lemma_full(nodes, ranked, contents, budget, k, (n - 1) as nat);
    }
}

/// A context takes no more than it may.
pub proof fn law_context_keeps_its_budget(
    nodes: Seq<NodeModel>,
    ranked: Seq<Seq<char>>,
    contents: Seq<Option<Seq<char>>>,
    budget: nat,
    k: nat,
)
    ensures
        context_of(nodes, ranked, contents, budget, k).used <= budget,
    decreases k,
{
    if k > 0 {
        law_context_keeps_its_budget(nodes, ranked, contents, budget, (k - 1) as nat);
    }
}

/// The context of a task: the ranked symbols that fit, in their order, and how
/// many tokens they take. `contents` are the texts of their files.
pub fn context(
    snap: &GraphSnapshot,
    ranked: &Vec<String>,
    contents: &Vec<Option<String>>,
    budget: usize,
) -> (r: (Vec<ContextRow>, usize))
    requires
        snap.wf(),
        ranked@.len() == contents@.len(),
    ensures
        ({
            let c = context_of(
                snap.known(),
                text::views(ranked@),
                types::opt_texts(contents@),
                budget as nat,
                ranked@.len(),
            );
            rows::seen(r.0@) == c.rows && r.1 == c.used
        }),
{
    let ghost ids = text::views(ranked@);
    let ghost texts = types::opt_texts(contents@);
    let mut out: Vec<ContextRow> = Vec::new();
    let mut used: usize = 0;
    let mut i: usize = 0;
    let n: usize = ranked.len();
    assert(rows::seen(out@) =~= Seq::empty());
    while i < n
        invariant
            i <= n,
            n == ranked@.len(),
            n == contents@.len(),
            snap.wf(),
            used <= budget,
            ids == text::views(ranked@),
            texts == types::opt_texts(contents@),
            rows::seen(out@) == context_of(snap.known(), ids, texts, budget as nat, i as nat).rows,
            used == context_of(snap.known(), ids, texts, budget as nat, i as nat).used,
            !context_of(snap.known(), ids, texts, budget as nat, i as nat).full,
        decreases n - i,
    {
        assert(ids[i as int] == ranked@[i as int]@);
        assert(texts[i as int] == types::opt_text(contents@[i as int]));
        let ghost was = rows::seen(out@);
        if let Some(node) = snap.node_by_id(ranked[i].as_str()) {
            if node.label != NodeLabel::File {
                let snippet = signature(&contents[i], node.line_start);
                let cost: u128 = (text::byte_len(node.name.as_str()) as u128 + text::byte_len(
                    node.file_path.as_str(),
                ) as u128 + text::byte_len(snippet.as_str()) as u128) / 4 + 4;
                assert(cost == cost_of(node@, snippet@));
                if used as u128 + cost > budget as u128 {
                    proof {
                        lemma_full(
                            snap.known(),
                            ids,
                            texts,
                            budget as nat,
                            (i + 1) as nat,
                            n as nat,
                        );
                    }
                    return (out, used);
                }
                let row = ContextRow {
                    rank: i,
                    name: node.name.clone(),
                    label: node.label,
                    file: node.file_path.clone(),
                    line: node.line_start,
                    snippet,
                };
                out.push(row);
                assert(rows::seen(out@) =~= was.push(row@));
                used = (used as u128 + cost) as usize;
            }
        }
        i += 1;
    }
    (out, used)
}

} // verus!
