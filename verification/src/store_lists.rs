//! The store's answers that are lists: files, names, definitions with their
//! callers, the uses of a type, and what history says.

use vstd::prelude::*;
use vstd::string::*;

use crate::like;
use crate::order;
use crate::rows;
use crate::store;
use crate::store::{Store, StoreModel};
use crate::store_queries;
use crate::tables::{
    CallRow, CallRowModel, CoChange, CoChangeModel, ContextEntry, ContextEntryModel, InheritRow,
    InheritRowModel, ManifestEntry, ManifestEntryModel,
};
use crate::text;
use crate::types;
use crate::types::{Node, NodeLabel, NodeModel};

verus! {

/// Whether a pair of files that changed together comes before another: the
/// more frequent first, then by name.
pub open spec fn cochange_less(a: CoChangeModel, b: CoChangeModel) -> bool {
    if a.n != b.n {
        a.n > b.n
    } else if a.file_a != b.file_a {
        text::text_less(a.file_a, b.file_a)
    } else {
        text::text_less(a.file_b, b.file_b)
    }
}

/// See [`cochange_less`].
pub open spec fn cochange_order() -> spec_fn(CoChangeModel, CoChangeModel) -> bool {
    |a: CoChangeModel, b: CoChangeModel| cochange_less(a, b)
}

/// The pairs in their order.
pub fn arrange_cochanges(pairs: Vec<CoChange>) -> (r: Vec<CoChange>)
    ensures
        rows::seen(r@) == order::arranged(rows::seen(pairs@), cochange_order()),
{
    let ghost all = pairs@;
    let ghost before = |a: CoChange, b: CoChange| cochange_less(a@, b@);
    let less = |a: &CoChange, b: &CoChange| -> (t: bool)
        ensures
            t == cochange_less(a@, b@),
    {
        if a.n != b.n {
            a.n > b.n
        } else if !text::same(a.file_a.as_str(), b.file_a.as_str()) {
            text::less(a.file_a.as_str(), b.file_a.as_str())
        } else {
            text::less(a.file_b.as_str(), b.file_b.as_str())
        }
    };
    let r = order::arrange(pairs, Ghost(before), less);
    proof {
        order::lemma_arranged_map(all, before, |c: CoChange| c@, cochange_order());
        assert(rows::seen(r@) =~= r@.map_values(|c: CoChange| c@));
        assert(rows::seen(all) =~= all.map_values(|c: CoChange| c@));
    }
    r
}

/// The partner of a file in a pair, as a pair that begins with the file.
pub open spec fn partner(file: Seq<char>) -> spec_fn(CoChangeModel) -> CoChangeModel {
    |c: CoChangeModel|
        CoChangeModel {
            file_a: file,
            file_b: if c.file_a == file {
                c.file_b
            } else {
                c.file_a
            },
            n: c.n,
        }
}

/// The pairs with a file.
pub open spec fn pair_with(file: Seq<char>) -> spec_fn(CoChangeModel) -> bool {
    |c: CoChangeModel| c.file_a == file || c.file_b == file
}

/// The contexts whose path begins as given.
pub open spec fn context_under(prefix: Seq<char>) -> spec_fn(ContextEntryModel) -> bool {
    |c: ContextEntryModel| like::like(c.path, prefix.push('%'))
}

/// The order of contexts by time.
pub open spec fn context_order() -> spec_fn(ContextEntryModel, ContextEntryModel) -> bool {
    |a: ContextEntryModel, b: ContextEntryModel| a.added_at < b.added_at
}

/// The file of a call site.
pub open spec fn call_file() -> spec_fn(CallRowModel) -> Seq<char> {
    |c: CallRowModel| c.file_path
}

/// The call sites of a caller that name something in the repository and that
/// no edge answers.
pub open spec fn unanswered(s: StoreModel, caller: Seq<char>) -> spec_fn(CallRowModel) -> bool {
    |c: CallRowModel|
        c.call.caller_id == caller && !like::like(c.call.callee_name, "route.%"@)
            && !store_queries::has_call(s, caller, c.call.callee_name) && !(
        store_queries::external_bound(s, c) || store_queries::no_definition(s, c))
}

/// The call sites naming something, outside the files that define it and not
/// bound to a package outside the repository.
pub open spec fn stray_site(s: StoreModel, name: Seq<char>) -> spec_fn(CallRowModel) -> bool {
    |c: CallRowModel|
        c.call.callee_name == name && !rows::any(
            s.nodes,
            |n: NodeModel| store_queries::defines(name)(n) && n.file_path == c.file_path,
        ) && !store_queries::external_bound(s, c)
}

/// How many leading segments two paths share.
pub open spec fn shared_prefix(a: Seq<Seq<char>>, b: Seq<Seq<char>>) -> nat
    decreases a.len(),
{
    if a.len() > 0 && b.len() > 0 && a[0] == b[0] {
        1 + shared_prefix(a.drop_first(), b.drop_first())
    } else {
        0
    }
}

/// How many leading segments two paths share; see [`shared_prefix`].
pub open spec fn nearness(a: Seq<char>, b: Seq<char>) -> nat {
    shared_prefix(text::split_char(a, '/'), text::split_char(b, '/'))
}

/// The greatest nearness of a file to any of the others.
pub open spec fn best_nearness(file: Seq<char>, others: Seq<Seq<char>>) -> nat
    decreases others.len(),
{
    if others.len() == 0 {
        0
    } else {
        let rest = best_nearness(file, others.drop_last());
        let last = nearness(file, others.last());
        if last > rest {
            last
        } else {
            rest
        }
    }
}

/// The files that define something.
pub open spec fn defining_files(s: StoreModel, name: Seq<char>) -> Seq<Seq<char>> {
    rows::distinct(
        rows::kept(s.nodes, store_queries::defines(name)).map_values(|n: NodeModel| n.file_path),
    )
}

/// The files with stray call sites; where several files define the name and
/// one of them is asked about, only those that are nearest to it.
pub open spec fn stray_files(s: StoreModel, name: Seq<char>, about: Option<Seq<char>>) -> Seq<
    Seq<char>,
> {
    let files = rows::distinct(rows::kept(s.calls, stray_site(s, name)).map_values(call_file()));
    match about {
        None => files,
        Some(target) => if defining_files(s, name).len() <= 1 {
            files
        } else {
            rows::kept(
                files,
                |f: Seq<char>| nearness(f, target) == best_nearness(f, defining_files(s, name)),
            )
        },
    }
}

/// See [`shared_prefix`].
fn count_shared(a: &Vec<String>, b: &Vec<String>) -> (r: usize)
    ensures
        r == shared_prefix(text::views(a@), text::views(b@)),
{
    let ghost x = text::views(a@);
    let ghost y = text::views(b@);
    assert(x.len() == a@.len() && y.len() == b@.len());
    assert(x.skip(0) =~= x && y.skip(0) =~= y);
    let mut i: usize = 0;
    while i < a.len() && i < b.len() && text::same(a[i].as_str(), b[i].as_str())
        invariant
            i <= a.len(),
            i <= b.len(),
            x == text::views(a@),
            y == text::views(b@),
            x.len() == a@.len(),
            y.len() == b@.len(),
            shared_prefix(x, y) == i + shared_prefix(x.skip(i as int), y.skip(i as int)),
        decreases a.len() - i,
    {
        proof {
            assert(x[i as int] == a@[i as int]@);
            assert(y[i as int] == b@[i as int]@);
            assert(x.skip(i as int).drop_first() =~= x.skip(i + 1));
            assert(y.skip(i as int).drop_first() =~= y.skip(i + 1));
        }
        i += 1;
    }
    proof {
        if i < a@.len() && i < b@.len() {
            assert(x[i as int] == a@[i as int]@);
            assert(y[i as int] == b@[i as int]@);
        }
    }
    i
}

/// See [`nearness`].
fn count_nearness(a: &str, b: &str) -> (r: usize)
    ensures
        r == nearness(a@, b@),
{
    count_shared(&text::split_on(a, '/'), &text::split_on(b, '/'))
}

/// See [`best_nearness`].
fn count_best(file: &str, others: &Vec<String>) -> (r: usize)
    ensures
        r == best_nearness(file@, text::views(others@)),
{
    let mut best: usize = 0;
    let mut i: usize = 0;
    let ghost all = text::views(others@);
    assert(all.len() == others@.len());
    while i < others.len()
        invariant
            i <= others.len(),
            all == text::views(others@),
            all.len() == others@.len(),
            best == best_nearness(file@, all.take(i as int)),
        decreases others.len() - i,
    {
        let n: usize = count_nearness(file, others[i].as_str());
        assert(all.take(i + 1).drop_last() =~= all.take(i as int));
        assert(all.take(i + 1).last() == others@[i as int]@);
        if n > best {
            best = n;
        }
        i += 1;
    }
    assert(all.take(others@.len() as int) =~= all);
    best
}

/// The names that a caller's sites call without an edge, in order.
pub open spec fn unanswered_names(s: StoreModel, caller: Seq<char>) -> Seq<Seq<char>> {
    order::arranged(
        rows::distinct(
            rows::kept(s.calls, unanswered(s, caller)).map_values(
                |c: CallRowModel| c.call.callee_name,
            ),
        ),
        order::text_order(),
    )
}

impl Store {
    /// Replaces the pairs of files that changed together.
    pub fn save_cochanges(&mut self, pairs: &Vec<CoChange>)
        requires
            old(self)@.wf(),
        ensures
            final(self)@ == (StoreModel {
                cochanges: rows::all_replaced::<CoChange>(Seq::empty(), rows::seen(pairs@)),
                ..old(self)@
            }),
            final(self)@.wf(),
    {
        self.cochanges = Vec::new();
        assert(rows::seen(self.cochanges@) =~= Seq::empty());
        rows::replace_all(&mut self.cochanges, pairs);
        proof {
            rows::lemma_unique_all_replaced::<CoChange>(Seq::empty(), rows::seen(pairs@));
        }
    }

    /// The pairs of files that changed together most often.
    pub fn top_cochanges(&self, limit: usize) -> (r: Vec<CoChange>)
        ensures
            rows::seen(r@) == rows::limited(
                order::arranged(self@.cochanges, cochange_order()),
                limit as nat,
            ),
    {
        rows::limit(arrange_cochanges(rows::copies(&self.cochanges)), limit)
    }

    /// The files that changed together with a file most often.
    pub fn cochanges_for(&self, file: &str, limit: usize) -> (r: Vec<CoChange>)
        ensures
            rows::seen(r@) == rows::limited(
                order::arranged(
                    rows::kept(self@.cochanges, pair_with(file@)).map_values(partner(file@)),
                    cochange_order(),
                ),
                limit as nat,
            ),
    {
        let test = |c: &CoChange| -> (t: bool)
            ensures
                t == pair_with(file@)(c@),
        { text::same(c.file_a.as_str(), file) || text::same(c.file_b.as_str(), file) };
        let found = rows::select(&self.cochanges, Ghost(pair_with(file@)), test);
        let ghost f = |c: CoChange| partner(file@)(c@);
        let make = |c: &CoChange| -> (r: CoChange)
            ensures
                r@ == partner(file@)(c@),
        {
            CoChange {
                file_a: file.to_owned(),
                file_b: if text::same(c.file_a.as_str(), file) {
                    c.file_b.clone()
                } else {
                    c.file_a.clone()
                },
                n: c.n,
            }
        };
        let mut out: Vec<CoChange> = Vec::new();
        rows::append(&mut out, &found, Ghost(f), make);
        assert(rows::seen(out@) =~= rows::seen(found@).map_values(partner(file@)));
        rows::limit(arrange_cochanges(out), limit)
    }

    /// Notes a summary of a path.
    pub fn add_context(&mut self, path: &str, summary: &str, added_at: i64)
        requires
            old(self)@.wf(),
        ensures
            final(self)@ == (StoreModel {
                contexts: rows::replaced::<ContextEntry>(
                    old(self)@.contexts,
                    ContextEntryModel { path: path@, summary: summary@, added_at },
                ),
                ..old(self)@
            }),
            final(self)@.wf(),
    {
        let row = ContextEntry { path: path.to_owned(), summary: summary.to_owned(), added_at };
        proof {
            rows::lemma_unique_replaced::<ContextEntry>(self@.contexts, row@);
        }
        rows::replace(&mut self.contexts, row);
    }

    /// The summaries of the paths that begin as given, the oldest first.
    pub fn contexts_for(&self, path_prefix: &str) -> (r: Vec<ContextEntry>)
        ensures
            rows::seen(r@) == order::arranged(
                rows::kept(self@.contexts, context_under(path_prefix@)),
                context_order(),
            ),
    {
        let pattern = path_prefix.to_owned().concat("%");
        proof {
            reveal_strlit("%");
            assert(pattern@ =~= path_prefix@.push('%'));
        }
        let test = |c: &ContextEntry| -> (t: bool)
            ensures
                t == like::like(c@.path, pattern@),
        { like::matches_like(c.path.as_str(), pattern.as_str()) };
        let found = rows::select(&self.contexts, Ghost(context_under(path_prefix@)), test);
        let ghost all = found@;
        let ghost before = |a: ContextEntry, b: ContextEntry| a@.added_at < b@.added_at;
        let less = |a: &ContextEntry, b: &ContextEntry| -> (t: bool)
            ensures
                t == (a@.added_at < b@.added_at),
        { a.added_at < b.added_at };
        let r = order::arrange(found, Ghost(before), less);
        proof {
            order::lemma_arranged_map(all, before, |c: ContextEntry| c@, context_order());
            assert(rows::seen(r@) =~= r@.map_values(|c: ContextEntry| c@));
            assert(rows::seen(all) =~= all.map_values(|c: ContextEntry| c@));
        }
        r
    }

    /// The files that have nodes.
    pub fn indexed_files(&self) -> (r: Vec<String>)
        ensures
            text::views(r@) == rows::distinct(
                rows::kept(self@.nodes, |n: NodeModel| n.file_path.len() > 0).map_values(
                    |n: NodeModel| n.file_path,
                ),
            ),
    {
        let ghost keep = |n: NodeModel| n.file_path.len() > 0;
        let test = |n: &Node| -> (t: bool)
            ensures
                t == (n@.file_path.len() > 0),
        { !n.file_path.as_str().is_empty() };
        let found = rows::select(&self.nodes, Ghost(keep), test);
        let get = |n: &Node| -> (r: String)
            ensures
                r@ == n@.file_path,
        { n.file_path.clone() };
        let ghost f = |n: NodeModel| n.file_path;
        rows::distinct_texts(&found, Ghost(f), get)
    }

    /// The files of the manifest.
    pub fn manifest_files(&self) -> (r: Vec<String>)
        ensures
            text::views(r@) == self@.manifest.map_values(|m: ManifestEntryModel| m.file_path),
    {
        let ghost f = |m: ManifestEntryModel| m.file_path;
        let say = |m: &ManifestEntry| -> (r: String)
            ensures
                r@ == m@.file_path,
        { m.file_path.clone() };
        let mut out: Vec<String> = Vec::new();
        rows::say_all(&mut out, &self.manifest, Ghost(f), say);
        assert(text::views(out@) =~= self@.manifest.map_values(f));
        out
    }

    /// The files with call sites that name something.
    pub fn files_with_calls_naming(&self, name: &str) -> (r: Vec<String>)
        ensures
            text::views(r@) == rows::distinct(
                rows::kept(self@.calls, store_queries::calls_naming(name@)).map_values(call_file()),
            ),
    {
        let test = |c: &CallRow| -> (t: bool)
            ensures
                t == store_queries::calls_naming(name@)(c@),
        { text::same(c.call.callee_name.as_str(), name) };
        let found = rows::select(&self.calls, Ghost(store_queries::calls_naming(name@)), test);
        let get = |c: &CallRow| -> (r: String)
            ensures
                r@ == call_file()(c@),
        { c.file_path.clone() };
        rows::distinct_texts(&found, Ghost(call_file()), get)
    }

    /// Whether a supertype clause mentions a name.
    pub fn inherits_name_referenced(&self, name: &str) -> (r: bool)
        ensures
            r == rows::any(
                self@.inherits,
                |i: InheritRowModel| i.impl_name == name@ || i.super_name == name@,
            ),
    {
        let ghost want = |i: InheritRowModel| i.impl_name == name@ || i.super_name == name@;
        let test = |i: &InheritRow| -> (t: bool)
            ensures
                t == (i@.impl_name == name@ || i@.super_name == name@),
        { text::same(i.impl_name.as_str(), name) || text::same(i.super_name.as_str(), name) };
        rows::exists_row(&self.inherits, Ghost(want), test)
    }

    /// The names that a caller calls and that no edge answers, in their order;
    /// see [`unanswered`].
    pub fn unresolved_callee_names(&self, caller_id: &str) -> (r: Vec<String>)
        ensures
            text::views(r@) == unanswered_names(self@, caller_id@),
    {
        let test = |c: &CallRow| -> (t: bool)
            ensures
                t == unanswered(self@, caller_id@)(c@),
        {
            text::same(c.call.caller_id.as_str(), caller_id) && !like::matches_like(
                c.call.callee_name.as_str(),
                "route.%",
            ) && !self.has_call_edge(caller_id, c.call.callee_name.as_str())
                && !self.is_external_bound(c) && self.has_definition(c.call.callee_name.as_str())
        };
        let found = rows::select(&self.calls, Ghost(unanswered(self@, caller_id@)), test);
        let get = |c: &CallRow| -> (r: String)
            ensures
                r@ == c@.call.callee_name,
        { c.call.callee_name.clone() };
        let ghost f = |c: CallRowModel| c.call.callee_name;
        order::arrange_texts(rows::distinct_texts(&found, Ghost(f), get))
    }

    /// See [`stray_files`].
    pub fn unresolved_call_site_files(&self, name: &str, attribute_to: Option<&str>) -> (r: Vec<
        String,
    >)
        ensures
            text::views(r@) == stray_files(
                self@,
                name@,
                match attribute_to {
                    Some(t) => Some(t@),
                    None => None,
                },
            ),
    {
        let test = |c: &CallRow| -> (t: bool)
            ensures
                t == stray_site(self@, name@)(c@),
        {
            let ghost want = |n: NodeModel|
                store_queries::defines(name@)(n) && n.file_path == c@.file_path;
            let inner = |n: &Node| -> (t: bool)
                ensures
                    t == (store_queries::defines(name@)(n@) && n@.file_path == c@.file_path),
            {
                text::same(n.name.as_str(), name) && (n.label == NodeLabel::Function || n.label
                    == NodeLabel::Method || n.label == NodeLabel::Class) && text::same(
                    n.file_path.as_str(),
                    c.file_path.as_str(),
                )
            };
            text::same(c.call.callee_name.as_str(), name) && !rows::exists_row(
                &self.nodes,
                Ghost(want),
                inner,
            ) && !self.is_external_bound(c)
        };
        let found = rows::select(&self.calls, Ghost(stray_site(self@, name@)), test);
        let get = |c: &CallRow| -> (r: String)
            ensures
                r@ == call_file()(c@),
        { c.file_path.clone() };
        let files = rows::distinct_texts(&found, Ghost(call_file()), get);
        let target = match attribute_to {
            Some(t) => t,
            None => return files,
        };
        let test = |n: &Node| -> (t: bool)
            ensures
                t == store_queries::defines(name@)(n@),
        {
            text::same(n.name.as_str(), name) && (n.label == NodeLabel::Function || n.label
                == NodeLabel::Method || n.label == NodeLabel::Class)
        };
        let defs = rows::select(&self.nodes, Ghost(store_queries::defines(name@)), test);
        let get = |n: &Node| -> (r: String)
            ensures
                r@ == n@.file_path,
        { n.file_path.clone() };
        let ghost f = |n: NodeModel| n.file_path;
        let def_files = rows::distinct_texts(&defs, Ghost(f), get);
        assert(text::views(def_files@) == defining_files(self@, name@));
        assert(text::views(def_files@).len() == def_files@.len());
        if def_files.len() <= 1 {
            return files;
        }
        let ghost near = |f: Seq<char>|
            nearness(f, target@) == best_nearness(f, defining_files(self@, name@));
        let ghost all = text::views(files@);
        let mut out: Vec<String> = Vec::new();
        let mut i: usize = 0;
        while i < files.len()
            invariant
                i <= files.len(),
                all == text::views(files@),
                all.len() == files@.len(),
                text::views(def_files@) == defining_files(self@, name@),
                near == |f: Seq<char>|
                    nearness(f, target@) == best_nearness(f, defining_files(self@, name@)),
                text::views(out@) == rows::kept(all.take(i as int), near),
            decreases files.len() - i,
        {
            proof {
                rows::lemma_kept_next(all, i as int, near);
                assert(all[i as int] == files@[i as int]@);
            }
            let ghost was = out@;
            if count_nearness(files[i].as_str(), target) == count_best(
                files[i].as_str(),
                &def_files,
            ) {
                out.push(files[i].clone());
                assert(text::views(out@) =~= text::views(was).push(all[i as int]));
            }
            i += 1;
        }
        assert(all.take(files@.len() as int) =~= all);
        out
    }
}

} // verus!
