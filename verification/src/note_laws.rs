//! What is noted and left out from one run to the next, and what is exchanged
//! with a server.

use vstd::prelude::*;

use crate::ignores;
use crate::llm;
use crate::order;
use crate::rows;
use crate::store::StoreModel;
use crate::store_laws;
use crate::text;
use crate::tools;
use crate::tools_lists;
use crate::types::{NodeLabel, NodeModel};
use crate::update;
use crate::value;
use crate::value::{DatumModel, Entries};
use crate::viz;

verus! {

/// A SCIP index that was looked at is not new until it is written again, unless
/// it is given.
pub proof fn law_scip_index_is_merged_once(
    s: StoreModel,
    m: Seq<char>,
    other: Seq<char>,
    fresh: bool,
    head: Seq<char>,
)
    ensures
        ({
            let t = update::scip_noted(s, Some(m), fresh, head);
            &&& !update::scip_is_new(t, false, Some(m))
            &&& other != m ==> update::scip_is_new(t, false, Some(other))
            &&& !update::scip_is_new(t, false, None)
            &&& update::scip_is_new(t, true, Some(m))
        }),
{
    reveal_strlit("scip_file_mtime");
    reveal_strlit("scip_auto");
    reveal_strlit("scip_pending");
    reveal_strlit("scip_stamp");
    let (k, a, p, q) = ("scip_file_mtime"@, "scip_auto"@, "scip_pending"@, "scip_stamp"@);
    assert(k.len() == 15 && a.len() == 9 && p.len() == 12 && q.len() == 10);
    let t = update::with_meta(s, k, m);
    store_laws::law_meta_reads_back(s.meta, k, m, k);
    let u = update::with_meta(t, a, "1"@);
    store_laws::law_meta_reads_back(t.meta, a, "1"@, k);
    let v = update::with_meta(u, p, ""@);
    store_laws::law_meta_reads_back(u.meta, p, ""@, k);
    store_laws::law_meta_reads_back(v.meta, q, head, k);
}

/// After a run that gave edges the indexer is due again once the commit is
/// another one, unless it is switched off.
pub proof fn law_indexer_is_due_for_another_commit(
    s: StoreModel,
    mtime: Option<Seq<char>>,
    head: Seq<char>,
    other: Seq<char>,
)
    requires
        head.len() > 0,
        other.len() > 0,
        other != head,
    ensures
        ({
            let t = update::scip_noted(s, mtime, true, head);
            &&& forall|off: bool| !#[trigger] update::scip_is_due(t, off, Some(head))
            &&& update::scip_is_due(t, false, Some(other))
            &&& !update::scip_is_due(t, true, Some(other))
            &&& !update::scip_is_due(t, false, None)
            &&& update::scip_is_to_start(t, false, Some(other))
            &&& !update::scip_is_to_start(
                update::with_meta(t, "scip_pending"@, other),
                false,
                Some(other),
            )
        }),
{
    reveal_strlit("scip_file_mtime");
    reveal_strlit("scip_auto");
    reveal_strlit("scip_pending");
    reveal_strlit("scip_stamp");
    reveal_strlit("");
    let (k, a, p, q) = ("scip_file_mtime"@, "scip_auto"@, "scip_pending"@, "scip_stamp"@);
    assert(k.len() == 15 && a.len() == 9 && p.len() == 12 && q.len() == 10);
    let t = match mtime {
        Some(m) => update::with_meta(s, k, m),
        None => s,
    };
    let u = update::with_meta(t, a, "1"@);
    store_laws::law_meta_reads_back(t.meta, a, "1"@, a);
    let v = update::with_meta(u, p, ""@);
    store_laws::law_meta_reads_back(u.meta, p, ""@, a);
    store_laws::law_meta_reads_back(u.meta, p, ""@, p);
    let w = update::with_meta(v, q, head);
    store_laws::law_meta_reads_back(v.meta, q, head, a);
    store_laws::law_meta_reads_back(v.meta, q, head, p);
    store_laws::law_meta_reads_back(v.meta, q, head, q);
    store_laws::law_meta_reads_back(w.meta, p, other, p);
    assert(w == update::scip_noted(s, mtime, true, head));
    assert(""@.len() == 0);
}

/// All nodes but files are embedded, in their order.
pub proof fn law_all_but_files_are_embedded(nodes: Seq<NodeModel>)
    ensures
        ({
            let r = update::embedded_places(nodes);
            &&& forall|k: nat| #[trigger]
                r.contains(k) <==> k < nodes.len() && nodes[k as int].label != NodeLabel::File
            &&& forall|i: int, j: int| 0 <= i < j < r.len() ==> #[trigger] r[i] < #[trigger] r[j]
        }),
    decreases nodes.len(),
{
    let r = update::embedded_places(nodes);
    if nodes.len() > 0 {
        let d = nodes.drop_last();
        let b = update::embedded_places(d);
        let l = (nodes.len() - 1) as nat;
        law_all_but_files_are_embedded(d);
        assert forall|k: nat| #[trigger] r.contains(k) <==> k < nodes.len() && nodes[k as int].label
            != NodeLabel::File by {
            if r.contains(k) {
                let i = choose|i: int| 0 <= i < r.len() && r[i] == k;
                if i < b.len() {
                    assert(b[i] == k);
                    assert(b.contains(k));
                }
            }
            if k < nodes.len() && nodes[k as int].label != NodeLabel::File {
                if k < l {
                    assert(d[k as int] == nodes[k as int]);
                    assert(b.contains(k));
                    let i = choose|i: int| 0 <= i < b.len() && b[i] == k;
                    assert(r[i] == k);
                } else {
                    assert(r[b.len() as int] == k);
                }
            }
        }
        assert forall|i: int, j: int| 0 <= i < j < r.len() implies #[trigger] r[i]
            < #[trigger] r[j] by {
            assert(r[i] == b[i]);
            assert(b.contains(b[i]));
            if j < b.len() {
                assert(r[j] == b[j]);
            }
        }
    }
}

/// A path stays just where it bears no mark.
pub proof fn law_marked_paths_are_left_out(
    s: Seq<Seq<char>>,
    marks: Seq<bool>,
    x: Seq<char>,
    mark: bool,
)
    requires
        marks.len() == s.len(),
    ensures
        ignores::without_marked(Seq::empty(), Seq::empty()) == Seq::<Seq<char>>::empty(),
        ignores::without_marked(s.push(x), marks.push(mark)) == (if mark {
            ignores::without_marked(s, marks)
        } else {
            ignores::without_marked(s, marks).push(x)
        }),
{
    assert(s.push(x).drop_last() =~= s);
    lemma_marks(s, marks, mark);
}

proof fn lemma_marks(s: Seq<Seq<char>>, marks: Seq<bool>, mark: bool)
    requires
        s.len() <= marks.len(),
    ensures
        ignores::without_marked(s, marks.push(mark)) == ignores::without_marked(s, marks),
    decreases s.len(),
{
    if s.len() > 0 {
        lemma_marks(s.drop_last(), marks, mark);
        assert(marks.push(mark)[s.len() - 1] == marks[s.len() - 1]);
    }
}

/// The lines of an ignore file are its lines; only before the first one byte
/// order marks are left out.
pub proof fn law_rules_are_the_lines(file: Seq<char>, rest: Seq<char>)
    ensures
        ignores::rule_lines(file).len() == text::lines(file).len(),
        forall|i: int|
            0 < i < text::lines(file).len() ==> #[trigger] ignores::rule_lines(file)[i]
                == text::lines(file)[i],
        text::lines(file).len() > 0 && !(text::lines(file)[0].len() > 0 && text::lines(file)[0][0]
            == '\u{feff}') ==> ignores::rule_lines(file)[0] == text::lines(file)[0],
        ignores::without_marks(seq!['\u{feff}'] + rest) == ignores::without_marks(rest),
{
    let m = seq!['\u{feff}'] + rest;
    assert(m.drop_first() =~= rest);
}

/// A file counts for the family of languages that it is of: one vote more.
pub proof fn law_votes_are_counted(files: Seq<Seq<char>>, f: Seq<char>, file: Seq<char>)
    ensures
        tools::votes(Seq::empty(), file) == 0,
        tools::votes(files.push(f), file) == tools::votes(files, file) + (if tools::family_of(f)
            == tools::family_of(file) {
            1nat
        } else {
            0nat
        }),
{
    rows::lemma_kept_push(files, f, tools::of_family(tools::family_of(file)));
}

/// The risk grows with the number of callers, and a test lowers it: it is high
/// for ten callers or more without a test, and low for less than three.
pub proof fn law_risk_grows_with_the_callers(fan_in: nat, tested: bool)
    ensures
        tools_lists::risk_word(fan_in, tested) == "HIGH"@ <==> fan_in >= 10 && !tested,
        tools_lists::risk_word(fan_in, tested) == "low"@ <==> fan_in < 3 || (tested && fan_in < 10),
        tools_lists::risk_word(fan_in, tested) == "MED"@ <==> (tested && fan_in >= 10) || (!tested
            && 3 <= fan_in < 10),
{
    reveal_strlit("HIGH");
    reveal_strlit("MED");
    reveal_strlit("low");
    assert("HIGH"@.len() == 4 && "MED"@.len() == 3 && "low"@.len() == 3);
    assert("MED"@[0] != "low"@[0]);
}

proof fn lemma_lookup(t: Entries, key: Seq<char>)
    ensures
        match value::lookup(t, key) {
            Some(v) => exists|i: int|
                0 <= i < t.len() && #[trigger] t[i] == (key, v) && forall|j: int|
                    0 <= j < i ==> (#[trigger] t[j]).0 != key,
            None => forall|i: int| 0 <= i < t.len() ==> (#[trigger] t[i]).0 != key,
        },
    decreases t.len(),
{
    if t.len() > 0 {
        let d = t.drop_first();
        lemma_lookup(d, key);
        assert forall|i: int| 0 <= i < d.len() implies #[trigger] d[i] == t[i + 1] by {}
        if t[0].0 == key {
            assert(t[0] == (key, t[0].1));
        } else {
            match value::lookup(d, key) {
                Some(v) => {
                    let i = choose|i: int|
                        0 <= i < d.len() && #[trigger] d[i] == (key, v) && forall|j: int|
                            0 <= j < i ==> (#[trigger] d[j]).0 != key;
                    assert(t[i + 1] == (key, v));
                    assert forall|j: int| 0 <= j < i + 1 implies (#[trigger] t[j]).0 != key by {
                        if j > 0 {
                            assert(d[j - 1] == t[j]);
                        }
                    }
                },
                None => {
                    assert forall|i: int| 0 <= i < t.len() implies (#[trigger] t[i]).0 != key by {
                        if i > 0 {
                            assert(d[i - 1] == t[i]);
                        }
                    }
                },
            }
        }
    }
}

/// The value under a key is that of the first entry that bears it.
pub proof fn law_first_entry_of_a_key(t: Entries, key: Seq<char>, k: int)
    requires
        0 <= k < t.len(),
        t[k].0 == key,
        forall|j: int| 0 <= j < k ==> (#[trigger] t[j]).0 != key,
    ensures
        value::field(DatumModel::Table(t), key) == Some(t[k].1),
{
    lemma_lookup(t, key);
    match value::lookup(t, key) {
        Some(v) => {
            let i = choose|i: int|
                0 <= i < t.len() && #[trigger] t[i] == (key, v) && forall|j: int|
                    0 <= j < i ==> (#[trigger] t[j]).0 != key;
            if i < k {
                assert(t[i].0 != key);
            }
            if k < i {
                assert(t[k].0 != key);
            }
        },
        None => {},
    }
}

/// The text of a reply is the content of the message of its first choice.
pub proof fn law_reply_is_the_first_choice(
    v: DatumModel,
    choices: Seq<DatumModel>,
    message: DatumModel,
    t: Seq<char>,
)
    requires
        value::field(v, "choices"@) == Some(DatumModel::List(choices)),
    ensures
        choices.len() > 0 && value::field(choices[0], "message"@) == Some(message) && value::field(
            message,
            "content"@,
        ) == Some(DatumModel::Text(t)) ==> llm::reply_in(v) == Some(t),
        choices.len() == 0 ==> llm::reply_in(v) is None,
{
}

/// The models of a listing are the ids of its items, in their order; an item
/// without one is left out.
pub proof fn law_models_are_listed_by_their_ids(items: Seq<DatumModel>, x: DatumModel, id: Seq<char>)
    ensures
        llm::listed_models(Seq::empty()) == Seq::<Seq<char>>::empty(),
        value::field(x, "id"@) == Some(DatumModel::Text(id)) ==> llm::listed_models(items.push(x))
            == llm::listed_models(items).push(id),
        value::field(x, "id"@) is None ==> llm::listed_models(items.push(x))
            == llm::listed_models(items),
        llm::models_in(DatumModel::Table(seq![("data"@, DatumModel::List(items))]))
            == llm::listed_models(items),
{
    assert(items.push(x).drop_last() =~= items);
    law_first_entry_of_a_key(seq![("data"@, DatumModel::List(items))], "data"@, 0);
}

/// The slashes at the end of an address make no difference.
pub proof fn law_address_ends_without_a_slash(base: Seq<char>, path: Seq<char>)
    ensures
        llm::url_of(base.push('/'), path) == llm::url_of(base, path),
        base.len() > 0 && base.last() != '/' ==> llm::url_of(base, path) == base + path,
{
    assert(base.push('/').drop_last() =~= base);
}

/// An address that is given is the only one that is asked, and no key is sent
/// to it. Else a server that is named is the only one, and where none or an
/// unknown one is named all are asked, those of the machine itself first.
pub proof fn law_servers_that_are_asked(url: Seq<char>, provider: Option<Seq<char>>, p: Seq<char>)
    ensures
        llm::servers_for(Some(url), provider).len() == 1,
        llm::servers_for(Some(url), provider)[0].base_url == url,
        llm::servers_for(Some(url), provider)[0].api_key_env is None,
        forall|i: int|
            0 <= i < llm::servers_for(None, Some(p)).len() && llm::servers_for(
                None,
                Some(p),
            ) != llm::servers_for(None, None) ==> (#[trigger] llm::servers_for(None, Some(p))[i]).id
                == p,
        forall|i: int, j: int|
            0 <= i < j < llm::servers_for(None, None).len() && (#[trigger] llm::servers_for(
                None,
                None,
            )[j]).api_key_env is None ==> (#[trigger] llm::servers_for(None, None)[i]).api_key_env is None,
{
    rows::lemma_kept(llm::known_servers(), llm::server_is(p));
}

/// What is counted is each text once, in the order of the texts, with the number
/// of its places.
pub proof fn law_each_text_is_counted(keys: Seq<Seq<char>>, x: Seq<char>, k: Seq<char>)
    ensures
        viz::times(Seq::empty(), k) == 0,
        viz::times(keys.push(x), k) == viz::times(keys, k) + (if x == k {
            1nat
        } else {
            0nat
        }),
        ({
            let r = viz::counted(keys);
            &&& forall|c: (Seq<char>, nat)| #[trigger]
                r.contains(c) <==> keys.contains(c.0) && c.1 == viz::times(keys, c.0)
            &&& forall|i: int, j: int|
                0 <= i < j < r.len() ==> text::text_less((#[trigger] r[i]).0, (#[trigger] r[j]).0)
        }),
{
    rows::lemma_kept_push(keys, x, viz::is_text(k));
    let once = rows::distinct(keys);
    let before = order::text_order();
    let sorted = order::arranged(once, before);
    let g = |k: Seq<char>| (k, viz::times(keys, k));
    let r = viz::counted(keys);
    rows::lemma_distinct(keys);
    assert(order::is_order(before)) by {
        assert forall|a: Seq<char>, b: Seq<char>| #[trigger] before(a, b) implies !before(b, a) by {
            order::lemma_text_asymmetric(a, b);
        }
        assert forall|a: Seq<char>, b: Seq<char>, c: Seq<char>|
            #![trigger before(a, b), before(a, c)]
            #![trigger before(a, b), before(c, b)]
            before(a, b) implies before(a, c) || before(c, b) by {
            order::lemma_text_between(a, b, c);
        }
    }
    order::law_arranged(once, before);
    order::lemma_same_items(once, before);
    let at = order::lemma_arranged_stable(once, before);
    assert forall|i: int, j: int| 0 <= i < j < r.len() implies text::text_less(
        (#[trigger] r[i]).0,
        (#[trigger] r[j]).0,
    ) by {
        assert(at[i] != at[j]);
        assert(sorted[i] != sorted[j]);
        assert(!before(sorted[j], sorted[i]));
        order::lemma_text_total(sorted[i], sorted[j]);
    }
    assert forall|c: (Seq<char>, nat)| #[trigger] r.contains(c) <==> keys.contains(c.0) && c.1
        == viz::times(keys, c.0) by {
        if r.contains(c) {
            let i = choose|i: int| 0 <= i < r.len() && r[i] == c;
            assert(r[i] == g(sorted[i]));
            assert(sorted.contains(sorted[i]));
        }
        if keys.contains(c.0) && c.1 == viz::times(keys, c.0) {
            assert(once.contains(c.0));
            assert(sorted.contains(c.0));
            let i = choose|i: int| 0 <= i < sorted.len() && sorted[i] == c.0;
            assert(r[i] == g(sorted[i]));
            assert(r[i] == c);
        }
    }
}

} // verus!
