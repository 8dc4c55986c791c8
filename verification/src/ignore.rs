//! The resolution engine: turns a namespace store and an ordered request
//! list into concatenated ignore-file text, applying the fixed
//! precedence (user template, then alias, then remote template) and
//! one-level alias expansion, in request order.

use vstd::prelude::*;

use crate::data::{lookup_alias, lookup_remote, lookup_user, IgnoreData, Type};
use crate::detector::{detected_names, is_default_table, Detectors, DirEntry};
use crate::strutil::{lex_le, seq_contains, str_contains, str_le};
use vstd::multiset::Multiset;

verus! {

/// The provenance line put in front of any non-empty output.
pub open spec fn header() -> Seq<char> {
    "\n\n### Created by https://www.gitignore.io"@
}

/// Text contributed by one alias target: the user template wins, then
/// the remote template; aliases are never consulted for a target, so
/// expansion stays one level deep.
pub open spec fn target_text(s: Seq<Type>, t: Seq<char>) -> Seq<char> {
    match lookup_user(s, t) {
        Some(c) => c,
        None => match lookup_remote(s, t) {
            Some(c) => c,
            None => Seq::empty(),
        },
    }
}

/// Whether an alias target resolves in neither template space.
pub open spec fn target_missing(s: Seq<Type>, t: Seq<char>) -> bool {
    lookup_user(s, t) is None && lookup_remote(s, t) is None
}

/// Concatenated text of an alias's target list, in declared order.
pub open spec fn targets_text(s: Seq<Type>, ts: Seq<Seq<char>>) -> Seq<char>
    decreases ts.len(),
{
    if ts.len() == 0 {
        Seq::empty()
    } else {
        target_text(s, ts[0]) + targets_text(s, ts.skip(1))
    }
}

/// The targets of an alias that resolve nowhere, in declared order;
/// each is reported as a diagnostic and skipped.
pub open spec fn targets_missing(s: Seq<Type>, ts: Seq<Seq<char>>) -> Seq<Seq<char>>
    decreases ts.len(),
{
    if ts.len() == 0 {
        Seq::empty()
    } else if target_missing(s, ts[0]) {
        seq![ts[0]] + targets_missing(s, ts.skip(1))
    } else {
        targets_missing(s, ts.skip(1))
    }
}

/// Text contributed by one requested name: a user template shadows an
/// alias, which shadows a remote template; an unknown name contributes
/// nothing.
pub open spec fn name_text(s: Seq<Type>, n: Seq<char>) -> Seq<char> {
    match lookup_user(s, n) {
        Some(c) => c,
        None => match lookup_alias(s, n) {
            Some(ts) => targets_text(s, ts),
            None => match lookup_remote(s, n) {
                Some(c) => c,
                None => Seq::empty(),
            },
        },
    }
}

/// Diagnostics raised by one requested name: only an alias that is not
/// shadowed reports its unresolvable targets; unknown names stay
/// silent.
pub open spec fn name_missing(s: Seq<Type>, n: Seq<char>) -> Seq<Seq<char>> {
    if lookup_user(s, n) is None {
        match lookup_alias(s, n) {
            Some(ts) => targets_missing(s, ts),
            None => Seq::empty(),
        }
    } else {
        Seq::empty()
    }
}

/// Concatenated text of a request list, in request order.
pub open spec fn resolved_text(s: Seq<Type>, names: Seq<Seq<char>>) -> Seq<char>
    decreases names.len(),
{
    if names.len() == 0 {
        Seq::empty()
    } else {
        name_text(s, names[0]) + resolved_text(s, names.skip(1))
    }
}

/// Diagnostics of a request list, in request order.
pub open spec fn resolved_missing(s: Seq<Type>, names: Seq<Seq<char>>) -> Seq<Seq<char>>
    decreases names.len(),
{
    if names.len() == 0 {
        Seq::empty()
    } else {
        name_missing(s, names[0]) + resolved_missing(s, names.skip(1))
    }
}

/// Concatenated text of a request list when only remote templates are
/// consulted.
pub open spec fn simple_text(s: Seq<Type>, names: Seq<Seq<char>>) -> Seq<char>
    decreases names.len(),
{
    if names.len() == 0 {
        Seq::empty()
    } else {
        (match lookup_remote(s, names[0]) {
            Some(c) => c,
            None => Seq::empty(),
        }) + simple_text(s, names.skip(1))
    }
}

/// Output follows request order: a request list resolves part by part,
/// so swapping two requests swaps their contributions and never
/// reorders them.
pub proof fn lemma_resolve_order(s: Seq<Type>, names1: Seq<Seq<char>>, names2: Seq<Seq<char>>)
    ensures
        resolved_text(s, names1 + names2) == resolved_text(s, names1) + resolved_text(s, names2),
        resolved_missing(s, names1 + names2) == resolved_missing(s, names1) + resolved_missing(
            s,
            names2,
        ),
    decreases names1.len(),
{
    if names1.len() == 0 {
        assert(names1 + names2 =~= names2);
        assert(resolved_text(s, names1) + resolved_text(s, names2) =~= resolved_text(s, names2));
        assert(resolved_missing(s, names1) + resolved_missing(s, names2) =~= resolved_missing(
            s,
            names2,
        ));
    } else {
        assert((names1 + names2)[0] == names1[0]);
        assert((names1 + names2).skip(1) =~= names1.skip(1) + names2);
        lemma_resolve_order(s, names1.skip(1), names2);
        assert(resolved_text(s, names1 + names2) =~= resolved_text(s, names1) + resolved_text(
            s,
            names2,
        ));
        assert(resolved_missing(s, names1 + names2) =~= resolved_missing(s, names1)
            + resolved_missing(s, names2));
    }
}

/// Precedence: a name bound to a user template yields exactly that
/// template's content, whatever remote template or alias shares the
/// key.
pub proof fn lemma_user_precedence(s: Seq<Type>, n: Seq<char>, c: Seq<char>)
    requires
        lookup_user(s, n) == Some(c),
    ensures
        name_text(s, n) == c,
        name_missing(s, n) == Seq::<Seq<char>>::empty(),
{
}

/// Alias expansion is one level deep: a target is looked up among user
/// and remote templates only, so two stores that agree on those two
/// spaces expand every target list alike, however their aliases differ.
pub proof fn lemma_alias_expansion_shallow(s1: Seq<Type>, s2: Seq<Type>, ts: Seq<Seq<char>>)
    requires
        forall|n: Seq<char>| #[trigger] lookup_user(s1, n) == lookup_user(s2, n),
        forall|n: Seq<char>| #[trigger] lookup_remote(s1, n) == lookup_remote(s2, n),
    ensures
        targets_text(s1, ts) == targets_text(s2, ts),
        targets_missing(s1, ts) == targets_missing(s2, ts),
    decreases ts.len(),
{
    if ts.len() > 0 {
        lemma_alias_expansion_shallow(s1, s2, ts.skip(1));
    }
}

/// An alias target that is bound only as an alias contributes no text
/// and counts as missing: targets are never expanded through further
/// aliases.
pub proof fn lemma_alias_target_opaque(s: Seq<Type>, t: Seq<char>)
    requires
        lookup_user(s, t) is None,
        lookup_remote(s, t) is None,
    ensures
        target_text(s, t) == Seq::<char>::empty(),
        target_missing(s, t),
{
}

/// An unknown requested name contributes nothing and reports nothing.
pub proof fn lemma_unknown_name_silent(s: Seq<Type>, n: Seq<char>)
    requires
        lookup_user(s, n) is None,
        lookup_alias(s, n) is None,
        lookup_remote(s, n) is None,
    ensures
        name_text(s, n) == Seq::<char>::empty(),
        name_missing(s, n) == Seq::<Seq<char>>::empty(),
{
}

/// Target lists expand part by part, in declared order.
pub proof fn lemma_targets_order(s: Seq<Type>, ts1: Seq<Seq<char>>, ts2: Seq<Seq<char>>)
    ensures
        targets_text(s, ts1 + ts2) == targets_text(s, ts1) + targets_text(s, ts2),
        targets_missing(s, ts1 + ts2) == targets_missing(s, ts1) + targets_missing(s, ts2),
    decreases ts1.len(),
{
    if ts1.len() == 0 {
        assert(ts1 + ts2 =~= ts2);
        assert(targets_text(s, ts1) + targets_text(s, ts2) =~= targets_text(s, ts2));
        assert(targets_missing(s, ts1) + targets_missing(s, ts2) =~= targets_missing(s, ts2));
    } else {
        assert((ts1 + ts2)[0] == ts1[0]);
        assert((ts1 + ts2).skip(1) =~= ts1.skip(1) + ts2);
        lemma_targets_order(s, ts1.skip(1), ts2);
        assert(targets_text(s, ts1 + ts2) =~= targets_text(s, ts1) + targets_text(s, ts2));
        assert(targets_missing(s, ts1 + ts2) =~= targets_missing(s, ts1) + targets_missing(
            s,
            ts2,
        ));
    }
}

/// A target that resolves nowhere is reported and skipped: the
/// remaining targets of the alias still contribute their text.
pub proof fn lemma_missing_target_skipped(
    s: Seq<Type>,
    ts1: Seq<Seq<char>>,
    t: Seq<char>,
    ts2: Seq<Seq<char>>,
)
    requires
        target_missing(s, t),
    ensures
        targets_text(s, ts1 + seq![t] + ts2) == targets_text(s, ts1) + targets_text(s, ts2),
        targets_missing(s, ts1 + seq![t] + ts2).contains(t),
{
    lemma_targets_order(s, ts1 + seq![t], ts2);
    lemma_targets_order(s, ts1, seq![t]);
    assert(seq![t].skip(1) =~= Seq::<Seq<char>>::empty());
    assert(targets_text(s, Seq::<Seq<char>>::empty()) == Seq::<char>::empty());
    assert(targets_missing(s, Seq::<Seq<char>>::empty()) == Seq::<Seq<char>>::empty());
    assert(target_text(s, t) == Seq::<char>::empty());
    assert(targets_text(s, seq![t]) =~= Seq::<char>::empty());
    assert(targets_text(s, ts1) + targets_text(s, seq![t]) =~= targets_text(s, ts1));
    assert(targets_missing(s, seq![t]) =~= seq![t]);
    assert(targets_missing(s, ts1 + seq![t] + ts2) == targets_missing(s, ts1) + seq![t]
        + targets_missing(s, ts2));
    assert(targets_missing(s, ts1 + seq![t] + ts2)[targets_missing(s, ts1).len() as int] == t);
}

/// The names of all store entries, in store order.
pub open spec fn all_names(s: Seq<Type>) -> Seq<Seq<char>>
    decreases s.len(),
{
    if s.len() == 0 {
        Seq::empty()
    } else {
        seq![s[0].spec_key()] + all_names(s.skip(1))
    }
}

/// One store name, repeated once for every requested pattern that
/// occurs inside it, in request order.
pub open spec fn entry_selections(inner: Seq<char>, names: Seq<Seq<char>>) -> Seq<Seq<char>>
    decreases names.len(),
{
    if names.len() == 0 {
        Seq::empty()
    } else if seq_contains(inner, names[0]) {
        seq![inner] + entry_selections(inner, names.skip(1))
    } else {
        entry_selections(inner, names.skip(1))
    }
}

/// The store names selected by substring search, entry by entry in
/// store order.
pub open spec fn selected_names(s: Seq<Type>, names: Seq<Seq<char>>) -> Seq<Seq<char>>
    decreases s.len(),
{
    if s.len() == 0 {
        Seq::empty()
    } else {
        entry_selections(s[0].spec_key(), names) + selected_names(s.skip(1), names)
    }
}

/// What a listing shows: every name when nothing was requested, else
/// the names selected by substring search.
pub open spec fn listed_names(s: Seq<Type>, names: Seq<Seq<char>>) -> Seq<Seq<char>> {
    if names.len() == 0 {
        all_names(s)
    } else {
        selected_names(s, names)
    }
}

/// Insertion into a lexicographically sorted name list.
pub open spec fn insort(x: Seq<char>, s: Seq<Seq<char>>) -> Seq<Seq<char>>
    decreases s.len(),
{
    if s.len() == 0 {
        seq![x]
    } else if lex_le(x, s[0]) {
        seq![x] + s
    } else {
        seq![s[0]] + insort(x, s.skip(1))
    }
}

/// Insertion sort of a name list under the lexicographic order.
pub open spec fn sort_names(s: Seq<Seq<char>>) -> Seq<Seq<char>>
    decreases s.len(),
{
    if s.len() == 0 {
        Seq::empty()
    } else {
        insort(s[0], sort_names(s.skip(1)))
    }
}

/// A name list in ascending lexicographic order.
pub open spec fn sorted_names(s: Seq<Seq<char>>) -> bool {
    forall|i: int, j: int|
        #![trigger s[i], s[j]]
        0 <= i < j < s.len() ==> lex_le(s[i], s[j])
}

/// Insertion keeps a sorted list sorted and adds exactly the new name.
pub proof fn lemma_insort_sorted(x: Seq<char>, s: Seq<Seq<char>>)
    requires
        sorted_names(s),
    ensures
        sorted_names(insort(x, s)),
        insort(x, s).to_multiset() == s.to_multiset().insert(x),
        insort(x, s).len() == s.len() + 1,
    decreases s.len(),
{
    broadcast use vstd::seq_lib::group_to_multiset_ensures;
    broadcast use vstd::seq_lib::lemma_multiset_commutative;
    broadcast use vstd::multiset::group_multiset_axioms;

    let t = insort(x, s);
    if s.len() == 0 {
        assert(t =~= Seq::<Seq<char>>::empty().push(x));
        assert(t.to_multiset() =~= s.to_multiset().insert(x));
    } else if lex_le(x, s[0]) {
        assert(t =~= seq![x] + s);
        assert(seq![x] =~= Seq::<Seq<char>>::empty().push(x));
        assert(t.to_multiset() =~= s.to_multiset().insert(x));
        assert forall|i: int, j: int|
            #![trigger t[i], t[j]]
            0 <= i < j < t.len() implies lex_le(t[i], t[j]) by {
            if i == 0 {
                assert(t[i] == x);
                assert(t[j] == s[j - 1]);
                if j > 1 {
                    crate::strutil::lemma_lex_le_transitive(x, s[0], s[j - 1]);
                }
            } else {
                assert(t[i] == s[i - 1] && t[j] == s[j - 1]);
            }
        }
    } else {
        crate::strutil::lemma_lex_le_total(x, s[0]);
        assert forall|a: int, b: int|
            #![trigger s.skip(1)[a], s.skip(1)[b]]
            0 <= a < b < s.skip(1).len() implies lex_le(s.skip(1)[a], s.skip(1)[b]) by {
            assert(s.skip(1)[a] == s[a + 1]);
            assert(s.skip(1)[b] == s[b + 1]);
        }
        lemma_insort_sorted(x, s.skip(1));
        let u = insort(x, s.skip(1));
        assert(t =~= seq![s[0]] + u);
        assert(s =~= seq![s[0]] + s.skip(1));
        assert(t.to_multiset() =~= s.to_multiset().insert(x));
        assert forall|i: int, j: int|
            #![trigger t[i], t[j]]
            0 <= i < j < t.len() implies lex_le(t[i], t[j]) by {
            if i == 0 {
                assert(t[j] == u[j - 1]);
                assert(u.to_multiset().count(u[j - 1]) > 0);
                assert(u.to_multiset() == s.skip(1).to_multiset().insert(x));
                if u[j - 1] == x {
                    assert(lex_le(s[0], x));
                } else {
                    assert(s.skip(1).to_multiset().count(u[j - 1]) > 0);
                    assert(s.skip(1).contains(u[j - 1]));
                    let k = choose|k: int|
                        0 <= k < s.skip(1).len() && s.skip(1)[k] == u[j - 1];
                    assert(s.skip(1)[k] == s[k + 1]);
                    assert(lex_le(s[0], s[k + 1]));
                }
            } else {
                assert(t[i] == u[i - 1] && t[j] == u[j - 1]);
            }
        }
    }
}

/// Sorting sorts: the result is in ascending order and holds exactly
/// the given names.
pub proof fn lemma_sort_names_sorted(s: Seq<Seq<char>>)
    ensures
        sorted_names(sort_names(s)),
        sort_names(s).to_multiset() == s.to_multiset(),
        sort_names(s).len() == s.len(),
    decreases s.len(),
{
    broadcast use vstd::seq_lib::group_to_multiset_ensures;
    broadcast use vstd::multiset::group_multiset_axioms;

    if s.len() > 0 {
        lemma_sort_names_sorted(s.skip(1));
        lemma_insort_sorted(s[0], sort_names(s.skip(1)));
        assert(s =~= seq![s[0]] + s.skip(1));
        vstd::seq_lib::lemma_multiset_commutative(seq![s[0]], s.skip(1));
        assert(seq![s[0]] =~= Seq::<Seq<char>>::empty().push(s[0]));
        assert(seq![s[0]].to_multiset() =~= Multiset::<Seq<char>>::empty().insert(s[0]));
        assert(s.to_multiset() =~= s.skip(1).to_multiset().insert(s[0]));
        assert(sort_names(s).to_multiset() =~= s.to_multiset());
    }
}

/// The rendered listing: each name on a line of its own, indented by
/// two spaces.
pub open spec fn listing_lines(s: Seq<Seq<char>>) -> Seq<char>
    decreases s.len(),
{
    if s.len() == 0 {
        Seq::empty()
    } else {
        "  "@ + s[0] + "\n"@ + listing_lines(s.skip(1))
    }
}

/// Inserts `x` into the sorted list `v`, keeping it sorted.
fn insort_string(x: String, v: Vec<String>) -> (r: Vec<String>)
    ensures
        r.deep_view() == insort(x@, v.deep_view()),
    decreases v@.len(),
{
    let ghost vdv = v.deep_view();
    let mut v = v;
    if v.len() == 0 {
        let mut r: Vec<String> = Vec::new();
        r.push(x);
        proof {
            assert(r.deep_view() =~= insort(x@, vdv));
        }
        r
    } else if str_le(x.as_str(), v[0].as_str()) {
        proof {
            assert(vdv[0] == v@[0]@);
        }
        v.insert(0, x);
        proof {
            assert(v.deep_view() =~= seq![x@] + vdv);
        }
        v
    } else {
        proof {
            assert(vdv[0] == v@[0]@);
        }
        let h = v.remove(0);
        proof {
            assert(v.deep_view() =~= vdv.skip(1));
        }
        let mut rest = insort_string(x, v);
        let mut r: Vec<String> = Vec::new();
        r.push(h);
        r.append(&mut rest);
        proof {
            assert(r.deep_view() =~= seq![vdv[0]] + insort(x@, vdv.skip(1)));
        }
        r
    }
}

/// Appends each target's text to `out`, user template first, then
/// remote template; targets found in neither space are pushed onto
/// `missing` instead.
fn append_targets(
    data: &IgnoreData,
    targets: &Vec<String>,
    out: &mut String,
    missing: &mut Vec<String>,
)
    ensures
        final(out)@ == old(out)@ + targets_text(data.data@, targets.deep_view()),
        final(missing).deep_view() == old(missing).deep_view() + targets_missing(
            data.data@,
            targets.deep_view(),
        ),
{
    let ghost s = data.data@;
    let ghost ts = targets.deep_view();
    let n = targets.len();
    let mut j: usize = 0;
    proof {
        assert(ts.skip(0) =~= ts);
    }
    loop
        invariant
            j <= n,
            n == targets@.len(),
            ts == targets.deep_view(),
            s == data.data@,
            out@ + targets_text(s, ts.skip(j as int)) == old(out)@ + targets_text(s, ts),
            missing.deep_view() + targets_missing(s, ts.skip(j as int)) == old(
                missing,
            ).deep_view() + targets_missing(s, ts),
        decreases n - j,
    {
        if j >= n {
            proof {
                assert(out@ + targets_text(s, ts.skip(j as int)) =~= out@);
                assert(missing.deep_view() + targets_missing(s, ts.skip(j as int))
                    =~= missing.deep_view());
            }
            return ;
        }
        let ghost out0 = out@;
        let ghost mis0 = missing.deep_view();
        proof {
            assert(ts[j as int] == targets@[j as int]@);
            assert(ts.skip(j as int)[0] == ts[j as int]);
            assert(ts.skip(j as int).skip(1) =~= ts.skip(j as int + 1));
        }
        let t = &targets[j];
        if let Some(c) = data.get_user_template(t.as_str()) {
            out.append(c.as_str());
            proof {
                assert(target_text(s, ts[j as int]) == c@);
                assert(out@ + targets_text(s, ts.skip(j as int + 1)) =~= out0 + targets_text(
                    s,
                    ts.skip(j as int),
                ));
            }
        } else if let Some(c) = data.get_template(t.as_str()) {
            out.append(c.as_str());
            proof {
                assert(target_text(s, ts[j as int]) == c@);
                assert(out@ + targets_text(s, ts.skip(j as int + 1)) =~= out0 + targets_text(
                    s,
                    ts.skip(j as int),
                ));
            }
        } else {
            missing.push(t.clone());
            proof {
                assert(target_missing(s, ts[j as int]));
                assert(target_text(s, ts[j as int]) == Seq::<char>::empty());
                assert(out@ + targets_text(s, ts.skip(j as int + 1)) =~= out0 + targets_text(
                    s,
                    ts.skip(j as int),
                ));
                assert(missing.deep_view() =~= mis0 + seq![ts[j as int]]);
                assert(missing.deep_view() + targets_missing(s, ts.skip(j as int + 1)) =~= mis0
                    + targets_missing(s, ts.skip(j as int)));
            }
        }
        j = j + 1;
    }
}

/// The resolution engine with its fixed rule table and the address of
/// the remote template listing.
pub struct Core {
    pub server: String,
    pub detectors: Detectors,
}

impl Core {
    /// A fresh engine: the built-in detection rules and the remote
    /// listing address.
    pub fn new() -> (r: Core)
        ensures
            r.server@ == "https://www.gitignore.io/api/list?format=json"@,
            is_default_table(r.detectors.detectors@),
    {
        Core {
            server: String::from_str("https://www.gitignore.io/api/list?format=json"),
            detectors: Detectors::default(),
        }
    }

    /// Resolves the requested names, in request order, against the
    /// store. Returns the concatenated text — headed by the provenance
    /// line when anything at all resolved — and the alias targets that
    /// resolved nowhere, as diagnostics for the caller to report.
    pub fn get_templates(&self, data: &IgnoreData, names: &Vec<String>) -> (r: (String, Vec<
        String,
    >))
        ensures
            r.0@ == (if resolved_text(data.data@, names.deep_view()).len() == 0 {
                Seq::<char>::empty()
            } else {
                header() + resolved_text(data.data@, names.deep_view())
            }),
            r.1.deep_view() == resolved_missing(data.data@, names.deep_view()),
    {
        let ghost s = data.data@;
        let ghost nv = names.deep_view();
        let mut out = String::new();
        let mut missing: Vec<String> = Vec::new();
        let n = names.len();
        let mut i: usize = 0;
        proof {
            assert(nv.skip(0) =~= nv);
            assert(out@ + resolved_text(s, nv) =~= resolved_text(s, nv));
            assert(missing.deep_view() + resolved_missing(s, nv) =~= resolved_missing(s, nv));
        }
        while i < n
            invariant
                i <= n,
                n == names@.len(),
                nv == names.deep_view(),
                s == data.data@,
                out@ + resolved_text(s, nv.skip(i as int)) == resolved_text(s, nv),
                missing.deep_view() + resolved_missing(s, nv.skip(i as int)) == resolved_missing(
                    s,
                    nv,
                ),
            decreases n - i,
        {
            let ghost out0 = out@;
            let ghost mis0 = missing.deep_view();
            proof {
                assert(nv[i as int] == names@[i as int]@);
                assert(nv.skip(i as int)[0] == nv[i as int]);
                assert(nv.skip(i as int).skip(1) =~= nv.skip(i as int + 1));
            }
            let name = &names[i];
            if let Some(c) = data.get_user_template(name.as_str()) {
                out.append(c.as_str());
                proof {
                    assert(name_text(s, nv[i as int]) == c@);
                    assert(name_missing(s, nv[i as int]) =~= Seq::<Seq<char>>::empty());
                }
            } else if let Some(targets) = data.get_alias(name.as_str()) {
                append_targets(data, &targets, &mut out, &mut missing);
                proof {
                    assert(name_text(s, nv[i as int]) == targets_text(s, targets.deep_view()));
                    assert(name_missing(s, nv[i as int]) == targets_missing(
                        s,
                        targets.deep_view(),
                    ));
                }
            } else if let Some(c) = data.get_template(name.as_str()) {
                out.append(c.as_str());
                proof {
                    assert(name_text(s, nv[i as int]) == c@);
                    assert(name_missing(s, nv[i as int]) =~= Seq::<Seq<char>>::empty());
                }
            } else {
                proof {
                    assert(name_text(s, nv[i as int]) =~= Seq::<char>::empty());
                    assert(name_missing(s, nv[i as int]) =~= Seq::<Seq<char>>::empty());
                }
            }
            proof {
                assert(out@ + resolved_text(s, nv.skip(i as int + 1)) =~= out0 + resolved_text(
                    s,
                    nv.skip(i as int),
                ));
                assert(missing.deep_view() + resolved_missing(s, nv.skip(i as int + 1)) =~= mis0
                    + resolved_missing(s, nv.skip(i as int)));
            }
            i = i + 1;
        }
        proof {
            assert(out@ + resolved_text(s, nv.skip(i as int)) =~= out@);
            assert(missing.deep_view() + resolved_missing(s, nv.skip(i as int))
                =~= missing.deep_view());
        }
        if out.as_str().is_empty() {
            (out, missing)
        } else {
            let mut headed = String::from_str("\n\n### Created by https://www.gitignore.io");
            headed.append(out.as_str());
            (headed, missing)
        }
    }

    /// Resolves the requested names against remote templates alone, in
    /// request order, with the same provenance header rule.
    pub fn get_templates_simple(&self, data: &IgnoreData, names: &Vec<String>) -> (r: String)
        ensures
            r@ == (if simple_text(data.data@, names.deep_view()).len() == 0 {
                Seq::<char>::empty()
            } else {
                header() + simple_text(data.data@, names.deep_view())
            }),
    {
        let ghost s = data.data@;
        let ghost nv = names.deep_view();
        let mut out = String::new();
        let n = names.len();
        let mut i: usize = 0;
        proof {
            assert(nv.skip(0) =~= nv);
            assert(out@ + simple_text(s, nv) =~= simple_text(s, nv));
        }
        while i < n
            invariant
                i <= n,
                n == names@.len(),
                nv == names.deep_view(),
                s == data.data@,
                out@ + simple_text(s, nv.skip(i as int)) == simple_text(s, nv),
            decreases n - i,
        {
            let ghost out0 = out@;
            proof {
                assert(nv[i as int] == names@[i as int]@);
                assert(nv.skip(i as int)[0] == nv[i as int]);
                assert(nv.skip(i as int).skip(1) =~= nv.skip(i as int + 1));
            }
            let name = &names[i];
            if let Some(c) = data.get_template(name.as_str()) {
                out.append(c.as_str());
            }
            proof {
                assert(out@ + simple_text(s, nv.skip(i as int + 1)) =~= out0 + simple_text(
                    s,
                    nv.skip(i as int),
                ));
            }
            i = i + 1;
        }
        proof {
            assert(out@ + simple_text(s, nv.skip(i as int)) =~= out@);
        }
        if out.as_str().is_empty() {
            out
        } else {
            let mut headed = String::from_str("\n\n### Created by https://www.gitignore.io");
            headed.append(out.as_str());
            headed
        }
    }

    /// Renders the sorted listing of store names: all of them when
    /// `names` is empty, else those that contain a requested name as a
    /// substring, once per requested name that selects them.
    pub fn list(&self, data: &IgnoreData, names: &Vec<String>) -> (r: String)
        ensures
            r@ == listing_lines(sort_names(listed_names(data.data@, names.deep_view()))),
    {
        let ghost s = data.data@;
        let ghost nv = names.deep_view();
        proof {
            assert(nv.len() == names@.len());
        }
        let mut sel: Vec<String> = Vec::new();
        let dn = data.data.len();
        if names.len() == 0 {
            let mut i: usize = 0;
            proof {
                assert(s.skip(0) =~= s);
                assert(sel.deep_view() + all_names(s) =~= all_names(s));
            }
            while i < dn
                invariant
                    i <= dn,
                    dn == data.data@.len(),
                    s == data.data@,
                    sel.deep_view() + all_names(s.skip(i as int)) == all_names(s),
                decreases dn - i,
            {
                let ghost sel0 = sel.deep_view();
                proof {
                    assert(s.skip(i as int)[0] == s[i as int]);
                    assert(s.skip(i as int).skip(1) =~= s.skip(i as int + 1));
                }
                let k = self.entry_key_string(data, i);
                sel.push(k);
                proof {
                    assert(sel.deep_view() =~= sel0 + seq![s[i as int].spec_key()]);
                    assert(sel.deep_view() + all_names(s.skip(i as int + 1)) =~= sel0 + all_names(
                        s.skip(i as int),
                    ));
                }
                i = i + 1;
            }
            proof {
                assert(sel.deep_view() + all_names(s.skip(dn as int)) =~= sel.deep_view());
            }
        } else {
            let mut i: usize = 0;
            proof {
                assert(s.skip(0) =~= s);
                assert(sel.deep_view() + selected_names(s, nv) =~= selected_names(s, nv));
            }
            while i < dn
                invariant
                    i <= dn,
                    dn == data.data@.len(),
                    s == data.data@,
                    nv == names.deep_view(),
                    sel.deep_view() + selected_names(s.skip(i as int), nv) == selected_names(
                        s,
                        nv,
                    ),
                decreases dn - i,
            {
                let ghost outer0 = sel.deep_view();
                let ghost inner = s[i as int].spec_key();
                proof {
                    assert(s.skip(i as int)[0] == s[i as int]);
                    assert(s.skip(i as int).skip(1) =~= s.skip(i as int + 1));
                }
                let nn = names.len();
                let mut j: usize = 0;
                proof {
                    assert(nv.skip(0) =~= nv);
                }
                while j < nn
                    invariant
                        j <= nn,
                        nn == names@.len(),
                        i < dn,
                        dn == data.data@.len(),
                        s == data.data@,
                        nv == names.deep_view(),
                        inner == s[i as int].spec_key(),
                        sel.deep_view() + entry_selections(inner, nv.skip(j as int)) == outer0
                            + entry_selections(inner, nv),
                    decreases nn - j,
                {
                    let ghost sel0 = sel.deep_view();
                    proof {
                        assert(nv[j as int] == names@[j as int]@);
                        assert(nv.skip(j as int)[0] == nv[j as int]);
                        assert(nv.skip(j as int).skip(1) =~= nv.skip(j as int + 1));
                    }
                    let e = &data.data[i];
                    if str_contains(e.key(), names[j].as_str()) {
                        let k = self.entry_key_string(data, i);
                        sel.push(k);
                        proof {
                            assert(sel.deep_view() =~= sel0 + seq![inner]);
                            assert(sel.deep_view() + entry_selections(inner, nv.skip(j as int + 1))
                                =~= sel0 + entry_selections(inner, nv.skip(j as int)));
                        }
                    } else {
                        proof {
                            assert(sel.deep_view() + entry_selections(inner, nv.skip(j as int + 1))
                                =~= sel0 + entry_selections(inner, nv.skip(j as int)));
                        }
                    }
                    j = j + 1;
                }
                proof {
                    assert(sel.deep_view() + entry_selections(inner, nv.skip(nn as int)) =~= sel
                        .deep_view());
                    assert(sel.deep_view() =~= outer0 + entry_selections(inner, nv));
                    assert(sel.deep_view() + selected_names(s.skip(i as int + 1), nv) =~= outer0
                        + selected_names(s.skip(i as int), nv));
                }
                i = i + 1;
            }
            proof {
                assert(sel.deep_view() + selected_names(s.skip(dn as int), nv) =~= sel.deep_view());
            }
        }
        proof {
            assert(sel.deep_view() == listed_names(s, nv));
        }
        let ghost picked = sel.deep_view();
        let mut sorted: Vec<String> = Vec::new();
        let mut i: usize = sel.len();
        proof {
            assert(picked.skip(i as int) =~= Seq::<Seq<char>>::empty());
            assert(sorted.deep_view() =~= sort_names(picked.skip(i as int)));
        }
        while i > 0
            invariant
                i <= sel@.len(),
                picked == sel.deep_view(),
                sorted.deep_view() == sort_names(picked.skip(i as int)),
            decreases i,
        {
            i = i - 1;
            proof {
                assert(picked.skip(i as int)[0] == picked[i as int]);
                assert(picked.skip(i as int).skip(1) =~= picked.skip(i as int + 1));
                assert(picked[i as int] == sel@[i as int]@);
            }
            sorted = insort_string(sel[i].clone(), sorted);
        }
        proof {
            assert(picked.skip(0) =~= picked);
            assert(sorted.deep_view() == sort_names(picked));
        }
        let ghost lines = sorted.deep_view();
        let mut out = String::new();
        let sn = sorted.len();
        let mut k: usize = 0;
        proof {
            assert(lines.skip(0) =~= lines);
            assert(out@ + listing_lines(lines) =~= listing_lines(lines));
        }
        while k < sn
            invariant
                k <= sn,
                sn == sorted@.len(),
                lines == sorted.deep_view(),
                out@ + listing_lines(lines.skip(k as int)) == listing_lines(lines),
            decreases sn - k,
        {
            let ghost out0 = out@;
            proof {
                assert(lines.skip(k as int)[0] == lines[k as int]);
                assert(lines.skip(k as int).skip(1) =~= lines.skip(k as int + 1));
                assert(lines[k as int] == sorted@[k as int]@);
            }
            out.append("  ");
            out.append(sorted[k].as_str());
            out.append("\n");
            proof {
                assert(out@ + listing_lines(lines.skip(k as int + 1)) =~= out0 + listing_lines(
                    lines.skip(k as int),
                ));
            }
            k = k + 1;
        }
        proof {
            assert(out@ + listing_lines(lines.skip(k as int)) =~= out@);
        }
        out
    }

    /// The key of the store entry at `i`, as an owned string.
    fn entry_key_string(&self, data: &IgnoreData, i: usize) -> (r: String)
        requires
            i < data.data@.len(),
        ensures
            r@ == data.data@[i as int].spec_key(),
    {
        let e = &data.data[i];
        let k = e.key();
        k.to_owned()
    }

    /// Applies the detection rules to one scanned directory level and
    /// suggests template names, in rule-table order.
    pub fn autodetect_templates(&self, entries: &Vec<DirEntry>) -> (r: Vec<String>)
        ensures
            r.deep_view() == detected_names(self.detectors.detectors@, entries@),
    {
        self.detectors.detects(entries)
    }
}

} // verus!
