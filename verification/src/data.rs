//! The namespace store: three overlapping name spaces (remote templates,
//! user aliases, user templates) merged into one ordered collection with
//! per-variant key uniqueness and deterministic listing order.

use vstd::prelude::*;

use crate::strutil::{
    clone_strings, lemma_lex_le_total, lemma_lex_lt_transitive, lex_lt, seq_contains, str_contains,
    str_eq, str_le,
};

verus! {

/// One record of the remote cache listing. Only `key` and `contents`
/// matter to resolution; the display name and canonical file name are
/// opaque pass-through data.
pub struct Language {
    pub key: String,
    pub name: String,
    pub file_name: String,
    pub contents: String,
}

/// One entry of the combined namespace.
pub enum Type {
    /// A template sourced from the remote cache.
    Template { key: String, content: String },
    /// A user-defined name expanding to an ordered list of other names.
    Alias { key: String, aliases: Vec<String> },
    /// A template whose content the user supplies locally.
    UserTemplate { key: String, content: String },
}

impl Type {
    /// Precedence rank of the variant: remote templates sort first,
    /// user templates last. Higher rank shadows lower rank on lookup.
    pub open spec fn rank(self) -> int {
        match self {
            Type::Template { .. } => 0,
            Type::Alias { .. } => 1,
            Type::UserTemplate { .. } => 2,
        }
    }

    /// The name this entry binds.
    pub open spec fn spec_key(self) -> Seq<char> {
        match self {
            Type::Template { key, .. } => key@,
            Type::Alias { key, .. } => key@,
            Type::UserTemplate { key, .. } => key@,
        }
    }

    /// The text payload of a template entry; empty for an alias.
    pub open spec fn content_view(self) -> Seq<char> {
        match self {
            Type::Template { content, .. } => content@,
            Type::Alias { .. } => Seq::empty(),
            Type::UserTemplate { content, .. } => content@,
        }
    }

    /// The target list of an alias entry; empty for a template.
    pub open spec fn alias_view(self) -> Seq<Seq<char>> {
        match self {
            Type::Alias { aliases, .. } => aliases.deep_view(),
            _ => Seq::empty(),
        }
    }

    /// The name this entry binds, whatever its variant.
    pub fn key(&self) -> (r: &str)
        ensures
            r@ == self.spec_key(),
    {
        match self {
            Type::Template { key, .. } => key.as_str(),
            Type::Alias { key, .. } => key.as_str(),
            Type::UserTemplate { key, .. } => key.as_str(),
        }
    }
}

/// First entry of `s` with the given variant rank and key, if any.
pub open spec fn lookup(s: Seq<Type>, r: int, name: Seq<char>) -> Option<Type>
    decreases s.len(),
{
    if s.len() == 0 {
        None
    } else if s[0].rank() == r && s[0].spec_key() == name {
        Some(s[0])
    } else {
        lookup(s.skip(1), r, name)
    }
}

/// Content of the remote template bound to `name`, if any.
pub open spec fn lookup_remote(s: Seq<Type>, name: Seq<char>) -> Option<Seq<char>> {
    match lookup(s, 0, name) {
        Some(e) => Some(e.content_view()),
        None => None,
    }
}

/// Target list of the alias bound to `name`, if any.
pub open spec fn lookup_alias(s: Seq<Type>, name: Seq<char>) -> Option<Seq<Seq<char>>> {
    match lookup(s, 1, name) {
        Some(e) => Some(e.alias_view()),
        None => None,
    }
}

/// Content of the user template bound to `name`, if any.
pub open spec fn lookup_user(s: Seq<Type>, name: Seq<char>) -> Option<Seq<char>> {
    match lookup(s, 2, name) {
        Some(e) => Some(e.content_view()),
        None => None,
    }
}

/// Strict order on entries: variant rank first, then key,
/// lexicographically. Two distinct positions of a well-formed store are
/// always strictly ordered, which makes keys unique per variant.
pub open spec fn entry_lt(a: Type, b: Type) -> bool {
    ||| a.rank() < b.rank()
    ||| (a.rank() == b.rank() && lex_lt(a.spec_key(), b.spec_key()))
}

/// The display name of an entry, tagged with its variant.
pub enum TypeName {
    Template(String),
    Alias(String),
    UserTemplate(String),
}

impl TypeName {
    /// Variant rank, aligned with `Type::rank`.
    pub open spec fn rank(self) -> int {
        match self {
            TypeName::Template(_) => 0,
            TypeName::Alias(_) => 1,
            TypeName::UserTemplate(_) => 2,
        }
    }

    /// The bare name inside, whatever the variant.
    pub open spec fn spec_inner(self) -> Seq<char> {
        match self {
            TypeName::Template(name) => name@,
            TypeName::Alias(name) => name@,
            TypeName::UserTemplate(name) => name@,
        }
    }

    /// The bare name inside, whatever the variant.
    pub fn inner(&self) -> (r: &str)
        ensures
            r@ == self.spec_inner(),
    {
        match self {
            TypeName::Template(name) => name.as_str(),
            TypeName::Alias(name) => name.as_str(),
            TypeName::UserTemplate(name) => name.as_str(),
        }
    }

    /// Whether `name` occurs as a substring of this entry's name.
    pub fn contains(&self, name: &str) -> (r: bool)
        ensures
            r == seq_contains(self.spec_inner(), name@),
    {
        let inner = self.inner();
        str_contains(inner, name)
    }
}

/// Whether `n` names the entry `t`: same variant, same key.
pub open spec fn names_entry(t: Type, n: TypeName) -> bool {
    n.rank() == t.rank() && n.spec_inner() == t.spec_key()
}

/// The alias entries of `s`, in store order, as (key, targets) pairs.
pub open spec fn alias_entries(s: Seq<Type>) -> Seq<(Seq<char>, Seq<Seq<char>>)>
    decreases s.len(),
{
    if s.len() == 0 {
        Seq::empty()
    } else {
        match s[0] {
            Type::Alias { key, aliases } => seq![(key@, aliases.deep_view())] + alias_entries(
                s.skip(1),
            ),
            _ => alias_entries(s.skip(1)),
        }
    }
}

/// The user template entries of `s`, in store order, as (key, content)
/// pairs.
pub open spec fn user_entries(s: Seq<Type>) -> Seq<(Seq<char>, Seq<char>)>
    decreases s.len(),
{
    if s.len() == 0 {
        Seq::empty()
    } else {
        match s[0] {
            Type::UserTemplate { key, content } => seq![(key@, content@)] + user_entries(
                s.skip(1),
            ),
            _ => user_entries(s.skip(1)),
        }
    }
}

/// A store slice that belongs to one variant: every entry has rank `r`
/// and keys are strictly increasing.
pub open spec fn group_wf(s: Seq<Type>, r: int) -> bool {
    &&& forall|i: int| 0 <= i < s.len() ==> (#[trigger] s[i]).rank() == r
    &&& forall|i: int, j: int|
        #![trigger s[i], s[j]]
        0 <= i < j < s.len() ==> lex_lt(s[i].spec_key(), s[j].spec_key())
}

/// `lookup` distributes over concatenation: the left part is searched
/// first.
pub proof fn lemma_lookup_append(s1: Seq<Type>, s2: Seq<Type>, r: int, name: Seq<char>)
    ensures
        lookup(s1 + s2, r, name) == (match lookup(s1, r, name) {
            Some(e) => Some(e),
            None => lookup(s2, r, name),
        }),
    decreases s1.len(),
{
    if s1.len() == 0 {
        assert(s1 + s2 =~= s2);
    } else {
        assert((s1 + s2)[0] == s1[0]);
        assert((s1 + s2).skip(1) =~= s1.skip(1) + s2);
        lemma_lookup_append(s1.skip(1), s2, r, name);
    }
}

/// `lookup` misses when no entry has both the rank and the key.
pub proof fn lemma_lookup_none(s: Seq<Type>, r: int, name: Seq<char>)
    requires
        forall|i: int|
            0 <= i < s.len() ==> ((#[trigger] s[i]).rank() != r || s[i].spec_key() != name),
    ensures
        lookup(s, r, name) is None,
    decreases s.len(),
{
    if s.len() > 0 {
        assert forall|i: int|
            0 <= i < s.skip(1).len() implies ((#[trigger] s.skip(1)[i]).rank() != r || s.skip(
            1,
        )[i].spec_key() != name) by {
            assert(s.skip(1)[i] == s[i + 1]);
        }
        lemma_lookup_none(s.skip(1), r, name);
    }
}

/// A scanned prefix without the key can be skipped.
pub proof fn lemma_lookup_skip(s: Seq<Type>, r: int, name: Seq<char>, i: int)
    requires
        0 <= i <= s.len(),
        forall|j: int| 0 <= j < i ==> (#[trigger] s[j]).spec_key() != name,
    ensures
        lookup(s, r, name) == lookup(s.skip(i), r, name),
    decreases i,
{
    if i > 0 {
        assert forall|j: int| 0 <= j < i - 1 implies (#[trigger] s.skip(1)[j]).spec_key()
            != name by {
            assert(s.skip(1)[j] == s[j + 1]);
        }
        lemma_lookup_skip(s.skip(1), r, name, i - 1);
        assert(s.skip(1).skip(i - 1) =~= s.skip(i));
    } else {
        assert(s.skip(0) =~= s);
    }
}

/// Inserts `entry` into the sorted single-variant slice `v`, keeping it
/// sorted; when the key is already bound the store is left unchanged, so
/// the earlier binding wins.
fn insert_entry(v: &mut Vec<Type>, entry: Type)
    requires
        group_wf(old(v)@, entry.rank()),
    ensures
        group_wf(final(v)@, entry.rank()),
        forall|rr: int, n: Seq<char>|
            #[trigger] lookup(final(v)@, rr, n) == (if rr == entry.rank() && n == entry.spec_key()
                && lookup(old(v)@, rr, n) is None {
                Some(entry)
            } else {
                lookup(old(v)@, rr, n)
            }),
{
    let ghost s = old(v)@;
    let ghost r = entry.rank();
    let ghost ekey = entry.spec_key();
    let n = v.len();
    let mut i: usize = 0;
    while i < n
        invariant
            i <= n,
            n == v@.len(),
            v@ == s,
            s == old(v)@,
            r == entry.rank(),
            ekey == entry.spec_key(),
            group_wf(s, r),
            forall|j: int| 0 <= j < i ==> (#[trigger] s[j]).spec_key() != ekey,
        decreases n - i,
    {
        if str_eq(v[i].key(), entry.key()) {
            proof {
                lemma_lookup_skip(s, r, ekey, i as int);
                assert(s.skip(i as int)[0] == s[i as int]);
                assert(lookup(s, r, ekey) is Some);
            }
            return ;
        }
        i = i + 1;
    }
    proof {
        lemma_lookup_none(s, r, ekey);
    }
    // the key is new: find the sorted position and insert there
    let mut p: usize = 0;
    loop
        invariant
            p <= n,
            n == v@.len(),
            v@ == s,
            s == old(v)@,
            r == entry.rank(),
            ekey == entry.spec_key(),
            group_wf(s, r),
            forall|j: int| 0 <= j < s.len() ==> (#[trigger] s[j]).spec_key() != ekey,
            lookup(s, r, ekey) is None,
            forall|j: int| 0 <= j < p ==> lex_lt((#[trigger] s[j]).spec_key(), ekey),
        decreases n - p,
    {
        let here: bool;
        if p >= n {
            here = true;
        } else {
            here = str_le(entry.key(), v[p].key());
        }
        if here {
            proof {
                assert forall|j: int| p <= j < n implies lex_lt(
                    ekey,
                    (#[trigger] s[j]).spec_key(),
                ) by {
                    assert(lex_lt(ekey, s[p as int].spec_key()));
                    if j > p {
                        lemma_lex_lt_transitive(ekey, s[p as int].spec_key(), s[j].spec_key());
                    }
                }
            }
            v.insert(p, entry);
            proof {
                let t = v@;
                let a = s.take(p as int);
                let b = seq![entry] + s.skip(p as int);
                assert(t =~= a + b);
                assert forall|i2: int| 0 <= i2 < t.len() implies (#[trigger] t[i2]).rank()
                    == r by {
                    if i2 < p {
                        assert(t[i2] == s[i2]);
                    } else if i2 == p {
                        assert(t[i2] == entry);
                    } else {
                        assert(t[i2] == s[i2 - 1]);
                    }
                }
                assert forall|i2: int, j2: int|
                    #![trigger t[i2], t[j2]]
                    0 <= i2 < j2 < t.len() implies lex_lt(t[i2].spec_key(), t[j2].spec_key()) by {
                    if i2 < p {
                        assert(t[i2] == s[i2]);
                    } else if i2 == p {
                        assert(t[i2] == entry);
                    } else {
                        assert(t[i2] == s[i2 - 1]);
                    }
                    if j2 < p {
                        assert(t[j2] == s[j2]);
                    } else if j2 == p {
                        assert(t[j2] == entry);
                    } else {
                        assert(t[j2] == s[j2 - 1]);
                    }
                }
                assert(group_wf(t, r));
                assert forall|rr: int, n2: Seq<char>| #[trigger] lookup(t, rr, n2) == (if rr == r
                    && n2 == ekey && lookup(s, rr, n2) is None {
                    Some(entry)
                } else {
                    lookup(s, rr, n2)
                }) by {
                    lemma_lookup_append(a, b, rr, n2);
                    lemma_lookup_append(a, s.skip(p as int), rr, n2);
                    assert(s =~= a + s.skip(p as int));
                    assert(b[0] == entry);
                    assert(b.skip(1) =~= s.skip(p as int));
                    if rr == r && n2 == ekey {
                        assert forall|j: int|
                            0 <= j < a.len() implies ((#[trigger] a[j]).rank() != rr
                            || a[j].spec_key() != n2) by {
                            assert(a[j] == s[j]);
                        }
                        lemma_lookup_none(a, rr, n2);
                        assert(lookup(b, rr, n2) == Some(entry));
                    } else {
                        assert(lookup(b, rr, n2) == lookup(s.skip(p as int), rr, n2));
                    }
                }
            }
            return ;
        }
        proof {
            lemma_lex_le_total(ekey, s[p as int].spec_key());
        }
        p = p + 1;
    }
}

/// Content of the first cache record whose key is `n`, if any.
pub open spec fn first_lang(ls: Seq<Language>, n: Seq<char>) -> Option<Seq<char>>
    decreases ls.len(),
{
    if ls.len() == 0 {
        None
    } else if ls[0].key@ == n {
        Some(ls[0].contents@)
    } else {
        first_lang(ls.skip(1), n)
    }
}

/// Target list of the first alias pair whose name is `n`, if any.
pub open spec fn first_alias(ps: Seq<(String, Vec<String>)>, n: Seq<char>) -> Option<
    Seq<Seq<char>>,
>
    decreases ps.len(),
{
    if ps.len() == 0 {
        None
    } else if ps[0].0@ == n {
        Some(ps[0].1.deep_view())
    } else {
        first_alias(ps.skip(1), n)
    }
}

/// Content of the first user template pair whose name is `n`, if any.
pub open spec fn first_user(ps: Seq<(String, String)>, n: Seq<char>) -> Option<Seq<char>>
    decreases ps.len(),
{
    if ps.len() == 0 {
        None
    } else if ps[0].0@ == n {
        Some(ps[0].1@)
    } else {
        first_user(ps.skip(1), n)
    }
}

/// Scanning one more cache record extends a first-match scan on the
/// right.
pub proof fn lemma_first_lang_snoc(ls: Seq<Language>, l: Language, n: Seq<char>)
    ensures
        first_lang(ls + seq![l], n) == (match first_lang(ls, n) {
            Some(c) => Some(c),
            None => if l.key@ == n {
                Some(l.contents@)
            } else {
                None
            },
        }),
    decreases ls.len(),
{
    if ls.len() == 0 {
        assert(ls + seq![l] =~= seq![l]);
        assert(seq![l].skip(1) =~= Seq::<Language>::empty());
        assert(first_lang(Seq::<Language>::empty(), n) is None);
        assert(first_lang(seq![l], n) == (if l.key@ == n {
            Some(l.contents@)
        } else {
            None
        }));
    } else {
        assert((ls + seq![l])[0] == ls[0]);
        assert((ls + seq![l]).skip(1) =~= ls.skip(1) + seq![l]);
        lemma_first_lang_snoc(ls.skip(1), l, n);
    }
}

/// Scanning one more alias pair extends a first-match scan on the right.
pub proof fn lemma_first_alias_snoc(ps: Seq<(String, Vec<String>)>, p: (String, Vec<String>), n: Seq<char>)
    ensures
        first_alias(ps + seq![p], n) == (match first_alias(ps, n) {
            Some(c) => Some(c),
            None => if p.0@ == n {
                Some(p.1.deep_view())
            } else {
                None
            },
        }),
    decreases ps.len(),
{
    if ps.len() == 0 {
        assert(ps + seq![p] =~= seq![p]);
        assert(seq![p].skip(1) =~= Seq::<(String, Vec<String>)>::empty());
        assert(first_alias(Seq::<(String, Vec<String>)>::empty(), n) is None);
        assert(first_alias(seq![p], n) == (if p.0@ == n {
            Some(p.1.deep_view())
        } else {
            None
        }));
    } else {
        assert((ps + seq![p])[0] == ps[0]);
        assert((ps + seq![p]).skip(1) =~= ps.skip(1) + seq![p]);
        lemma_first_alias_snoc(ps.skip(1), p, n);
    }
}

/// Scanning one more template pair extends a first-match scan on the
/// right.
pub proof fn lemma_first_user_snoc(ps: Seq<(String, String)>, p: (String, String), n: Seq<char>)
    ensures
        first_user(ps + seq![p], n) == (match first_user(ps, n) {
            Some(c) => Some(c),
            None => if p.0@ == n {
                Some(p.1@)
            } else {
                None
            },
        }),
    decreases ps.len(),
{
    if ps.len() == 0 {
        assert(ps + seq![p] =~= seq![p]);
        assert(seq![p].skip(1) =~= Seq::<(String, String)>::empty());
        assert(first_user(Seq::<(String, String)>::empty(), n) is None);
        assert(first_user(seq![p], n) == (if p.0@ == n {
            Some(p.1@)
        } else {
            None
        }));
    } else {
        assert((ps + seq![p])[0] == ps[0]);
        assert((ps + seq![p]).skip(1) =~= ps.skip(1) + seq![p]);
        lemma_first_user_snoc(ps.skip(1), p, n);
    }
}

/// The combined namespace, rebuilt fresh on every invocation from its
/// two backing sources.
pub struct IgnoreData {
    pub data: Vec<Type>,
}

impl IgnoreData {
    /// Well-formedness: entries strictly ordered by (variant rank, key),
    /// so listing order is deterministic and keys are unique per variant.
    pub open spec fn wf(self) -> bool {
        forall|i: int, j: int|
            0 <= i < j < self.data@.len() ==> entry_lt(
                #[trigger] self.data@[i],
                #[trigger] self.data@[j],
            )
    }

    /// Builds the store from its parsed backing sources: the remote
    /// cache records, the user's alias pairs, and the user's template
    /// pairs (name and file content). Within each namespace the first
    /// occurrence of a key wins; the entries come out sorted by variant
    /// rank, then key.
    pub fn new(
        templates: Vec<Language>,
        aliases: Vec<(String, Vec<String>)>,
        user_templates: Vec<(String, String)>,
    ) -> (r: IgnoreData)
        ensures
            r.wf(),
            forall|n: Seq<char>| #[trigger] lookup_remote(r.data@, n) == first_lang(templates@, n),
            forall|n: Seq<char>| #[trigger] lookup_alias(r.data@, n) == first_alias(aliases@, n),
            forall|n: Seq<char>|
                #[trigger] lookup_user(r.data@, n) == first_user(user_templates@, n),
    {
        let mut remotes: Vec<Type> = Vec::new();
        let mut i: usize = 0;
        proof {
            assert(templates@.take(0) =~= Seq::<Language>::empty());
        }
        while i < templates.len()
            invariant
                i <= templates@.len(),
                group_wf(remotes@, 0),
                forall|n2: Seq<char>|
                    #[trigger] lookup_remote(remotes@, n2) == first_lang(
                        templates@.take(i as int),
                        n2,
                    ),
            decreases templates@.len() - i,
        {
            let t = &templates[i];
            let entry = Type::Template { key: t.key.clone(), content: t.contents.clone() };
            let ghost before = remotes@;
            insert_entry(&mut remotes, entry);
            proof {
                assert(templates@.take(i as int + 1) =~= templates@.take(i as int) + seq![
                    templates@[i as int],
                ]);
                assert forall|n2: Seq<char>| #[trigger] lookup_remote(remotes@, n2) == first_lang(
                    templates@.take(i as int + 1),
                    n2,
                ) by {
                    assert(lookup_remote(before, n2) == first_lang(templates@.take(i as int), n2));
                    assert(lookup(remotes@, 0, n2) == (if 0 == entry.rank() && n2
                        == entry.spec_key() && lookup(before, 0, n2) is None {
                        Some(entry)
                    } else {
                        lookup(before, 0, n2)
                    }));
                    lemma_first_lang_snoc(templates@.take(i as int), templates@[i as int], n2);
                }
            }
            i = i + 1;
        }
        proof {
            assert(templates@.take(templates@.len() as int) =~= templates@);
        }
        let mut alias_group: Vec<Type> = Vec::new();
        let mut i: usize = 0;
        proof {
            assert(aliases@.take(0) =~= Seq::<(String, Vec<String>)>::empty());
        }
        while i < aliases.len()
            invariant
                i <= aliases@.len(),
                group_wf(alias_group@, 1),
                forall|n2: Seq<char>|
                    #[trigger] lookup_alias(alias_group@, n2) == first_alias(
                        aliases@.take(i as int),
                        n2,
                    ),
            decreases aliases@.len() - i,
        {
            let pr = &aliases[i];
            let entry = Type::Alias { key: pr.0.clone(), aliases: clone_strings(&pr.1) };
            let ghost before = alias_group@;
            insert_entry(&mut alias_group, entry);
            proof {
                assert(aliases@.take(i as int + 1) =~= aliases@.take(i as int) + seq![
                    aliases@[i as int],
                ]);
                assert forall|n2: Seq<char>| #[trigger] lookup_alias(alias_group@, n2)
                    == first_alias(aliases@.take(i as int + 1), n2) by {
                    assert(lookup_alias(before, n2) == first_alias(aliases@.take(i as int), n2));
                    assert(lookup(alias_group@, 1, n2) == (if 1 == entry.rank() && n2
                        == entry.spec_key() && lookup(before, 1, n2) is None {
                        Some(entry)
                    } else {
                        lookup(before, 1, n2)
                    }));
                    lemma_first_alias_snoc(aliases@.take(i as int), aliases@[i as int], n2);
                }
            }
            i = i + 1;
        }
        proof {
            assert(aliases@.take(aliases@.len() as int) =~= aliases@);
        }
        let mut user_group: Vec<Type> = Vec::new();
        let mut i: usize = 0;
        proof {
            assert(user_templates@.take(0) =~= Seq::<(String, String)>::empty());
        }
        while i < user_templates.len()
            invariant
                i <= user_templates@.len(),
                group_wf(user_group@, 2),
                forall|n2: Seq<char>|
                    #[trigger] lookup_user(user_group@, n2) == first_user(
                        user_templates@.take(i as int),
                        n2,
                    ),
            decreases user_templates@.len() - i,
        {
            let pr = &user_templates[i];
            let entry = Type::UserTemplate { key: pr.0.clone(), content: pr.1.clone() };
            let ghost before = user_group@;
            insert_entry(&mut user_group, entry);
            proof {
                assert(user_templates@.take(i as int + 1) =~= user_templates@.take(i as int)
                    + seq![user_templates@[i as int]]);
                assert forall|n2: Seq<char>| #[trigger] lookup_user(user_group@, n2) == first_user(
                    user_templates@.take(i as int + 1),
                    n2,
                ) by {
                    assert(lookup_user(before, n2) == first_user(
                        user_templates@.take(i as int),
                        n2,
                    ));
                    assert(lookup(user_group@, 2, n2) == (if 2 == entry.rank() && n2
                        == entry.spec_key() && lookup(before, 2, n2) is None {
                        Some(entry)
                    } else {
                        lookup(before, 2, n2)
                    }));
                    lemma_first_user_snoc(
                        user_templates@.take(i as int),
                        user_templates@[i as int],
                        n2,
                    );
                }
            }
            i = i + 1;
        }
        proof {
            assert(user_templates@.take(user_templates@.len() as int) =~= user_templates@);
        }
        let ghost g0 = remotes@;
        let ghost g1 = alias_group@;
        let ghost g2 = user_group@;
        let mut data = remotes;
        data.append(&mut alias_group);
        data.append(&mut user_group);
        proof {
            let t = data@;
            assert(t =~= g0 + g1 + g2);
            let l0 = g0.len() as int;
            let l1 = g1.len() as int;
            let l2 = g2.len() as int;
            assert forall|i2: int, j2: int|
                #![trigger t[i2], t[j2]]
                0 <= i2 < j2 < t.len() implies entry_lt(t[i2], t[j2]) by {
                if i2 < l0 {
                    assert(t[i2] == g0[i2]);
                } else if i2 < l0 + l1 {
                    assert(t[i2] == g1[i2 - l0]);
                } else {
                    assert(t[i2] == g2[i2 - l0 - l1]);
                }
                if j2 < l0 {
                    assert(t[j2] == g0[j2]);
                } else if j2 < l0 + l1 {
                    assert(t[j2] == g1[j2 - l0]);
                } else {
                    assert(t[j2] == g2[j2 - l0 - l1]);
                }
            }
            assert forall|rr: int, n2: Seq<char>| 0 <= rr <= 2 implies #[trigger] lookup(t, rr, n2)
                == (if rr == 0 {
                lookup(g0, rr, n2)
            } else if rr == 1 {
                lookup(g1, rr, n2)
            } else {
                lookup(g2, rr, n2)
            }) by {
                assert(t =~= g0 + (g1 + g2));
                lemma_lookup_append(g0, g1 + g2, rr, n2);
                lemma_lookup_append(g1, g2, rr, n2);
                if rr != 0 {
                    lemma_lookup_none(g0, rr, n2);
                }
                if rr != 1 {
                    lemma_lookup_none(g1, rr, n2);
                }
                if rr != 2 {
                    lemma_lookup_none(g2, rr, n2);
                }
            }
            assert forall|n2: Seq<char>| #[trigger] lookup_remote(t, n2) == first_lang(
                templates@,
                n2,
            ) by {
                assert(lookup_remote(g0, n2) == first_lang(
                    templates@.take(templates@.len() as int),
                    n2,
                ));
                assert(lookup(t, 0, n2) == lookup(g0, 0, n2));
            }
            assert forall|n2: Seq<char>| #[trigger] lookup_alias(t, n2) == first_alias(
                aliases@,
                n2,
            ) by {
                assert(lookup_alias(g1, n2) == first_alias(
                    aliases@.take(aliases@.len() as int),
                    n2,
                ));
                assert(lookup(t, 1, n2) == lookup(g1, 1, n2));
            }
            assert forall|n2: Seq<char>| #[trigger] lookup_user(t, n2) == first_user(
                user_templates@,
                n2,
            ) by {
                assert(lookup_user(g2, n2) == first_user(
                    user_templates@.take(user_templates@.len() as int),
                    n2,
                ));
                assert(lookup(t, 2, n2) == lookup(g2, 2, n2));
            }
        }
        IgnoreData { data }
    }

    /// The names of all entries, in store order.
    pub fn keys(&self) -> (r: Vec<TypeName>)
        ensures
            r@.len() == self.data@.len(),
            forall|i: int| 0 <= i < r@.len() ==> names_entry(self.data@[i], #[trigger] r@[i]),
    {
        let mut r: Vec<TypeName> = Vec::new();
        let mut i: usize = 0;
        while i < self.data.len()
            invariant
                i <= self.data@.len(),
                r@.len() == i,
                forall|j: int| 0 <= j < i ==> names_entry(self.data@[j], #[trigger] r@[j]),
            decreases self.data@.len() - i,
        {
            let n = match &self.data[i] {
                Type::Template { key, .. } => TypeName::Template(key.clone()),
                Type::Alias { key, .. } => TypeName::Alias(key.clone()),
                Type::UserTemplate { key, .. } => TypeName::UserTemplate(key.clone()),
            };
            r.push(n);
            i = i + 1;
        }
        r
    }

    /// Content of the remote template bound to `name`, if any.
    pub fn get_template(&self, name: &str) -> (r: Option<String>)
        ensures
            r matches Some(c) ==> lookup_remote(self.data@, name@) == Some(c@),
            r is None ==> lookup_remote(self.data@, name@) is None,
    {
        let n = self.data.len();
        let mut i: usize = 0;
        proof {
            assert(self.data@.skip(0) =~= self.data@);
        }
        loop
            invariant
                i <= n,
                n == self.data@.len(),
                lookup(self.data@, 0, name@) == lookup(self.data@.skip(i as int), 0, name@),
            decreases n - i,
        {
            if i >= n {
                return None;
            }
            proof {
                assert(self.data@.skip(i as int)[0] == self.data@[i as int]);
                assert(self.data@.skip(i as int).skip(1) =~= self.data@.skip(i as int + 1));
            }
            match &self.data[i] {
                Type::Template { key, content } => {
                    if str_eq(key.as_str(), name) {
                        return Some(content.clone());
                    }
                },
                _ => {},
            }
            i = i + 1;
        }
    }

    /// Target list of the alias bound to `name`, if any.
    pub fn get_alias(&self, name: &str) -> (r: Option<Vec<String>>)
        ensures
            r matches Some(ts) ==> lookup_alias(self.data@, name@) == Some(ts.deep_view()),
            r is None ==> lookup_alias(self.data@, name@) is None,
    {
        let n = self.data.len();
        let mut i: usize = 0;
        proof {
            assert(self.data@.skip(0) =~= self.data@);
        }
        loop
            invariant
                i <= n,
                n == self.data@.len(),
                lookup(self.data@, 1, name@) == lookup(self.data@.skip(i as int), 1, name@),
            decreases n - i,
        {
            if i >= n {
                return None;
            }
            proof {
                assert(self.data@.skip(i as int)[0] == self.data@[i as int]);
                assert(self.data@.skip(i as int).skip(1) =~= self.data@.skip(i as int + 1));
            }
            match &self.data[i] {
                Type::Alias { key, aliases } => {
                    if str_eq(key.as_str(), name) {
                        return Some(clone_strings(aliases));
                    }
                },
                _ => {},
            }
            i = i + 1;
        }
    }

    /// Content of the user template bound to `name`, if any.
    pub fn get_user_template(&self, name: &str) -> (r: Option<String>)
        ensures
            r matches Some(c) ==> lookup_user(self.data@, name@) == Some(c@),
            r is None ==> lookup_user(self.data@, name@) is None,
    {
        let n = self.data.len();
        let mut i: usize = 0;
        proof {
            assert(self.data@.skip(0) =~= self.data@);
        }
        loop
            invariant
                i <= n,
                n == self.data@.len(),
                lookup(self.data@, 2, name@) == lookup(self.data@.skip(i as int), 2, name@),
            decreases n - i,
        {
            if i >= n {
                return None;
            }
            proof {
                assert(self.data@.skip(i as int)[0] == self.data@[i as int]);
                assert(self.data@.skip(i as int).skip(1) =~= self.data@.skip(i as int + 1));
            }
            match &self.data[i] {
                Type::UserTemplate { key, content } => {
                    if str_eq(key.as_str(), name) {
                        return Some(content.clone());
                    }
                },
                _ => {},
            }
            i = i + 1;
        }
    }

    /// All alias entries, in store order, as (name, targets) pairs.
    pub fn list_aliases(&self) -> (r: Vec<(String, Vec<String>)>)
        ensures
            r.deep_view() == alias_entries(self.data@),
    {
        let n = self.data.len();
        let mut r: Vec<(String, Vec<String>)> = Vec::new();
        let mut i: usize = 0;
        proof {
            assert(self.data@.skip(0) =~= self.data@);
            assert(r.deep_view() =~= Seq::<(Seq<char>, Seq<Seq<char>>)>::empty());
        }
        loop
            invariant
                i <= n,
                n == self.data@.len(),
                alias_entries(self.data@) == r.deep_view() + alias_entries(
                    self.data@.skip(i as int),
                ),
            decreases n - i,
        {
            if i >= n {
                proof {
                    assert(alias_entries(self.data@) =~= r.deep_view() + alias_entries(
                        self.data@.skip(i as int),
                    ));
                    assert(alias_entries(self.data@) =~= r.deep_view());
                }
                return r;
            }
            proof {
                assert(self.data@.skip(i as int)[0] == self.data@[i as int]);
                assert(self.data@.skip(i as int).skip(1) =~= self.data@.skip(i as int + 1));
            }
            match &self.data[i] {
                Type::Alias { key, aliases } => {
                    let ghost before = r.deep_view();
                    r.push((key.clone(), clone_strings(aliases)));
                    proof {
                        assert(r.deep_view() =~= before + seq![
                            (key@, aliases.deep_view()),
                        ]);
                    }
                },
                _ => {},
            }
            i = i + 1;
        }
    }

    /// All user template entries, in store order, as (name, content)
    /// pairs.
    pub fn list_templates(&self) -> (r: Vec<(String, String)>)
        ensures
            r.deep_view() == user_entries(self.data@),
    {
        let n = self.data.len();
        let mut r: Vec<(String, String)> = Vec::new();
        let mut i: usize = 0;
        proof {
            assert(self.data@.skip(0) =~= self.data@);
            assert(r.deep_view() =~= Seq::<(Seq<char>, Seq<char>)>::empty());
        }
        loop
            invariant
                i <= n,
                n == self.data@.len(),
                user_entries(self.data@) == r.deep_view() + user_entries(
                    self.data@.skip(i as int),
                ),
            decreases n - i,
        {
            if i >= n {
                proof {
                    assert(user_entries(self.data@) =~= r.deep_view() + user_entries(
                        self.data@.skip(i as int),
                    ));
                    assert(user_entries(self.data@) =~= r.deep_view());
                }
                return r;
            }
            proof {
                assert(self.data@.skip(i as int)[0] == self.data@[i as int]);
                assert(self.data@.skip(i as int).skip(1) =~= self.data@.skip(i as int + 1));
            }
            match &self.data[i] {
                Type::UserTemplate { key, content } => {
                    let ghost before = r.deep_view();
                    r.push((key.clone(), content.clone()));
                    proof {
                        assert(r.deep_view() =~= before + seq![(key@, content@)]);
                    }
                },
                _ => {},
            }
            i = i + 1;
        }
    }
}

} // verus!
