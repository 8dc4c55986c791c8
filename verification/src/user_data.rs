//! The user's configuration: an alias map (name to an ordered list of
//! target names) and a user-template map (name to a file reference),
//! kept as association lists with unique keys. Reading and writing the
//! backing file is the caller's business; this module owns the maps'
//! semantics.

use vstd::prelude::*;

use crate::data::{first_alias, first_user};
use crate::strutil::{clone_strings, str_eq};

verus! {

/// Keys pairwise distinct in an alias list.
pub open spec fn unique_alias_keys(ps: Seq<(String, Vec<String>)>) -> bool {
    forall|i: int, j: int|
        #![trigger ps[i], ps[j]]
        0 <= i < j < ps.len() ==> ps[i].0@ != ps[j].0@
}

/// Keys pairwise distinct in a template list.
pub open spec fn unique_template_keys(ps: Seq<(String, String)>) -> bool {
    forall|i: int, j: int|
        #![trigger ps[i], ps[j]]
        0 <= i < j < ps.len() ==> ps[i].0@ != ps[j].0@
}

/// `first_alias` distributes over concatenation, left part first.
pub proof fn lemma_first_alias_append(
    ps1: Seq<(String, Vec<String>)>,
    ps2: Seq<(String, Vec<String>)>,
    n: Seq<char>,
)
    ensures
        first_alias(ps1 + ps2, n) == (match first_alias(ps1, n) {
            Some(v) => Some(v),
            None => first_alias(ps2, n),
        }),
    decreases ps1.len(),
{
    if ps1.len() == 0 {
        assert(ps1 + ps2 =~= ps2);
    } else {
        assert((ps1 + ps2)[0] == ps1[0]);
        assert((ps1 + ps2).skip(1) =~= ps1.skip(1) + ps2);
        lemma_first_alias_append(ps1.skip(1), ps2, n);
    }
}

/// `first_user` distributes over concatenation, left part first.
pub proof fn lemma_first_user_append(
    ps1: Seq<(String, String)>,
    ps2: Seq<(String, String)>,
    n: Seq<char>,
)
    ensures
        first_user(ps1 + ps2, n) == (match first_user(ps1, n) {
            Some(v) => Some(v),
            None => first_user(ps2, n),
        }),
    decreases ps1.len(),
{
    if ps1.len() == 0 {
        assert(ps1 + ps2 =~= ps2);
    } else {
        assert((ps1 + ps2)[0] == ps1[0]);
        assert((ps1 + ps2).skip(1) =~= ps1.skip(1) + ps2);
        lemma_first_user_append(ps1.skip(1), ps2, n);
    }
}

/// A hit names a pair of the list; a miss means no pair carries the
/// key.
pub proof fn lemma_first_alias_witness(ps: Seq<(String, Vec<String>)>, n: Seq<char>)
    ensures
        match first_alias(ps, n) {
            Some(v) => exists|i: int|
                0 <= i < ps.len() && (#[trigger] ps[i]).0@ == n && ps[i].1.deep_view() == v,
            None => forall|i: int| 0 <= i < ps.len() ==> (#[trigger] ps[i]).0@ != n,
        },
    decreases ps.len(),
{
    if ps.len() > 0 {
        lemma_first_alias_witness(ps.skip(1), n);
        if ps[0].0@ == n {
        } else {
            match first_alias(ps.skip(1), n) {
                Some(v) => {
                    let i0 = choose|i: int|
                        0 <= i < ps.skip(1).len() && (#[trigger] ps.skip(1)[i]).0@ == n && ps.skip(
                            1,
                        )[i].1.deep_view() == v;
                    assert(ps.skip(1)[i0] == ps[i0 + 1]);
                    assert((ps[i0 + 1]).0@ == n && ps[i0 + 1].1.deep_view() == v);
                },
                None => {
                    assert forall|i: int| 0 <= i < ps.len() implies (#[trigger] ps[i]).0@ != n by {
                        if i > 0 {
                            assert(ps.skip(1)[i - 1] == ps[i]);
                        }
                    }
                },
            }
        }
    }
}

/// A hit names a pair of the list; a miss means no pair carries the
/// key.
pub proof fn lemma_first_user_witness(ps: Seq<(String, String)>, n: Seq<char>)
    ensures
        match first_user(ps, n) {
            Some(v) => exists|i: int|
                0 <= i < ps.len() && (#[trigger] ps[i]).0@ == n && ps[i].1@ == v,
            None => forall|i: int| 0 <= i < ps.len() ==> (#[trigger] ps[i]).0@ != n,
        },
    decreases ps.len(),
{
    if ps.len() > 0 {
        lemma_first_user_witness(ps.skip(1), n);
        if ps[0].0@ == n {
        } else {
            match first_user(ps.skip(1), n) {
                Some(v) => {
                    let i0 = choose|i: int|
                        0 <= i < ps.skip(1).len() && (#[trigger] ps.skip(1)[i]).0@ == n && ps.skip(
                            1,
                        )[i].1@ == v;
                    assert(ps.skip(1)[i0] == ps[i0 + 1]);
                    assert((ps[i0 + 1]).0@ == n && ps[i0 + 1].1@ == v);
                },
                None => {
                    assert forall|i: int| 0 <= i < ps.len() implies (#[trigger] ps[i]).0@ != n by {
                        if i > 0 {
                            assert(ps.skip(1)[i - 1] == ps[i]);
                        }
                    }
                },
            }
        }
    }
}

/// Under unique keys, any pair carrying the key is the one the scan
/// finds.
pub proof fn lemma_first_alias_unique(ps: Seq<(String, Vec<String>)>, n: Seq<char>, i: int)
    requires
        unique_alias_keys(ps),
        0 <= i < ps.len(),
        ps[i].0@ == n,
    ensures
        first_alias(ps, n) == Some(ps[i].1.deep_view()),
    decreases ps.len(),
{
    if i == 0 {
    } else {
        assert(ps[0].0@ != n);
        assert forall|a: int, b: int|
            #![trigger ps.skip(1)[a], ps.skip(1)[b]]
            0 <= a < b < ps.skip(1).len() implies ps.skip(1)[a].0@ != ps.skip(1)[b].0@ by {
            assert(ps.skip(1)[a] == ps[a + 1]);
            assert(ps.skip(1)[b] == ps[b + 1]);
        }
        assert(ps.skip(1)[i - 1] == ps[i]);
        lemma_first_alias_unique(ps.skip(1), n, i - 1);
    }
}

/// Under unique keys, any pair carrying the key is the one the scan
/// finds.
pub proof fn lemma_first_user_unique(ps: Seq<(String, String)>, n: Seq<char>, i: int)
    requires
        unique_template_keys(ps),
        0 <= i < ps.len(),
        ps[i].0@ == n,
    ensures
        first_user(ps, n) == Some(ps[i].1@),
    decreases ps.len(),
{
    if i == 0 {
    } else {
        assert(ps[0].0@ != n);
        assert forall|a: int, b: int|
            #![trigger ps.skip(1)[a], ps.skip(1)[b]]
            0 <= a < b < ps.skip(1).len() implies ps.skip(1)[a].0@ != ps.skip(1)[b].0@ by {
            assert(ps.skip(1)[a] == ps[a + 1]);
            assert(ps.skip(1)[b] == ps[b + 1]);
        }
        assert(ps.skip(1)[i - 1] == ps[i]);
        lemma_first_user_unique(ps.skip(1), n, i - 1);
    }
}

/// The user's two maps, as loaded from the user source or built up by
/// the configuration commands.
pub struct UserData {
    /// Alias name to its ordered list of target names.
    pub aliases: Vec<(String, Vec<String>)>,
    /// Template name to the file reference holding its content.
    pub templates: Vec<(String, String)>,
}

/// Index of the first pair bound to `name`, if any.
fn find_alias(v: &Vec<(String, Vec<String>)>, name: &str) -> (r: Option<usize>)
    ensures
        r matches Some(k) ==> k < v@.len() && v@[k as int].0@ == name@ && (forall|j: int|
            0 <= j < k ==> (#[trigger] v@[j]).0@ != name@),
        r is None ==> forall|j: int| 0 <= j < v@.len() ==> (#[trigger] v@[j]).0@ != name@,
{
    let n = v.len();
    let mut i: usize = 0;
    while i < n
        invariant
            i <= n,
            n == v@.len(),
            forall|j: int| 0 <= j < i ==> (#[trigger] v@[j]).0@ != name@,
        decreases n - i,
    {
        if str_eq(v[i].0.as_str(), name) {
            return Some(i);
        }
        i = i + 1;
    }
    None
}

/// Index of the first pair bound to `name`, if any.
fn find_template(v: &Vec<(String, String)>, name: &str) -> (r: Option<usize>)
    ensures
        r matches Some(k) ==> k < v@.len() && v@[k as int].0@ == name@ && (forall|j: int|
            0 <= j < k ==> (#[trigger] v@[j]).0@ != name@),
        r is None ==> forall|j: int| 0 <= j < v@.len() ==> (#[trigger] v@[j]).0@ != name@,
{
    let n = v.len();
    let mut i: usize = 0;
    while i < n
        invariant
            i <= n,
            n == v@.len(),
            forall|j: int| 0 <= j < i ==> (#[trigger] v@[j]).0@ != name@,
        decreases n - i,
    {
        if str_eq(v[i].0.as_str(), name) {
            return Some(i);
        }
        i = i + 1;
    }
    None
}

/// Removes the binding of `name`, if there is one.
fn remove_alias_binding(v: &mut Vec<(String, Vec<String>)>, name: &str) -> (r: bool)
    requires
        unique_alias_keys(old(v)@),
    ensures
        unique_alias_keys(final(v)@),
        r == (first_alias(old(v)@, name@) is Some),
        forall|n: Seq<char>|
            #[trigger] first_alias(final(v)@, n) == (if n == name@ {
                None::<Seq<Seq<char>>>
            } else {
                first_alias(old(v)@, n)
            }),
        !r ==> final(v)@ == old(v)@,
        r ==> final(v)@.len() == old(v)@.len() - 1,
{
    let ghost s = old(v)@;
    match find_alias(v, name) {
        Some(k) => {
            v.remove(k);
            proof {
                let t = v@;
                assert(t =~= s.take(k as int) + s.skip(k as int + 1));
                lemma_first_alias_unique(s, name@, k as int);
                assert forall|a: int, b: int|
                    #![trigger t[a], t[b]]
                    0 <= a < b < t.len() implies t[a].0@ != t[b].0@ by {
                    if a < k {
                        assert(t[a] == s[a]);
                    } else {
                        assert(t[a] == s[a + 1]);
                    }
                    if b < k {
                        assert(t[b] == s[b]);
                    } else {
                        assert(t[b] == s[b + 1]);
                    }
                }
                assert forall|n: Seq<char>| #[trigger] first_alias(t, n) == (if n == name@ {
                    None::<Seq<Seq<char>>>
                } else {
                    first_alias(s, n)
                }) by {
                    lemma_first_alias_append(s.take(k as int), s.skip(k as int + 1), n);
                    lemma_first_alias_append(
                        s.take(k as int),
                        seq![s[k as int]] + s.skip(k as int + 1),
                        n,
                    );
                    assert(s =~= s.take(k as int) + (seq![s[k as int]] + s.skip(k as int + 1)));
                    assert((seq![s[k as int]] + s.skip(k as int + 1))[0] == s[k as int]);
                    assert((seq![s[k as int]] + s.skip(k as int + 1)).skip(1) =~= s.skip(
                        k as int + 1,
                    ));
                    if n == name@ {
                        lemma_first_alias_witness(s.take(k as int), n);
                        lemma_first_alias_witness(s.skip(k as int + 1), n);
                        if first_alias(s.take(k as int), n) is Some {
                            let i0 = choose|i: int|
                                0 <= i < s.take(k as int).len() && (#[trigger] s.take(
                                    k as int,
                                )[i]).0@ == n;
                            assert(s.take(k as int)[i0] == s[i0]);
                        }
                        if first_alias(s.skip(k as int + 1), n) is Some {
                            let i0 = choose|i: int|
                                0 <= i < s.skip(k as int + 1).len() && (#[trigger] s.skip(
                                    k as int + 1,
                                )[i]).0@ == n;
                            assert(s.skip(k as int + 1)[i0] == s[i0 + k + 1]);
                        }
                    }
                }
            }
            true
        },
        None => {
            proof {
                lemma_first_alias_witness(s, name@);
            }
            false
        },
    }
}

/// Removes the binding of `name`, if there is one.
fn remove_template_binding(v: &mut Vec<(String, String)>, name: &str) -> (r: bool)
    requires
        unique_template_keys(old(v)@),
    ensures
        unique_template_keys(final(v)@),
        r == (first_user(old(v)@, name@) is Some),
        forall|n: Seq<char>|
            #[trigger] first_user(final(v)@, n) == (if n == name@ {
                None::<Seq<char>>
            } else {
                first_user(old(v)@, n)
            }),
        !r ==> final(v)@ == old(v)@,
        r ==> final(v)@.len() == old(v)@.len() - 1,
{
    let ghost s = old(v)@;
    match find_template(v, name) {
        Some(k) => {
            v.remove(k);
            proof {
                let t = v@;
                assert(t =~= s.take(k as int) + s.skip(k as int + 1));
                lemma_first_user_unique(s, name@, k as int);
                assert forall|a: int, b: int|
                    #![trigger t[a], t[b]]
                    0 <= a < b < t.len() implies t[a].0@ != t[b].0@ by {
                    if a < k {
                        assert(t[a] == s[a]);
                    } else {
                        assert(t[a] == s[a + 1]);
                    }
                    if b < k {
                        assert(t[b] == s[b]);
                    } else {
                        assert(t[b] == s[b + 1]);
                    }
                }
                assert forall|n: Seq<char>| #[trigger] first_user(t, n) == (if n == name@ {
                    None::<Seq<char>>
                } else {
                    first_user(s, n)
                }) by {
                    lemma_first_user_append(s.take(k as int), s.skip(k as int + 1), n);
                    lemma_first_user_append(
                        s.take(k as int),
                        seq![s[k as int]] + s.skip(k as int + 1),
                        n,
                    );
                    assert(s =~= s.take(k as int) + (seq![s[k as int]] + s.skip(k as int + 1)));
                    assert((seq![s[k as int]] + s.skip(k as int + 1))[0] == s[k as int]);
                    assert((seq![s[k as int]] + s.skip(k as int + 1)).skip(1) =~= s.skip(
                        k as int + 1,
                    ));
                    if n == name@ {
                        lemma_first_user_witness(s.take(k as int), n);
                        lemma_first_user_witness(s.skip(k as int + 1), n);
                        if first_user(s.take(k as int), n) is Some {
                            let i0 = choose|i: int|
                                0 <= i < s.take(k as int).len() && (#[trigger] s.take(
                                    k as int,
                                )[i]).0@ == n;
                            assert(s.take(k as int)[i0] == s[i0]);
                        }
                        if first_user(s.skip(k as int + 1), n) is Some {
                            let i0 = choose|i: int|
                                0 <= i < s.skip(k as int + 1).len() && (#[trigger] s.skip(
                                    k as int + 1,
                                )[i]).0@ == n;
                            assert(s.skip(k as int + 1)[i0] == s[i0 + k + 1]);
                        }
                    }
                }
            }
            true
        },
        None => {
            proof {
                lemma_first_user_witness(s, name@);
            }
            false
        },
    }
}

impl UserData {
    /// Unique keys in each map.
    pub open spec fn wf(self) -> bool {
        unique_alias_keys(self.aliases@) && unique_template_keys(self.templates@)
    }

    /// The empty configuration.
    pub fn new() -> (r: UserData)
        ensures
            r.aliases@.len() == 0,
            r.templates@.len() == 0,
            r.wf(),
    {
        UserData { aliases: Vec::new(), templates: Vec::new() }
    }

    /// Binds `name` to the target list, replacing any earlier binding.
    pub fn add_alias(&mut self, name: String, aliases: Vec<String>)
        requires
            old(self).wf(),
        ensures
            final(self).wf(),
            final(self).templates == old(self).templates,
            forall|n: Seq<char>|
                #[trigger] first_alias(final(self).aliases@, n) == (if n == name@ {
                    Some(aliases.deep_view())
                } else {
                    first_alias(old(self).aliases@, n)
                }),
    {
        let _ = remove_alias_binding(&mut self.aliases, name.as_str());
        let ghost mid = self.aliases@;
        let ghost pair = (name, aliases);
        self.aliases.push((name, aliases));
        proof {
            let t = self.aliases@;
            assert(t =~= mid + seq![pair]);
            lemma_first_alias_witness(mid, name@);
            assert forall|a: int, b: int|
                #![trigger t[a], t[b]]
                0 <= a < b < t.len() implies t[a].0@ != t[b].0@ by {
                if b < t.len() - 1 {
                    assert(t[a] == mid[a] && t[b] == mid[b]);
                } else {
                    assert(t[a] == mid[a] && t[b] == pair);
                }
            }
            assert forall|n: Seq<char>| #[trigger] first_alias(t, n) == (if n == name@ {
                Some(pair.1.deep_view())
            } else {
                first_alias(mid, n)
            }) by {
                lemma_first_alias_append(mid, seq![pair], n);
                assert(seq![pair][0] == pair);
                assert(seq![pair].skip(1) =~= Seq::<(String, Vec<String>)>::empty());
                assert(first_alias(Seq::<(String, Vec<String>)>::empty(), n) is None);
            }
        }
    }

    /// Drops the binding of `name`; tells whether one existed.
    pub fn remove_alias(&mut self, name: &str) -> (r: bool)
        requires
            old(self).wf(),
        ensures
            final(self).wf(),
            final(self).templates == old(self).templates,
            r == (first_alias(old(self).aliases@, name@) is Some),
            forall|n: Seq<char>|
                #[trigger] first_alias(final(self).aliases@, n) == (if n == name@ {
                    None::<Seq<Seq<char>>>
                } else {
                    first_alias(old(self).aliases@, n)
                }),
    {
        remove_alias_binding(&mut self.aliases, name)
    }

    /// Binds the template `name` to a file reference, replacing any
    /// earlier binding. Creating the referenced file is the caller's
    /// business.
    pub fn add_template(&mut self, name: String, file_name: String)
        requires
            old(self).wf(),
        ensures
            final(self).wf(),
            final(self).aliases == old(self).aliases,
            forall|n: Seq<char>|
                #[trigger] first_user(final(self).templates@, n) == (if n == name@ {
                    Some(file_name@)
                } else {
                    first_user(old(self).templates@, n)
                }),
    {
        let _ = remove_template_binding(&mut self.templates, name.as_str());
        let ghost mid = self.templates@;
        let ghost pair = (name, file_name);
        self.templates.push((name, file_name));
        proof {
            let t = self.templates@;
            assert(t =~= mid + seq![pair]);
            lemma_first_user_witness(mid, name@);
            assert forall|a: int, b: int|
                #![trigger t[a], t[b]]
                0 <= a < b < t.len() implies t[a].0@ != t[b].0@ by {
                if b < t.len() - 1 {
                    assert(t[a] == mid[a] && t[b] == mid[b]);
                } else {
                    assert(t[a] == mid[a] && t[b] == pair);
                }
            }
            assert forall|n: Seq<char>| #[trigger] first_user(t, n) == (if n == name@ {
                Some(pair.1@)
            } else {
                first_user(mid, n)
            }) by {
                lemma_first_user_append(mid, seq![pair], n);
                assert(seq![pair][0] == pair);
                assert(seq![pair].skip(1) =~= Seq::<(String, String)>::empty());
                assert(first_user(Seq::<(String, String)>::empty(), n) is None);
            }
        }
    }

    /// Drops the binding of `name`; tells whether one existed.
    pub fn remove_template(&mut self, name: &str) -> (r: bool)
        requires
            old(self).wf(),
        ensures
            final(self).wf(),
            final(self).aliases == old(self).aliases,
            r == (first_user(old(self).templates@, name@) is Some),
            forall|n: Seq<char>|
                #[trigger] first_user(final(self).templates@, n) == (if n == name@ {
                    None::<Seq<char>>
                } else {
                    first_user(old(self).templates@, n)
                }),
    {
        remove_template_binding(&mut self.templates, name)
    }

    /// Rebuilds the configuration from parsed pair lists, whatever the
    /// file's order; the first binding of a key wins and every lookup
    /// answers as it would on the raw lists.
    pub fn from_pairs(
        aliases: Vec<(String, Vec<String>)>,
        templates: Vec<(String, String)>,
    ) -> (r: UserData)
        ensures
            r.wf(),
            forall|n: Seq<char>|
                #[trigger] first_alias(r.aliases@, n) == first_alias(aliases@, n),
            forall|n: Seq<char>|
                #[trigger] first_user(r.templates@, n) == first_user(templates@, n),
    {
        let mut al: Vec<(String, Vec<String>)> = Vec::new();
        let mut i: usize = 0;
        proof {
            assert(aliases@.take(0) =~= Seq::<(String, Vec<String>)>::empty());
        }
        while i < aliases.len()
            invariant
                i <= aliases@.len(),
                unique_alias_keys(al@),
                forall|n: Seq<char>|
                    #[trigger] first_alias(al@, n) == first_alias(aliases@.take(i as int), n),
            decreases aliases@.len() - i,
        {
            let ghost before = al@;
            let p = &aliases[i];
            let ghost cur = aliases@[i as int];
            let absent = match find_alias(&al, p.0.as_str()) {
                Some(_) => false,
                None => true,
            };
            if absent {
                al.push((p.0.clone(), clone_strings(&p.1)));
            }
            proof {
                assert(aliases@.take(i as int + 1) =~= aliases@.take(i as int) + seq![cur]);
                assert forall|n: Seq<char>| #[trigger] first_alias(al@, n) == first_alias(
                    aliases@.take(i as int + 1),
                    n,
                ) by {
                    assert(first_alias(before, n) == first_alias(aliases@.take(i as int), n));
                    lemma_first_alias_append(aliases@.take(i as int), seq![cur], n);
                    assert(seq![cur][0] == cur);
                    assert(seq![cur].skip(1) =~= Seq::<(String, Vec<String>)>::empty());
                    assert(first_alias(Seq::<(String, Vec<String>)>::empty(), n) is None);
                    if absent {
                        assert(al@ =~= before + seq![(cur.0, al@[al@.len() - 1].1)]);
                        assert(al@[al@.len() - 1].1.deep_view() == cur.1.deep_view());
                        lemma_first_alias_append(before, al@.skip(before.len() as int), n);
                        assert(al@.skip(before.len() as int)[0] == al@[al@.len() - 1]);
                        assert(al@.skip(before.len() as int).skip(1) =~= Seq::<(
                            String,
                            Vec<String>,
                        )>::empty());
                        assert(al@ =~= before + al@.skip(before.len() as int));
                    } else {
                        lemma_first_alias_witness(before, cur.0@);
                    }
                }
                assert forall|a: int, b: int|
                    #![trigger al@[a], al@[b]]
                    0 <= a < b < al@.len() implies al@[a].0@ != al@[b].0@ by {
                    if b < al@.len() - 1 || !absent {
                        assert(al@[a] == before[a] && al@[b] == before[b]);
                    } else {
                        assert(al@[a] == before[a]);
                    }
                }
            }
            i = i + 1;
        }
        proof {
            assert(aliases@.take(aliases@.len() as int) =~= aliases@);
        }
        let mut tp: Vec<(String, String)> = Vec::new();
        let mut i: usize = 0;
        proof {
            assert(templates@.take(0) =~= Seq::<(String, String)>::empty());
        }
        while i < templates.len()
            invariant
                i <= templates@.len(),
                unique_template_keys(tp@),
                forall|n: Seq<char>|
                    #[trigger] first_user(tp@, n) == first_user(templates@.take(i as int), n),
            decreases templates@.len() - i,
        {
            let ghost before = tp@;
            let p = &templates[i];
            let ghost cur = templates@[i as int];
            let absent = match find_template(&tp, p.0.as_str()) {
                Some(_) => false,
                None => true,
            };
            if absent {
                tp.push((p.0.clone(), p.1.clone()));
            }
            proof {
                assert(templates@.take(i as int + 1) =~= templates@.take(i as int) + seq![cur]);
                assert forall|n: Seq<char>| #[trigger] first_user(tp@, n) == first_user(
                    templates@.take(i as int + 1),
                    n,
                ) by {
                    assert(first_user(before, n) == first_user(templates@.take(i as int), n));
                    lemma_first_user_append(templates@.take(i as int), seq![cur], n);
                    assert(seq![cur][0] == cur);
                    assert(seq![cur].skip(1) =~= Seq::<(String, String)>::empty());
                    assert(first_user(Seq::<(String, String)>::empty(), n) is None);
                    if absent {
                        assert(tp@ =~= before + seq![cur]);
                        lemma_first_user_append(before, seq![cur], n);
                    } else {
                        lemma_first_user_witness(before, cur.0@);
                    }
                }
                assert forall|a: int, b: int|
                    #![trigger tp@[a], tp@[b]]
                    0 <= a < b < tp@.len() implies tp@[a].0@ != tp@[b].0@ by {
                    if b < tp@.len() - 1 || !absent {
                        assert(tp@[a] == before[a] && tp@[b] == before[b]);
                    } else {
                        assert(tp@[a] == before[a]);
                    }
                }
            }
            i = i + 1;
        }
        proof {
            assert(templates@.take(templates@.len() as int) =~= templates@);
        }
        UserData { aliases: al, templates: tp }
    }
}

/// Round trip through the user source: writing a well-formed
/// configuration out as its two pair lists and reading them back gives
/// an equivalent mapping — the same key sets with the same values —
/// even when the file hands the pairs back in another order.
pub proof fn lemma_user_source_round_trip(ud: UserData, reread: UserData)
    requires
        ud.wf(),
        reread.wf(),
        ud.aliases@.to_multiset() == reread.aliases@.to_multiset(),
        ud.templates@.to_multiset() == reread.templates@.to_multiset(),
    ensures
        forall|n: Seq<char>|
            #[trigger] first_alias(reread.aliases@, n) == first_alias(ud.aliases@, n),
        forall|n: Seq<char>|
            #[trigger] first_user(reread.templates@, n) == first_user(ud.templates@, n),
{
    broadcast use vstd::seq_lib::group_to_multiset_ensures;

    assert forall|n: Seq<char>| #[trigger] first_alias(reread.aliases@, n) == first_alias(
        ud.aliases@,
        n,
    ) by {
        lemma_first_alias_witness(ud.aliases@, n);
        lemma_first_alias_witness(reread.aliases@, n);
        match first_alias(ud.aliases@, n) {
            Some(v) => {
                let i0 = choose|i: int|
                    0 <= i < ud.aliases@.len() && (#[trigger] ud.aliases@[i]).0@ == n
                        && ud.aliases@[i].1.deep_view() == v;
                let pair = ud.aliases@[i0];
                assert(ud.aliases@.contains(pair));
                assert(ud.aliases@.to_multiset().count(pair) > 0);
                assert(reread.aliases@.to_multiset().count(pair) > 0);
                assert(reread.aliases@.contains(pair));
                let j0 = choose|j: int|
                    0 <= j < reread.aliases@.len() && reread.aliases@[j] == pair;
                lemma_first_alias_unique(reread.aliases@, n, j0);
            },
            None => {
                match first_alias(reread.aliases@, n) {
                    Some(v) => {
                        let j0 = choose|j: int|
                            0 <= j < reread.aliases@.len() && (#[trigger] reread.aliases@[j]).0@
                                == n && reread.aliases@[j].1.deep_view() == v;
                        let pair = reread.aliases@[j0];
                        assert(reread.aliases@.contains(pair));
                        assert(reread.aliases@.to_multiset().count(pair) > 0);
                        assert(ud.aliases@.to_multiset().count(pair) > 0);
                        assert(ud.aliases@.contains(pair));
                        let i0 = choose|i: int|
                            0 <= i < ud.aliases@.len() && ud.aliases@[i] == pair;
                        assert(ud.aliases@[i0].0@ == n);
                    },
                    None => {},
                }
            },
        }
    }
    assert forall|n: Seq<char>| #[trigger] first_user(reread.templates@, n) == first_user(
        ud.templates@,
        n,
    ) by {
        lemma_first_user_witness(ud.templates@, n);
        lemma_first_user_witness(reread.templates@, n);
        match first_user(ud.templates@, n) {
            Some(v) => {
                let i0 = choose|i: int|
                    0 <= i < ud.templates@.len() && (#[trigger] ud.templates@[i]).0@ == n
                        && ud.templates@[i].1@ == v;
                let pair = ud.templates@[i0];
                assert(ud.templates@.contains(pair));
                assert(ud.templates@.to_multiset().count(pair) > 0);
                assert(reread.templates@.to_multiset().count(pair) > 0);
                assert(reread.templates@.contains(pair));
                let j0 = choose|j: int|
                    0 <= j < reread.templates@.len() && reread.templates@[j] == pair;
                lemma_first_user_unique(reread.templates@, n, j0);
            },
            None => {
                match first_user(reread.templates@, n) {
                    Some(v) => {
                        let j0 = choose|j: int|
                            0 <= j < reread.templates@.len() && (#[trigger] reread.templates@[j]).0@
                                == n && reread.templates@[j].1@ == v;
                        let pair = reread.templates@[j0];
                        assert(reread.templates@.contains(pair));
                        assert(reread.templates@.to_multiset().count(pair) > 0);
                        assert(ud.templates@.to_multiset().count(pair) > 0);
                        assert(ud.templates@.contains(pair));
                        let i0 = choose|i: int|
                            0 <= i < ud.templates@.len() && ud.templates@[i] == pair;
                        assert(ud.templates@[i0].0@ == n);
                    },
                    None => {},
                }
            },
        }
    }
}

} // verus!
