//! The directory-signature detector: a fixed table of declarative rules
//! that match one level of directory entries by file name, file
//! extension or directory name, and suggest template names.

use vstd::prelude::*;

use crate::strutil::str_eq;

verus! {

/// One scanned directory entry, reduced to the facts the rules inspect:
/// its name, its extension (the suffix after the last dot, if any), and
/// whether it is a regular file or a directory.
pub struct DirEntry {
    pub name: String,
    pub extension: Option<String>,
    pub is_file: bool,
    pub is_dir: bool,
}

impl DirEntry {
    /// Packs the scanner's facts about one entry.
    pub fn new(name: String, extension: Option<String>, is_file: bool, is_dir: bool) -> (r:
        DirEntry)
        ensures
            r.name == name,
            r.extension == extension,
            r.is_file == is_file,
            r.is_dir == is_dir,
    {
        DirEntry { name, extension, is_file, is_dir }
    }
}

/// One match predicate of a rule. Name and extension predicates demand a
/// regular file; a directory predicate demands a directory, so a file
/// named like a watched directory never matches, nor the other way
/// round.
pub enum Matcher {
    FileExtension(String),
    FileName(String),
    DirName(String),
}

/// Whether the predicate `m` accepts the entry `e`.
pub open spec fn matcher_matches(m: Matcher, e: DirEntry) -> bool {
    match m {
        Matcher::FileName(n) => e.is_file && e.name@ == n@,
        Matcher::FileExtension(x) => e.is_file && (match e.extension {
            Some(s) => s@ == x@,
            None => false,
        }),
        Matcher::DirName(n) => e.is_dir && e.name@ == n@,
    }
}

impl Matcher {
    /// Tests this predicate against one entry.
    pub fn matches(&self, entry: &DirEntry) -> (r: bool)
        ensures
            r == matcher_matches(*self, *entry),
    {
        match self {
            Matcher::FileName(n) => entry.is_file && str_eq(entry.name.as_str(), n.as_str()),
            Matcher::FileExtension(x) => {
                if !entry.is_file {
                    false
                } else {
                    match &entry.extension {
                        Some(s) => str_eq(s.as_str(), x.as_str()),
                        None => false,
                    }
                }
            },
            Matcher::DirName(n) => entry.is_dir && str_eq(entry.name.as_str(), n.as_str()),
        }
    }
}

/// One detection rule: a template name and the predicates that vouch for
/// it.
pub struct Detector {
    pub template: String,
    pub matchers: Vec<Matcher>,
}

/// A rule fires when any of its predicates accepts any scanned entry.
pub open spec fn detector_fires(d: Detector, entries: Seq<DirEntry>) -> bool {
    exists|i: int, j: int|
        0 <= i < d.matchers@.len() && 0 <= j < entries.len() && #[trigger] matcher_matches(
            d.matchers@[i],
            entries[j],
        )
}

/// The template names of the rules that fire, in rule-table order.
pub open spec fn detected_names(ds: Seq<Detector>, entries: Seq<DirEntry>) -> Seq<Seq<char>>
    decreases ds.len(),
{
    if ds.len() == 0 {
        Seq::empty()
    } else if detector_fires(ds[0], entries) {
        seq![ds[0].template@] + detected_names(ds.skip(1), entries)
    } else {
        detected_names(ds.skip(1), entries)
    }
}

impl Detector {
    /// The rule's template name when the rule fires on these entries,
    /// nothing otherwise.
    pub fn detects(&self, entries: &Vec<DirEntry>) -> (r: Option<String>)
        ensures
            r matches Some(t) ==> detector_fires(*self, entries@) && t@ == self.template@,
            r is None ==> !detector_fires(*self, entries@),
    {
        let m = self.matchers.len();
        let n = entries.len();
        let mut i: usize = 0;
        while i < m
            invariant
                i <= m,
                m == self.matchers@.len(),
                n == entries@.len(),
                forall|ii: int, jj: int|
                    0 <= ii < i && 0 <= jj < n ==> !(#[trigger] matcher_matches(
                        self.matchers@[ii],
                        entries@[jj],
                    )),
            decreases m - i,
        {
            let mut j: usize = 0;
            while j < n
                invariant
                    i < m,
                    j <= n,
                    m == self.matchers@.len(),
                    n == entries@.len(),
                    forall|jj: int|
                        0 <= jj < j ==> !(#[trigger] matcher_matches(
                            self.matchers@[i as int],
                            entries@[jj],
                        )),
                decreases n - j,
            {
                if self.matchers[i].matches(&entries[j]) {
                    proof {
                        assert(matcher_matches(self.matchers@[i as int], entries@[j as int]));
                    }
                    return Some(self.template.clone());
                }
                j = j + 1;
            }
            i = i + 1;
        }
        None
    }
}

/// Whether `m` is a file-name predicate for exactly the name `s`.
pub open spec fn is_file_name(m: Matcher, s: Seq<char>) -> bool {
    match m {
        Matcher::FileName(n) => n@ == s,
        _ => false,
    }
}

/// Whether `m` is a file-extension predicate for exactly the suffix `s`.
pub open spec fn is_file_extension(m: Matcher, s: Seq<char>) -> bool {
    match m {
        Matcher::FileExtension(n) => n@ == s,
        _ => false,
    }
}

/// Whether `m` is a directory-name predicate for exactly the name `s`.
pub open spec fn is_dir_name(m: Matcher, s: Seq<char>) -> bool {
    match m {
        Matcher::DirName(n) => n@ == s,
        _ => false,
    }
}

/// The built-in rule table, rule by rule. Two rules may watch the same
/// file on purpose (a build tool and its ecosystem); they fire
/// independently.
pub open spec fn is_default_table(ds: Seq<Detector>) -> bool {
    &&& ds.len() == 9
    &&& ds[0].template@ == "rust"@
    &&& ds[0].matchers@.len() == 1
    &&& is_file_name(ds[0].matchers@[0], "Cargo.toml"@)
    &&& ds[1].template@ == "node"@
    &&& ds[1].matchers@.len() == 2
    &&& is_file_name(ds[1].matchers@[0], "package.json"@)
    &&& is_dir_name(ds[1].matchers@[1], "node_modules"@)
    &&& ds[2].template@ == "python"@
    &&& ds[2].matchers@.len() == 2
    &&& is_file_name(ds[2].matchers@[0], "requirements.txt"@)
    &&& is_file_name(ds[2].matchers@[1], "pyproject.toml"@)
    &&& ds[3].template@ == "java"@
    &&& ds[3].matchers@.len() == 2
    &&& is_file_name(ds[3].matchers@[0], "pom.xml"@)
    &&& is_file_name(ds[3].matchers@[1], "build.gradle"@)
    &&& ds[4].template@ == "gradle"@
    &&& ds[4].matchers@.len() == 2
    &&& is_file_name(ds[4].matchers@[0], "build.gradle"@)
    &&& is_dir_name(ds[4].matchers@[1], "gradle"@)
    &&& ds[5].template@ == "haskell"@
    &&& ds[5].matchers@.len() == 2
    &&& is_file_name(ds[5].matchers@[0], "stack.yaml"@)
    &&& is_file_extension(ds[5].matchers@[1], "cabal"@)
    &&& ds[6].template@ == "composer"@
    &&& ds[6].matchers@.len() == 1
    &&& is_file_name(ds[6].matchers@[0], "composer.json"@)
    &&& ds[7].template@ == "ruby"@
    &&& ds[7].matchers@.len() == 2
    &&& is_file_name(ds[7].matchers@[0], "Gemfile"@)
    &&& is_file_extension(ds[7].matchers@[1], "rb"@)
    &&& ds[8].template@ == "scala"@
    &&& ds[8].matchers@.len() == 2
    &&& is_dir_name(ds[8].matchers@[0], ".metals"@)
    &&& is_file_name(ds[8].matchers@[1], "build.sbt"@)
}

/// Rules that name distinct templates.
pub open spec fn distinct_templates(ds: Seq<Detector>) -> bool {
    forall|i: int, j: int|
        #![trigger ds[i], ds[j]]
        0 <= i < j < ds.len() ==> ds[i].template@ != ds[j].template@
}

/// The built-in table names nine distinct templates.
pub proof fn lemma_default_table_distinct(ds: Seq<Detector>)
    requires
        is_default_table(ds),
    ensures
        distinct_templates(ds),
{
    reveal_strlit("rust");
    reveal_strlit("node");
    reveal_strlit("python");
    reveal_strlit("java");
    reveal_strlit("gradle");
    reveal_strlit("haskell");
    reveal_strlit("composer");
    reveal_strlit("ruby");
    reveal_strlit("scala");
    assert("rust"@[0] == 'r' && "node"@[0] == 'n' && "python"@[0] == 'p' && "java"@[0] == 'j'
        && "gradle"@[0] == 'g' && "haskell"@[0] == 'h' && "composer"@[0] == 'c' && "ruby"@[0]
        == 'r' && "scala"@[0] == 's');
    assert("rust"@[2] == 's' && "ruby"@[2] == 'b');
}

/// Every detected name is the template of some rule.
pub proof fn lemma_detected_names_from_rules(ds: Seq<Detector>, entries: Seq<DirEntry>)
    ensures
        forall|x: int|
            0 <= x < detected_names(ds, entries).len() ==> exists|k: int|
                0 <= k < ds.len() && (#[trigger] detected_names(ds, entries)[x]) == ds[k].template@,
    decreases ds.len(),
{
    if ds.len() > 0 {
        lemma_detected_names_from_rules(ds.skip(1), entries);
        let tail = detected_names(ds.skip(1), entries);
        assert forall|x: int|
            0 <= x < detected_names(ds, entries).len() implies exists|k: int|
            0 <= k < ds.len() && (#[trigger] detected_names(ds, entries)[x])
                == ds[k].template@ by {
            if detector_fires(ds[0], entries) {
                if x == 0 {
                    assert(detected_names(ds, entries)[0] == ds[0].template@);
                } else {
                    assert(detected_names(ds, entries)[x] == tail[x - 1]);
                    let k0 = choose|k: int|
                        0 <= k < ds.skip(1).len() && tail[x - 1] == ds.skip(1)[k].template@;
                    assert(ds.skip(1)[k0] == ds[k0 + 1]);
                }
            } else {
                assert(detected_names(ds, entries)[x] == tail[x]);
                let k0 = choose|k: int|
                    0 <= k < ds.skip(1).len() && tail[x] == ds.skip(1)[k].template@;
                assert(ds.skip(1)[k0] == ds[k0 + 1]);
            }
        }
    }
}

/// Detection is an ordered set: over a table of distinct template names
/// no name is reported twice, and names come out in rule-table order.
pub proof fn lemma_detected_names_distinct(ds: Seq<Detector>, entries: Seq<DirEntry>)
    requires
        distinct_templates(ds),
    ensures
        forall|x: int, y: int|
            #![trigger detected_names(ds, entries)[x], detected_names(ds, entries)[y]]
            0 <= x < y < detected_names(ds, entries).len() ==> detected_names(ds, entries)[x]
                != detected_names(ds, entries)[y],
    decreases ds.len(),
{
    if ds.len() > 0 {
        assert forall|i: int, j: int|
            #![trigger ds.skip(1)[i], ds.skip(1)[j]]
            0 <= i < j < ds.skip(1).len() implies ds.skip(1)[i].template@ != ds.skip(
            1,
        )[j].template@ by {
            assert(ds.skip(1)[i] == ds[i + 1]);
            assert(ds.skip(1)[j] == ds[j + 1]);
        }
        lemma_detected_names_distinct(ds.skip(1), entries);
        lemma_detected_names_from_rules(ds.skip(1), entries);
        let tail = detected_names(ds.skip(1), entries);
        assert forall|x: int, y: int|
            #![trigger detected_names(ds, entries)[x], detected_names(ds, entries)[y]]
            0 <= x < y < detected_names(ds, entries).len() implies detected_names(ds, entries)[x]
            != detected_names(ds, entries)[y] by {
            if detector_fires(ds[0], entries) {
                if x == 0 {
                    assert(detected_names(ds, entries)[0] == ds[0].template@);
                    assert(detected_names(ds, entries)[y] == tail[y - 1]);
                    let k0 = choose|k: int|
                        0 <= k < ds.skip(1).len() && tail[y - 1] == ds.skip(1)[k].template@;
                    assert(ds.skip(1)[k0] == ds[k0 + 1]);
                    assert(ds[0].template@ != ds[k0 + 1].template@);
                } else {
                    assert(detected_names(ds, entries)[x] == tail[x - 1]);
                    assert(detected_names(ds, entries)[y] == tail[y - 1]);
                }
            } else {
                assert(detected_names(ds, entries)[x] == tail[x]);
                assert(detected_names(ds, entries)[y] == tail[y]);
            }
        }
    }
}

/// Detection is a function of the rule table and the scanned entries
/// alone: two runs over the same entry sequence report the same names in
/// the same order.
pub proof fn lemma_detects_idempotent(
    ds: Seq<Detector>,
    entries: Seq<DirEntry>,
    r1: Seq<Seq<char>>,
    r2: Seq<Seq<char>>,
)
    requires
        r1 == detected_names(ds, entries),
        r2 == detected_names(ds, entries),
    ensures
        r1 == r2,
{
}

/// The rule table, applied in order.
pub struct Detectors {
    pub detectors: Vec<Detector>,
}

impl Default for Detectors {
    /// Builds the built-in rule table.
    fn default() -> (r: Detectors)
        ensures
            is_default_table(r.detectors@),
            distinct_templates(r.detectors@),
    {
        let mut ds: Vec<Detector> = Vec::new();

        let mut ms: Vec<Matcher> = Vec::new();
        ms.push(Matcher::FileName(String::from_str("Cargo.toml")));
        ds.push(Detector { template: String::from_str("rust"), matchers: ms });

        let mut ms: Vec<Matcher> = Vec::new();
        ms.push(Matcher::FileName(String::from_str("package.json")));
        ms.push(Matcher::DirName(String::from_str("node_modules")));
        ds.push(Detector { template: String::from_str("node"), matchers: ms });

        let mut ms: Vec<Matcher> = Vec::new();
        ms.push(Matcher::FileName(String::from_str("requirements.txt")));
        ms.push(Matcher::FileName(String::from_str("pyproject.toml")));
        ds.push(Detector { template: String::from_str("python"), matchers: ms });

        let mut ms: Vec<Matcher> = Vec::new();
        ms.push(Matcher::FileName(String::from_str("pom.xml")));
        ms.push(Matcher::FileName(String::from_str("build.gradle")));
        ds.push(Detector { template: String::from_str("java"), matchers: ms });

        let mut ms: Vec<Matcher> = Vec::new();
        ms.push(Matcher::FileName(String::from_str("build.gradle")));
        ms.push(Matcher::DirName(String::from_str("gradle")));
        ds.push(Detector { template: String::from_str("gradle"), matchers: ms });

        let mut ms: Vec<Matcher> = Vec::new();
        ms.push(Matcher::FileName(String::from_str("stack.yaml")));
        ms.push(Matcher::FileExtension(String::from_str("cabal")));
        ds.push(Detector { template: String::from_str("haskell"), matchers: ms });

        let mut ms: Vec<Matcher> = Vec::new();
        ms.push(Matcher::FileName(String::from_str("composer.json")));
        ds.push(Detector { template: String::from_str("composer"), matchers: ms });

        let mut ms: Vec<Matcher> = Vec::new();
        ms.push(Matcher::FileName(String::from_str("Gemfile")));
        ms.push(Matcher::FileExtension(String::from_str("rb")));
        ds.push(Detector { template: String::from_str("ruby"), matchers: ms });

        let mut ms: Vec<Matcher> = Vec::new();
        ms.push(Matcher::DirName(String::from_str(".metals")));
        ms.push(Matcher::FileName(String::from_str("build.sbt")));
        ds.push(Detector { template: String::from_str("scala"), matchers: ms });

        proof {
            lemma_default_table_distinct(ds@);
        }
        Detectors { detectors: ds }
    }
}

impl Detectors {
    /// The names of all rules that fire on these entries, one name per
    /// firing rule, in rule-table order. Rules fire independently: two
    /// rules matching the same entry both contribute.
    pub fn detects(&self, entries: &Vec<DirEntry>) -> (r: Vec<String>)
        ensures
            r.deep_view() == detected_names(self.detectors@, entries@),
    {
        let n = self.detectors.len();
        let mut r: Vec<String> = Vec::new();
        let mut i: usize = 0;
        proof {
            assert(self.detectors@.skip(0) =~= self.detectors@);
            assert(r.deep_view() =~= Seq::<Seq<char>>::empty());
        }
        loop
            invariant
                i <= n,
                n == self.detectors@.len(),
                detected_names(self.detectors@, entries@) == r.deep_view() + detected_names(
                    self.detectors@.skip(i as int),
                    entries@,
                ),
            decreases n - i,
        {
            if i >= n {
                proof {
                    assert(detected_names(self.detectors@, entries@) =~= r.deep_view());
                }
                return r;
            }
            proof {
                assert(self.detectors@.skip(i as int)[0] == self.detectors@[i as int]);
                assert(self.detectors@.skip(i as int).skip(1) =~= self.detectors@.skip(
                    i as int + 1,
                ));
            }
            match self.detectors[i].detects(entries) {
                Some(t) => {
                    let ghost before = r.deep_view();
                    r.push(t);
                    proof {
                        assert(r.deep_view() =~= before + seq![t@]);
                    }
                },
                None => {},
            }
            i = i + 1;
        }
    }
}

} // verus!
