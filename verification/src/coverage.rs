//! Coverage data: for each requirement, where tracey found `impl` and
//! `verify` references to it.
//!
//! The map is keyed by rule-ID base (no `+N` suffix). The wire format of
//! tracey's `/api/forward` dump is mirrored by [`ForwardData`]; decoding the
//! JSON into it happens outside this library.
use vstd::prelude::*;

use crate::text::str_eq;

verus! {

broadcast use vstd::seq::group_seq_axioms;

/// One reference to a requirement in the source tree.
#[derive(Debug, Clone)]
pub struct Ref {
    pub file: String,
    pub line: usize,
}

impl View for Ref {
    type V = (Seq<char>, usize);

    open spec fn view(&self) -> (Seq<char>, usize) {
        (self.file@, self.line)
    }
}

/// The references of a list, as values.
pub open spec fn refs_view(refs: Seq<Ref>) -> Seq<(Seq<char>, usize)> {
    refs.map_values(|r: Ref| r@)
}

/// Where a requirement is implemented and verified.
#[derive(Debug, Clone)]
pub struct Coverage {
    pub impl_refs: Vec<Ref>,
    pub verify_refs: Vec<Ref>,
}

/// A requirement's coverage as a value: its `impl` and `verify` references.
pub struct CoverageView {
    pub impl_refs: Seq<(Seq<char>, usize)>,
    pub verify_refs: Seq<(Seq<char>, usize)>,
}

impl View for Coverage {
    type V = CoverageView;

    open spec fn view(&self) -> CoverageView {
        CoverageView { impl_refs: refs_view(self.impl_refs@), verify_refs: refs_view(self.verify_refs@) }
    }
}

impl Default for Coverage {
    /// No references of either kind.
    fn default() -> (r: Self)
        ensures
            r.impl_refs@.len() == 0,
            r.verify_refs@.len() == 0,
    {
        Coverage { impl_refs: Vec::new(), verify_refs: Vec::new() }
    }
}

/// The map that a list of (key, coverage) entries denotes; a later entry
/// for a key wins.
pub open spec fn entries_map(es: Seq<(String, Coverage)>) -> Map<Seq<char>, CoverageView>
    decreases es.len(),
{
    if es.len() == 0 {
        Map::empty()
    } else {
        entries_map(es.drop_last()).insert(es.last().0@, es.last().1@)
    }
}

/// No two entries share a key.
pub open spec fn keys_unique(es: Seq<(String, Coverage)>) -> bool {
    forall|i: int, j: int|
        0 <= i < es.len() && 0 <= j < es.len() && i != j ==> #[trigger] es[i].0@ != #[trigger] es[j].0@
}

proof fn lemma_entries_map(es: Seq<(String, Coverage)>)
    ensures
        entries_map(es).dom().finite(),
        forall|k: Seq<char>|
            #[trigger] entries_map(es).dom().contains(k) <==> exists|i: int|
                0 <= i < es.len() && es[i].0@ == k,
        keys_unique(es) ==> entries_map(es).dom().len() == es.len(),
        keys_unique(es) ==> forall|i: int|
            0 <= i < es.len() ==> #[trigger] entries_map(es)[es[i].0@] == es[i].1@,
    decreases es.len(),
{
    if es.len() > 0 {
        let init = es.drop_last();
        lemma_entries_map(init);
        assert forall|k: Seq<char>|
            #[trigger] entries_map(es).dom().contains(k) <==> exists|i: int|
                0 <= i < es.len() && es[i].0@ == k by {
            if entries_map(init).dom().contains(k) {
                let i = choose|i: int| 0 <= i < init.len() && init[i].0@ == k;
                assert(es[i].0@ == k);
            }
            if exists|i: int| 0 <= i < es.len() && es[i].0@ == k {
                let i = choose|i: int| 0 <= i < es.len() && es[i].0@ == k;
                if i < init.len() {
                    assert(init[i].0@ == k);
                }
            }
        }
        if keys_unique(es) {
            assert(keys_unique(init));
            assert(!entries_map(init).dom().contains(es.last().0@)) by {
                if entries_map(init).dom().contains(es.last().0@) {
                    let i = choose|i: int| 0 <= i < init.len() && init[i].0@ == es.last().0@;
                    assert(es[i].0@ == es[es.len() - 1].0@);
                }
            }
            assert forall|i: int| 0 <= i < es.len() implies #[trigger] entries_map(es)[es[i].0@]
                == es[i].1@ by {
                if i < init.len() {
                    assert(init[i].0@ == es[i].0@);
                    assert(es[i].0@ != es[es.len() - 1].0@);
                }
            }
        }
    }
}

/// Coverage by rule-ID base.
pub struct CoverageMap {
    entries: Vec<(String, Coverage)>,
}

impl View for CoverageMap {
    type V = Map<Seq<char>, CoverageView>;

    closed spec fn view(&self) -> Map<Seq<char>, CoverageView> {
        entries_map(self.entries@)
    }
}

impl CoverageMap {
    #[verifier::type_invariant]
    closed spec fn wf(self) -> bool {
        keys_unique(self.entries@)
    }

    /// An empty map.
    pub fn new() -> (r: Self)
        ensures
            r@ == Map::<Seq<char>, CoverageView>::empty(),
    {
        CoverageMap { entries: Vec::new() }
    }

    /// The number of keys.
    pub fn len(&self) -> (r: usize)
        ensures
            r == self@.dom().len(),
    {
        proof {
            use_type_invariant(self);
            lemma_entries_map(self.entries@);
        }
        self.entries.len()
    }

    /// True when the map has no keys.
    pub fn is_empty(&self) -> (r: bool)
        ensures
            r == (self@.dom().len() == 0),
    {
        self.len() == 0
    }

    /// Position of the entry for `key`, if there is one.
    fn position(&self, key: &str) -> (r: Option<usize>)
        ensures
            r matches Some(i) ==> i < self.entries@.len() && self.entries@[i as int].0@ == key@,
            r is None ==> forall|i: int|
                0 <= i < self.entries@.len() ==> #[trigger] self.entries@[i].0@ != key@,
    {
        let mut i: usize = 0;
        while i < self.entries.len()
            invariant
                i <= self.entries@.len(),
                forall|j: int| 0 <= j < i ==> #[trigger] self.entries@[j].0@ != key@,
            decreases self.entries@.len() - i,
        {
            if str_eq(self.entries[i].0.as_str(), key) {
                return Some(i);
            }
            i += 1;
        }
        None
    }

    /// The coverage recorded for `key`.
    pub fn get(&self, key: &str) -> (r: Option<&Coverage>)
        ensures
            r matches Some(c) ==> self@.contains_key(key@) && c@ == self@[key@],
            r is None ==> !self@.contains_key(key@),
    {
        proof {
            use_type_invariant(self);
            lemma_entries_map(self.entries@);
        }
        match self.position(key) {
            Some(i) => Some(&self.entries[i].1),
            None => None,
        }
    }

    /// True when `key` has coverage recorded.
    pub fn contains_key(&self, key: &str) -> (r: bool)
        ensures
            r == self@.contains_key(key@),
    {
        self.get(key).is_some()
    }

    /// Record `value` for `key`, replacing and returning what was recorded
    /// before.
    pub fn insert(&mut self, key: String, value: Coverage) -> (r: Option<Coverage>)
        ensures
            final(self)@ == old(self)@.insert(key@, value@),
            r matches Some(c) ==> old(self)@.contains_key(key@) && c@ == old(self)@[key@],
            r is None ==> !old(self)@.contains_key(key@),
    {
        proof {
            use_type_invariant(&*self);
            lemma_entries_map(self.entries@);
        }
        let ghost old_entries = self.entries@;
        let ghost k = key@;
        let ghost v = value@;
        match self.position(key.as_str()) {
            Some(i) => {
                let mut entries = Vec::new();
                std::mem::swap(&mut entries, &mut self.entries);
                let previous = entries.remove(i);
                entries.insert(i, (key, value));
                let ghost new_entries = entries@;
                proof {
                    assert(new_entries =~= old_entries.update(i as int, new_entries[i as int]));
                    assert(keys_unique(new_entries)) by {
                        assert forall|a: int, b: int|
                            0 <= a < new_entries.len() && 0 <= b < new_entries.len() && a != b
                                implies #[trigger] new_entries[a].0@
                            != #[trigger] new_entries[b].0@ by {
                            if a != i && b != i {
                                assert(new_entries[a] == old_entries[a]);
                                assert(new_entries[b] == old_entries[b]);
                            } else if a == i {
                                assert(new_entries[b] == old_entries[b]);
                            } else {
                                assert(new_entries[a] == old_entries[a]);
                            }
                        }
                    }
                    lemma_entries_map(new_entries);
                    assert(entries_map(new_entries) =~= entries_map(old_entries).insert(k, v)) by {
                        assert forall|key2: Seq<char>|
                            #[trigger] entries_map(new_entries).dom().contains(key2) implies
                            entries_map(new_entries)[key2] == entries_map(old_entries).insert(k, v)[key2] by {
                            let j = choose|j: int| 0 <= j < new_entries.len() && new_entries[j].0@ == key2;
                            if j != i {
                                assert(new_entries[j] == old_entries[j]);
                            }
                        }
                        assert forall|key2: Seq<char>|
                            #[trigger] entries_map(old_entries).insert(k, v).dom().contains(key2)
                            implies entries_map(new_entries).dom().contains(key2) by {
                            if key2 != k {
                                let j = choose|j: int| 0 <= j < old_entries.len() && old_entries[j].0@ == key2;
                                assert(new_entries[j] == old_entries[j]);
                            } else {
                                assert(new_entries[i as int].0@ == k);
                            }
                        }
                    }
                }
                self.entries = entries;
                Some(previous.1)
            },
            None => {
                let mut entries = Vec::new();
                std::mem::swap(&mut entries, &mut self.entries);
                entries.push((key, value));
                proof {
                    let new_entries = entries@;
                    assert(new_entries.drop_last() =~= old_entries);
                    assert(keys_unique(new_entries)) by {
                        assert forall|a: int, b: int|
                            0 <= a < new_entries.len() && 0 <= b < new_entries.len() && a != b
                                implies #[trigger] new_entries[a].0@
                            != #[trigger] new_entries[b].0@ by {
                            if a < old_entries.len() && b < old_entries.len() {
                                assert(new_entries[a] == old_entries[a]);
                                assert(new_entries[b] == old_entries[b]);
                            } else if a < old_entries.len() {
                                assert(new_entries[a] == old_entries[a]);
                            } else {
                                assert(new_entries[b] == old_entries[b]);
                            }
                        }
                    }
                }
                self.entries = entries;
                None
            },
        }
    }
}

/// A lookup after an insert finds the inserted coverage, and every other
/// key keeps what it had.
pub proof fn lemma_lookup_after_insert(
    m: Map<Seq<char>, CoverageView>,
    key: Seq<char>,
    value: CoverageView,
    other: Seq<char>,
)
    requires
        other != key,
    ensures
        m.insert(key, value).contains_key(key),
        m.insert(key, value)[key] == value,
        m.insert(key, value).contains_key(other) == m.contains_key(other),
        m.contains_key(other) ==> m.insert(key, value)[other] == m[other],
{
}

// ---------------------------------------------------------------------------
// tracey's `/api/forward` dump
// ---------------------------------------------------------------------------

/// A rule of the forward dump: its ID base and its references.
#[derive(Debug)]
pub struct ForwardRule {
    pub base: String,
    pub impl_refs: Vec<Ref>,
    pub verify_refs: Vec<Ref>,
}

/// A spec of the forward dump.
#[derive(Debug)]
pub struct ForwardSpec {
    pub rules: Vec<ForwardRule>,
}

/// The forward dump: the specs tracey knows, each with its rules.
#[derive(Debug)]
pub struct ForwardData {
    pub specs: Vec<ForwardSpec>,
}

/// The coverage that a rule of the dump records.
pub open spec fn rule_coverage(rule: ForwardRule) -> CoverageView {
    CoverageView { impl_refs: refs_view(rule.impl_refs@), verify_refs: refs_view(rule.verify_refs@) }
}

/// The rules of all specs, spec after spec.
pub open spec fn all_rules(specs: Seq<ForwardSpec>) -> Seq<ForwardRule>
    decreases specs.len(),
{
    if specs.len() == 0 {
        seq![]
    } else {
        all_rules(specs.drop_last()) + specs.last().rules@
    }
}

/// The coverage map of a list of rules: each rule's coverage under its
/// base; when a base comes twice, the later rule wins.
pub open spec fn rules_map(rules: Seq<ForwardRule>) -> Map<Seq<char>, CoverageView>
    decreases rules.len(),
{
    if rules.len() == 0 {
        Map::empty()
    } else {
        rules_map(rules.drop_last()).insert(rules.last().base@, rule_coverage(rules.last()))
    }
}

/// The map of a list of rules has a key for each base that some rule
/// carries and for no other; under each key stands the coverage of the
/// last rule that carries it.
pub proof fn lemma_rules_map(rules: Seq<ForwardRule>, k: Seq<char>)
    ensures
        rules_map(rules).contains_key(k) <==> exists|i: int|
            0 <= i < rules.len() && (#[trigger] rules[i]).base@ == k,
        forall|i: int|
            0 <= i < rules.len() && (#[trigger] rules[i]).base@ == k && (forall|j: int|
                i < j < rules.len() ==> (#[trigger] rules[j]).base@ != k) ==> rules_map(rules)[k]
                == rule_coverage(rules[i]),
    decreases rules.len(),
{
    if rules.len() > 0 {
        let init = rules.drop_last();
        let n = rules.len() - 1;
        lemma_rules_map(init, k);
        if exists|i: int| 0 <= i < init.len() && (#[trigger] init[i]).base@ == k {
            let i = choose|i: int| 0 <= i < init.len() && (#[trigger] init[i]).base@ == k;
            assert(rules[i] == init[i]);
        }
        if exists|i: int| 0 <= i < rules.len() && (#[trigger] rules[i]).base@ == k {
            let i = choose|i: int| 0 <= i < rules.len() && (#[trigger] rules[i]).base@ == k;
            if i < n {
                assert(init[i] == rules[i]);
            }
        }
        assert forall|i: int|
            0 <= i < rules.len() && (#[trigger] rules[i]).base@ == k && (forall|j: int|
                i < j < rules.len() ==> (#[trigger] rules[j]).base@ != k) implies rules_map(rules)[k]
            == rule_coverage(rules[i]) by {
            if i < n {
                assert(rules[n].base@ != k);
                assert(init[i] == rules[i]);
                assert forall|j: int| i < j < init.len() implies (#[trigger] init[j]).base@ != k by {
                    assert(init[j] == rules[j]);
                }
            }
        }
    }
}

/// The bases that the rules of all specs carry are those that some rule of
/// some spec carries.
pub proof fn lemma_all_rules_bases(specs: Seq<ForwardSpec>, k: Seq<char>)
    ensures
        (exists|i: int| 0 <= i < all_rules(specs).len() && (#[trigger] all_rules(specs)[i]).base@ == k)
            <==> exists|s: int, j: int|
            0 <= s < specs.len() && 0 <= j < specs[s].rules@.len() && (#[trigger] specs[s].rules@[j]).base@
                == k,
    decreases specs.len(),
{
    if specs.len() > 0 {
        let init = specs.drop_last();
        let a = all_rules(init);
        let last = specs.last().rules@;
        let all = all_rules(specs);
        lemma_all_rules_bases(init, k);
        assert(all == a + last);
        if exists|i: int| 0 <= i < all.len() && (#[trigger] all[i]).base@ == k {
            let i = choose|i: int| 0 <= i < all.len() && (#[trigger] all[i]).base@ == k;
            if i < a.len() {
                assert(a[i] == all[i]);
                let (s, j) = choose|s: int, j: int|
                    0 <= s < init.len() && 0 <= j < init[s].rules@.len() && (#[trigger] init[s].rules@[j]).base@
                        == k;
                assert(specs[s] == init[s]);
            } else {
                assert(all[i] == last[i - a.len()]);
                assert(specs[specs.len() - 1].rules@[i - a.len()].base@ == k);
            }
        }
        if exists|s: int, j: int|
            0 <= s < specs.len() && 0 <= j < specs[s].rules@.len() && (#[trigger] specs[s].rules@[j]).base@
                == k {
            let (s, j) = choose|s: int, j: int|
                0 <= s < specs.len() && 0 <= j < specs[s].rules@.len() && (#[trigger] specs[s].rules@[j]).base@
                    == k;
            if s < init.len() {
                assert(init[s] == specs[s]);
                assert(init[s].rules@[j].base@ == k);
                let i = choose|i: int| 0 <= i < a.len() && (#[trigger] a[i]).base@ == k;
                assert(all[i] == a[i]);
            } else {
                assert(all[a.len() + j] == last[j]);
            }
        }
    }
}

/// Coverage by base from tracey's forward dump: per rule, how many (and
/// which) `impl` and `verify` references it has. The same base in two
/// specs is last-write-wins; in practice tracey specs use disjoint prefixes.
pub fn coverage_from_forward(data: ForwardData) -> (r: CoverageMap)
    ensures
        r@ == rules_map(all_rules(data.specs@)),
        forall|k: Seq<char>| #[trigger]
            r@.contains_key(k) <==> exists|s: int, j: int|
                0 <= s < data.specs@.len() && 0 <= j < data.specs@[s].rules@.len() && (
                #[trigger] data.specs@[s].rules@[j]).base@ == k,
{
    let ghost specs = data.specs@;
    let mut map = CoverageMap::new();
    for spec in it: data.specs
        invariant
            it.seq() == specs,
            map@ == rules_map(all_rules(specs.take(it.index() as int))),
    {
        let ghost i = it.index();
        let ghost before = all_rules(specs.take(i as int));
        let ghost rules = spec.rules@;
        proof {
            assert(specs.take(i + 1).drop_last() =~= specs.take(i as int));
            assert(spec == specs[i as int]);
            assert(before + rules.take(0) =~= before);
        }
        for rule in jt: spec.rules
            invariant
                jt.seq() == rules,
                map@ == rules_map(before + rules.take(jt.index() as int)),
        {
            let ghost j = jt.index();
            proof {
                assert((before + rules.take(j + 1)).drop_last() =~= before + rules.take(j as int));
                assert(rule == rules[j as int]);
            }
            let ghost cov = rule_coverage(rule);
            let ForwardRule { base, impl_refs, verify_refs } = rule;
            map.insert(base, Coverage { impl_refs, verify_refs });
        }
        proof {
            assert(rules.take(rules.len() as int) =~= rules);
        }
    }
    proof {
        assert(specs.take(specs.len() as int) =~= specs);
        assert forall|k: Seq<char>| #[trigger]
            map@.contains_key(k) <==> exists|s: int, j: int|
                0 <= s < specs.len() && 0 <= j < specs[s].rules@.len() && (
                #[trigger] specs[s].rules@[j]).base@ == k by {
            lemma_rules_map(all_rules(specs), k);
            lemma_all_rules_bases(specs, k);
        }
    }
    map
}

} // verus!
