//! What the join collects for each upstream project while it runs.

use crate::ordered::{
    ascending, keys, lemma_ascending_is_nondescending, lemma_ascending_no_duplicates,
    lemma_insert_keeps_order, lower_bound, SortedSet,
};
use crate::text::{clone_opt, opt_view};
use vstd::prelude::*;

verus! {

/// What is known of one upstream project.
pub struct Facts {
    /// The latest version that upstream gives, from the first match.
    pub latest: Option<String>,
    /// The versions of the installed packages that matched.
    pub versions: SortedSet<String>,
    /// The attributes of the available packages that matched.
    pub attributes: SortedSet<String>,
}

/// What `Facts` hold.
pub struct FactsView {
    pub latest: Option<Seq<char>>,
    pub versions: Set<Seq<char>>,
    pub attributes: Set<Seq<char>>,
}

impl View for Facts {
    type V = FactsView;

    open spec fn view(&self) -> FactsView {
        FactsView {
            latest: opt_view(self.latest),
            versions: self.versions@.to_set(),
            attributes: self.attributes@.to_set(),
        }
    }
}

/// Upstream gives a latest version, and no installed package has it.
pub open spec fn lags(f: FactsView) -> bool {
    match f.latest {
        Some(l) => !f.versions.contains(l),
        None => false,
    }
}

/// What is known of the first match for a project: the latest version that
/// upstream gives, one installed version and one attribute.
pub open spec fn first_facts(latest: Option<Seq<char>>, version: Seq<char>, attribute: Seq<char>)
    -> FactsView {
    FactsView {
        latest,
        versions: Set::<Seq<char>>::empty().insert(version),
        attributes: Set::<Seq<char>>::empty().insert(attribute),
    }
}

/// What is known after one more match: the latest version stays, the version
/// and the attribute join the others.
pub open spec fn more_facts(f: FactsView, version: Seq<char>, attribute: Seq<char>) -> FactsView {
    FactsView {
        latest: f.latest,
        versions: f.versions.insert(version),
        attributes: f.attributes.insert(attribute),
    }
}

/// The projects met so far, each with what is known of it, in ascending
/// order of the projects' names.
pub struct Tally {
    names: Vec<String>,
    facts: Vec<Facts>,
}

impl View for Tally {
    type V = Map<Seq<char>, FactsView>;

    /// For each project met, what is known of it.
    closed spec fn view(&self) -> Map<Seq<char>, FactsView> {
        Map::new(
            |k: Seq<char>| keys(self.names@).contains(k),
            |k: Seq<char>| self.facts@[keys(self.names@).index_of(k)]@,
        )
    }
}

impl Tally {
    /// The names are in ascending order, and each has its facts.
    pub closed spec fn wf(&self) -> bool {
        &&& ascending::<String>(keys(self.names@))
        &&& self.names@.len() == self.facts@.len()
    }

    /// The project at place `j` has the facts at place `j`.
    proof fn lemma_at(&self, j: int)
        requires
            self.wf(),
            0 <= j < self.names@.len(),
        ensures
            self@.contains_key(self.names@[j]@),
            self@[self.names@[j]@] == self.facts@[j]@,
            keys(self.names@).index_of(self.names@[j]@) == j,
    {
        let ks = keys(self.names@);
        lemma_ascending_no_duplicates::<String>(ks);
        assert(ks[j] == self.names@[j]@);
        let m = ks.index_of(ks[j]);
        assert(0 <= m < ks.len() && ks[m] == ks[j]);
    }

    /// A tally of no project.
    pub fn new() -> (t: Self)
        ensures
            t.wf(),
            t@ == Map::<Seq<char>, FactsView>::empty(),
    {
        let t = Tally { names: Vec::new(), facts: Vec::new() };
        assert(t@ =~= Map::<Seq<char>, FactsView>::empty());
        t
    }

    /// Notes one match for the project `name`. The latest version is kept
    /// from the first match for a project.
    pub fn record(
        &mut self,
        name: &String,
        latest: &Option<String>,
        version: &String,
        attribute: &String,
    )
        requires
            old(self).wf(),
        ensures
            final(self).wf(),
            final(self)@ == old(self)@.insert(
                name@,
                if old(self)@.contains_key(name@) {
                    more_facts(old(self)@[name@], version@, attribute@)
                } else {
                    first_facts(opt_view(*latest), version@, attribute@)
                },
            ),
    {
        let ghost old_view = self@;
        let ghost old_names = self.names@;
        let ghost old_facts = self.facts@;
        let ghost ks = keys(self.names@);
        proof {
            lemma_ascending_is_nondescending::<String>(ks);
            lemma_ascending_no_duplicates::<String>(ks);
        }
        let (n, found) = lower_bound(&self.names, name);
        if found {
            proof {
                self.lemma_at(n as int);
            }
            let f = &mut self.facts[n];
            f.versions.insert(version.clone());
            f.attributes.insert(attribute.clone());
            proof {
                let new_f = more_facts(old_facts[n as int]@, version@, attribute@);
                assert(self.facts@[n as int]@ == new_f);
                assert(self@ =~= old_view.insert(name@, new_f)) by {
                    assert forall|k: Seq<char>| self@.contains_key(k) implies #[trigger] self@[k]
                        == old_view.insert(name@, new_f)[k] by {
                        let j = ks.index_of(k);
                        if j != n {
                            assert(self.facts@[j] == old_facts[j]);
                        }
                    }
                }
            }
        } else {
            let mut versions = SortedSet::<String>::new();
            versions.insert(version.clone());
            let mut attributes = SortedSet::<String>::new();
            attributes.insert(attribute.clone());
            let f = Facts { latest: clone_opt(latest), versions, attributes };
            proof {
                assert(f@.versions =~= Set::<Seq<char>>::empty().insert(version@));
                assert(f@.attributes =~= Set::<Seq<char>>::empty().insert(attribute@));
            }
            let ghost new_f = f@;
            self.names.insert(n, name.clone());
            self.facts.insert(n, f);
            proof {
                let nks = keys(self.names@);
                assert(nks =~= ks.insert(n as int, name@));
                lemma_insert_keeps_order::<String>(ks, name@, n as int);
                lemma_ascending_no_duplicates::<String>(nks);
                assert(self@ =~= old_view.insert(name@, new_f)) by {
                    assert forall|k: Seq<char>| #[trigger]
                        self@.contains_key(k) <==> old_view.insert(name@, new_f).contains_key(
                            k,
                        ) by {
                        if nks.contains(k) {
                            let j = choose|j: int| 0 <= j < nks.len() && nks[j] == k;
                            if j < n {
                                assert(ks[j] == k);
                            } else if j > n {
                                assert(ks[j - 1] == k);
                            }
                        }
                        if ks.contains(k) {
                            let j = choose|j: int| 0 <= j < ks.len() && ks[j] == k;
                            if j < n {
                                assert(nks[j] == k);
                            } else {
                                assert(nks[j + 1] == k);
                            }
                        }
                        if k == name@ {
                            assert(nks[n as int] == k);
                        }
                    }
                    assert forall|k: Seq<char>| self@.contains_key(k) implies #[trigger] self@[k]
                        == old_view.insert(name@, new_f)[k] by {
                        let j = nks.index_of(k);
                        assert(0 <= j < nks.len() && nks[j] == k);
                        if j < n {
                            assert(ks[j] == k);
                            let m = ks.index_of(k);
                            assert(0 <= m < ks.len() && ks[m] == k);
                            assert(self.facts@[j] == old_facts[j]);
                        } else if j > n {
                            assert(ks[j - 1] == k);
                            let m = ks.index_of(k);
                            assert(0 <= m < ks.len() && ks[m] == k);
                            assert(self.facts@[j] == old_facts[j - 1]);
                        }
                    }
                }
            }
        }
    }

    /// The number of projects met.
    pub fn len(&self) -> (n: usize)
        requires
            self.wf(),
        ensures
            n == self.names().len(),
    {
        self.names.len()
    }

    /// The names of the projects met, in ascending order.
    pub closed spec fn names(&self) -> Seq<Seq<char>> {
        keys(self.names@)
    }

    /// The names are those of the projects met, each once, in ascending order.
    pub proof fn lemma_names(&self)
        requires
            self.wf(),
        ensures
            ascending::<String>(self.names()),
            forall|k: Seq<char>| #[trigger] self.names().contains(k) <==> self@.contains_key(k),
    {
    }

    /// The name of the project at place `j`.
    pub fn name(&self, j: usize) -> (name: &String)
        requires
            self.wf(),
            j < self.names().len(),
        ensures
            name@ == self.names()[j as int],
    {
        &self.names[j]
    }

    /// What is known of the project at place `j`.
    pub fn facts(&self, j: usize) -> (f: &Facts)
        requires
            self.wf(),
            j < self.names().len(),
        ensures
            self@.contains_key(self.names()[j as int]),
            f@ == self@[self.names()[j as int]],
    {
        proof {
            self.lemma_at(j as int);
        }
        &self.facts[j]
    }
}

} // verus!
