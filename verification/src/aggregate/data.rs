//! The data that the pipeline works on: sets of domains, the sources of an
//! addlist, and the finished addlist.

use crate::config::Config;
use std::sync::Arc;
use vstd::hash_set::StringHashSet;
use vstd::prelude::*;

verus! {

/// The character sequences that the strings of `v` hold.
pub open spec fn names_of(v: Seq<String>) -> Seq<Seq<char>> {
    Seq::new(v.len(), |i: int| v[i]@)
}

/// A set of domains. Each domain is held once, in the order in which it
/// came in.
pub struct DomainSet {
    items: Vec<String>,
    index: StringHashSet,
}

impl View for DomainSet {
    type V = Set<Seq<char>>;

    closed spec fn view(&self) -> Set<Seq<char>> {
        self.index@
    }
}

impl DomainSet {
    #[verifier::type_invariant]
    spec fn inv(self) -> bool {
        &&& names_of(self.items@).no_duplicates()
        &&& names_of(self.items@).to_set() == self.index@
    }

    /// The domains of the set in the order in which they came in.
    pub closed spec fn listing(self) -> Seq<Seq<char>> {
        names_of(self.items@)
    }

    /// `l` holds every domain of the set `s` once.
    pub open spec fn lists(l: Seq<Seq<char>>, s: Set<Seq<char>>) -> bool {
        &&& l.no_duplicates()
        &&& l.to_set() == s
        &&& s.finite()
        &&& s.len() == l.len()
    }

    /// The empty set.
    pub fn new() -> (r: DomainSet)
        ensures
            r@ == Set::<Seq<char>>::empty(),
    {
        let items: Vec<String> = Vec::new();
        let index = StringHashSet::new();
        assert(names_of(items@).to_set() =~= Set::<Seq<char>>::empty());
        DomainSet { items, index }
    }

    /// Whether `domain` is in the set.
    pub fn contains(&self, domain: &str) -> (r: bool)
        ensures
            r == self@.contains(domain@),
    {
        self.index.contains(domain)
    }

    /// How many domains the set holds.
    pub fn len(&self) -> (r: usize)
        ensures
            r == self@.len(),
            self@.finite(),
    {
        proof {
            use_type_invariant(self);
            vstd::seq_lib::seq_to_set_is_finite(names_of(self.items@));
            names_of(self.items@).unique_seq_to_set();
        }
        self.items.len()
    }

    /// Whether the set holds no domain.
    pub fn is_empty(&self) -> (r: bool)
        ensures
            r == (self@ == Set::<Seq<char>>::empty()),
    {
        proof {
            use_type_invariant(self);
            if self.items@.len() > 0 {
                assert(names_of(self.items@).to_set().contains(names_of(self.items@)[0]));
            } else {
                assert(names_of(self.items@).to_set() =~= Set::<Seq<char>>::empty());
            }
        }
        self.items.len() == 0
    }

    /// Puts `domain` into the set. Returns whether it was new.
    pub fn insert(&mut self, domain: String) -> (r: bool)
        ensures
            final(self)@ == old(self)@.insert(domain@),
            r == !old(self)@.contains(domain@),
            final(self).listing() == if r {
                old(self).listing().push(domain@)
            } else {
                old(self).listing()
            },
    {
        proof {
            use_type_invariant(&*self);
        }
        if self.index.contains(domain.as_str()) {
            assert(self.index@.insert(domain@) =~= self.index@);
            return false;
        }
        let ghost before = names_of(self.items@);
        let mut taken = DomainSet::new();
        std::mem::swap(self, &mut taken);
        let DomainSet { mut items, mut index } = taken;
        let copy = domain.clone();
        index.insert(copy);
        items.push(domain);
        proof {
            let after = names_of(items@);
            assert(after =~= before.push(domain@));
            assert(!before.contains(domain@)) by {
                if before.contains(domain@) {
                    assert(before.to_set().contains(domain@));
                }
            }
            assert(after.to_set() =~= before.to_set().insert(domain@)) by {
                assert forall|x: Seq<char>| after.to_set().contains(x) == before.to_set().insert(
                    domain@,
                ).contains(x) by {
                    if after.contains(x) {
                        let k = choose|k: int| 0 <= k < after.len() && after[k] == x;
                        if k < before.len() {
                            assert(before[k] == x);
                        }
                    }
                    if before.contains(x) {
                        let k = choose|k: int| 0 <= k < before.len() && before[k] == x;
                        assert(after[k] == x);
                    }
                    if x == domain@ {
                        assert(after[before.len() as int] == x);
                    }
                }
            }
        }
        *self = DomainSet { items, index };
        true
    }

    /// The domains of this set that are not in `other`.
    pub fn difference(&self, other: &DomainSet) -> (r: DomainSet)
        ensures
            r@ == self@.difference(other@),
    {
        proof {
            use_type_invariant(self);
        }
        let ghost all = names_of(self.items@);
        let mut out = DomainSet::new();
        let mut i: usize = 0;
        while i < self.items.len()
            invariant
                i <= self.items.len(),
                all == names_of(self.items@),
                out@ == all.take(i as int).to_set().difference(other@),
            decreases self.items.len() - i,
        {
            proof {
                assert(all.take(i + 1) == all.take(i as int).push(all[i as int]));
                all.take(i as int).lemma_push_to_set_commute(all[i as int]);
            }
            if !other.contains(self.items[i].as_str()) {
                out.insert(self.items[i].clone());
            }
            assert(out@ =~= all.take(i + 1).to_set().difference(other@));
            i += 1;
        }
        assert(all.take(all.len() as int) == all);
        out
    }

    /// The domains of the set, each once.
    pub fn items(&self) -> (r: &Vec<String>)
        ensures
            names_of(r@) == self.listing(),
            Self::lists(self.listing(), self@),
    {
        proof {
            use_type_invariant(self);
            vstd::seq_lib::seq_to_set_is_finite(names_of(self.items@));
            names_of(self.items@).unique_seq_to_set();
        }
        &self.items
    }

    /// The domains of the set, each once.
    pub fn into_vec(self) -> (r: Vec<String>)
        ensures
            names_of(r@) == self.listing(),
            Self::lists(self.listing(), self@),
    {
        proof {
            use_type_invariant(&self);
            vstd::seq_lib::seq_to_set_is_finite(names_of(self.items@));
            names_of(self.items@).unique_seq_to_set();
        }
        self.items
    }

    /// The set of the given domains.
    pub fn from_vec(domains: Vec<String>) -> (r: DomainSet)
        ensures
            r@ == names_of(domains@).to_set(),
    {
        let mut set = DomainSet::new();
        let mut domains = domains;
        let ghost all = names_of(domains@);
        let mut i: usize = 0;
        while i < domains.len()
            invariant
                i <= domains.len(),
                domains.len() == all.len(),
                forall|j: int| i <= j < domains.len() ==> (#[trigger] domains@[j])@ == all[j],
                set@ == all.take(i as int).to_set(),
            decreases domains.len() - i,
        {
            let mut domain = String::new();
            std::mem::swap(&mut domain, &mut domains[i]);
            proof {
                assert(all.take(i + 1) == all.take(i as int).push(all[i as int]));
                all.take(i as int).lemma_push_to_set_commute(all[i as int]);
            }
            set.insert(domain);
            i += 1;
        }
        assert(all.take(all.len() as int) == all);
        set
    }
}

/// A finished addlist.
#[derive(Eq, PartialEq, Debug)]
pub struct Addlist {
    /// The name that the addlist is configured under.
    pub name: String,
    /// The output lines, in their order.
    pub list: Vec<String>,
}

/// Where the domains of one addlist come from.
#[derive(Eq, PartialEq, Debug, Clone)]
pub struct AddlistSources {
    /// The addresses of the sources.
    pub addlist: Vec<String>,
    /// The addresses of the sources of the local whitelist, if there is one.
    pub whitelist: Option<Vec<String>>,
}

/// One addlist's name, with the configuration of the run.
pub struct AddlistConfig {
    /// The name that the addlist is configured under.
    pub name: String,
    /// The configuration of the run.
    pub config: Arc<Config>,
}

impl AddlistConfig {
    pub fn new(name: &str, config: Arc<Config>) -> (r: AddlistConfig)
        ensures
            r.name@ == name@,
            r.config == config,
    {
        AddlistConfig { name: name.to_owned(), config }
    }

    /// What stands in front of every output line: empty where the
    /// configuration sets no prefix.
    pub fn prefix(&self) -> (r: &str)
        ensures
            r@ == self.config.prefix_spec(),
    {
        match &self.config.prefix {
            Some(prefix) => prefix.as_str(),
            None => {
                proof {
                    reveal_strlit("");
                }
                assert(""@ =~= Seq::<char>::empty());
                ""
            },
        }
    }

    /// What stands behind every output line: empty where the configuration
    /// sets no suffix.
    pub fn suffix(&self) -> (r: &str)
        ensures
            r@ == self.config.suffix_spec(),
    {
        match &self.config.suffix {
            Some(suffix) => suffix.as_str(),
            None => {
                proof {
                    reveal_strlit("");
                }
                assert(""@ =~= Seq::<char>::empty());
                ""
            },
        }
    }
}

} // verus!
