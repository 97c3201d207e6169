//! The configuration of a run.

use crate::aggregate::data::{names_of, AddlistSources};
use crate::text::same_text;
use vstd::prelude::*;

verus! {

/// Calls `num_cpus::get`, the number of logical cores that this process may
/// use. It depends on the host, so nothing is claimed of it.
#[verifier::external_body]
pub(crate) fn logical_cores() -> usize {
    num_cpus::get()
}

/// What a run is told: which addlists to build from which sources, and how
/// to write them.
#[derive(Debug, Clone)]
pub struct Config {
    /// The version of the configuration's layout.
    pub version: u8,
    /// How many workers to run, if given: not zero.
    pub threads: Option<usize>,
    /// The addlists by name, each name once.
    pub addlist: Vec<(String, AddlistSources)>,
    /// The sources of the global whitelist, if there is one.
    pub whitelist: Option<Vec<String>>,
    /// The most lines that one output file may hold, if given: not zero.
    pub size: Option<usize>,
    /// The directory that the output files go to.
    pub path: String,
    /// What stands in front of every output line.
    pub prefix: Option<String>,
    /// What stands behind every output line.
    pub suffix: Option<String>,
    /// The pause before each request in milliseconds, if given: not zero.
    pub delay: Option<u64>,
}

/// Half of the cores, and at least one.
pub open spec fn default_threads(cores: usize) -> usize {
    if cores / 2 >= 1 {
        cores / 2
    } else {
        1
    }
}

impl Config {
    /// The names of the configured addlists, in their order.
    pub open spec fn names(self) -> Seq<Seq<char>> {
        Seq::new(self.addlist@.len(), |i: int| self.addlist@[i].0@)
    }

    /// No count is zero and no addlist is named twice.
    pub open spec fn wf(self) -> bool {
        &&& self.threads != Some(0usize)
        &&& self.size != Some(0usize)
        &&& self.delay != Some(0u64)
        &&& self.names().no_duplicates()
    }

    /// The line prefix, empty where none is set.
    pub open spec fn prefix_spec(self) -> Seq<char> {
        match self.prefix {
            Some(p) => p@,
            None => Seq::empty(),
        }
    }

    /// The line suffix, empty where none is set.
    pub open spec fn suffix_spec(self) -> Seq<char> {
        match self.suffix {
            Some(s) => s@,
            None => Seq::empty(),
        }
    }

    /// The sources of the addlist `name`: the first entry of that name, and
    /// nothing where no entry has it.
    pub fn sources(&self, name: &str) -> (r: Option<&AddlistSources>)
        ensures
            match r {
                Some(s) => exists|i: int|
                    0 <= i < self.addlist@.len() && #[trigger] self.names()[i] == name@ && *s
                        == self.addlist@[i].1 && !self.names().take(i).contains(name@),
                None => !self.names().contains(name@),
            },
    {
        let mut i: usize = 0;
        while i < self.addlist.len()
            invariant
                i <= self.addlist.len(),
                !self.names().take(i as int).contains(name@),
            decreases self.addlist.len() - i,
        {
            if same_text(self.addlist[i].0.as_str(), name) {
                assert(self.names()[i as int] == name@);
                return Some(&self.addlist[i].1);
            }
            proof {
                let upto = self.names().take(i + 1);
                assert(upto == self.names().take(i as int).push(self.names()[i as int]));
                if upto.contains(name@) {
                    let k = choose|k: int| 0 <= k < upto.len() && upto[k] == name@;
                    if k < i {
                        assert(self.names().take(i as int)[k] == name@);
                    }
                }
            }
            i += 1;
        }
        assert(self.names().take(self.names().len() as int) == self.names());
        None
    }

    /// Whether this is the configuration that is written out where none is
    /// found, on a host with the given number of logical cores: two
    /// addlists with two sources each, the first with a local whitelist,
    /// a global whitelist, and half of the cores as workers.
    pub open spec fn is_default_for(self, cores: usize) -> bool {
        &&& self.wf()
        &&& self.version == 1
        &&& self.threads == Some(default_threads(cores))
        &&& self.size == Some(1_000_000usize)
        &&& self.delay == Some(1_000u64)
        &&& self.path@ == "./addlists"@
        &&& self.prefix matches Some(p) && p@ == "127.0.0.1 "@
        &&& self.suffix matches Some(s) && s@ == "# Some text here."@
        &&& self.names() == seq!["AddlistOne"@, "AddlistTwo"@]
        &&& self.addlist@.len() == 2
        &&& names_of(self.addlist@[0].1.addlist@) == seq![
            "https://1.example.local"@,
            "https://2.example.local"@,
        ]
        &&& self.addlist@[0].1.whitelist matches Some(w) && names_of(w@) == seq![
            "https://local.whitelist.local"@,
            "https://local.whitelist2.local"@,
        ]
        &&& names_of(self.addlist@[1].1.addlist@) == seq![
            "https://3.example.local"@,
            "https://4.example.local"@,
        ]
        &&& self.addlist@[1].1.whitelist is None
        &&& self.whitelist matches Some(w) && names_of(w@) == seq![
            "https://global.whitelist1.local"@,
            "https://global.whitelist2.local"@,
        ]
    }

    /// The configuration that is written out where none is found, for a
    /// host with the given number of logical cores.
    pub fn default_for(cores: usize) -> (r: Config)
        ensures
            r.is_default_for(cores),
    {
        let one = AddlistSources {
            addlist: vec![
                "https://1.example.local".to_owned(),
                "https://2.example.local".to_owned(),
            ],
            whitelist: Some(
                vec![
                    "https://local.whitelist.local".to_owned(),
                    "https://local.whitelist2.local".to_owned(),
                ],
            ),
        };
        let two = AddlistSources {
            addlist: vec![
                "https://3.example.local".to_owned(),
                "https://4.example.local".to_owned(),
            ],
            whitelist: None,
        };
        let half = cores / 2;
        let threads: usize = if half >= 1 {
            half
        } else {
            1
        };
        let r = Config {
            version: 1,
            threads: Some(threads),
            addlist: vec![("AddlistOne".to_owned(), one), ("AddlistTwo".to_owned(), two)],
            whitelist: Some(
                vec![
                    "https://global.whitelist1.local".to_owned(),
                    "https://global.whitelist2.local".to_owned(),
                ],
            ),
            size: Some(1_000_000),
            path: "./addlists".to_owned(),
            prefix: Some("127.0.0.1 ".to_owned()),
            suffix: Some("# Some text here.".to_owned()),
            delay: Some(1_000),
        };
        proof {
            reveal_strlit("AddlistOne");
            reveal_strlit("AddlistTwo");
            assert(r.names() =~= seq!["AddlistOne"@, "AddlistTwo"@]);
            assert("AddlistOne"@[7] != "AddlistTwo"@[7]);
            assert(names_of(r.addlist@[0].1.addlist@) =~= seq![
                "https://1.example.local"@,
                "https://2.example.local"@,
            ]);
            assert(names_of(r.addlist@[1].1.addlist@) =~= seq![
                "https://3.example.local"@,
                "https://4.example.local"@,
            ]);
            assert(names_of(r.addlist@[0].1.whitelist->0@) =~= seq![
                "https://local.whitelist.local"@,
                "https://local.whitelist2.local"@,
            ]);
            assert(names_of(r.whitelist->0@) =~= seq![
                "https://global.whitelist1.local"@,
                "https://global.whitelist2.local"@,
            ]);
        }
        r
    }
}

impl Default for Config {
    /// The default configuration for this host. How many logical cores the
    /// host has is asked of the system, so the result is what `default_for`
    /// returns for some number of cores.
    fn default() -> (r: Config)
        ensures
            exists|cores: usize| #[trigger] r.is_default_for(cores),
    {
        let cores = logical_cores();
        let r = Config::default_for(cores);
        assert(r.is_default_for(cores));
        r
    }
}

} // verus!
