//! Named environments of variables: `$shared` ones for every environment,
//! overridden by those of the active environment.
use vstd::prelude::*;
use crate::strmap::StrMap;
use crate::text::{chars_eq, chars_of, string_of_str, strings_view};

verus! {

/// The `rest-client` settings of a workspace.
pub struct RestClientSettings {
    pub active_environment: Option<String>,
    pub environments: StrMap<StrMap<String>>,
    pub allowed_process_env_vars: Vec<String>,
}

impl Default for RestClientSettings {
    fn default() -> (s: Self)
        ensures
            s.active_environment is None,
            s.environments@ == Map::<Seq<char>, Map<Seq<char>, Seq<char>>>::empty(),
            s.allowed_process_env_vars@.len() == 0,
    {
        RestClientSettings {
            active_environment: None,
            environments: StrMap::new(),
            allowed_process_env_vars: Vec::new(),
        }
    }
}

/// The variables of environment `name`, none if there is no such
/// environment.
pub open spec fn env_vars(
    envs: Map<Seq<char>, Map<Seq<char>, Seq<char>>>,
    name: Seq<char>,
) -> Map<Seq<char>, Seq<char>> {
    if envs.dom().contains(name) {
        envs[name]
    } else {
        Map::empty()
    }
}

/// `$shared` variables with those of the active environment on top.
pub open spec fn spec_resolved_variables(
    envs: Map<Seq<char>, Map<Seq<char>, Seq<char>>>,
    active: Option<Seq<char>>,
) -> Map<Seq<char>, Seq<char>> {
    env_vars(envs, "$shared"@).union_prefer_right(
        match active {
            Some(n) => env_vars(envs, n),
            None => Map::empty(),
        },
    )
}

impl RestClientSettings {
    pub open spec fn active_view(&self) -> Option<Seq<char>> {
        match self.active_environment {
            Some(n) => Some(n@),
            None => None,
        }
    }

    /// The variables in effect: `$shared` ones, overridden by those of the
    /// active environment.
    pub fn resolved_variables(&self) -> (r: StrMap<String>)
        ensures
            r@ == spec_resolved_variables(self.environments@, self.active_view()),
    {
        let mut vars: StrMap<String> = StrMap::new();
        match self.environments.get("$shared") {
            Some(shared) => vars.extend_from(shared),
            None => {},
        }
        assert(vars@ =~= env_vars(self.environments@, "$shared"@));
        let ghost base = vars@;
        match &self.active_environment {
            Some(name) => match self.environments.get(name.as_str()) {
                Some(env) => vars.extend_from(env),
                None => {
                    assert(base.union_prefer_right(Map::empty()) =~= base);
                },
            },
            None => {
                assert(base.union_prefer_right(Map::empty()) =~= base);
            },
        }
        vars
    }

    /// The environment names other than `$shared`, in the order the
    /// settings list them.
    pub fn environment_names(&self) -> (r: Vec<String>)
        ensures
            strings_view(r@) == without_shared(self.environments.key_order()),
            strings_view(r@).no_duplicates(),
            forall|k: Seq<char>| #![auto] strings_view(r@).contains(k) <==> (self.environments@.dom().contains(k) && k != "$shared"@),
    {
        self.environments.key_order_facts();
        let ghost ko = self.environments.key_order();
        let shared = chars_of("$shared");
        let n = self.environments.len();
        let mut r: Vec<String> = Vec::new();
        let mut i: usize = 0;
        assert(ko.take(0) =~= Seq::<Seq<char>>::empty());
        assert(strings_view(r@) =~= without_shared(ko.take(0)));
        while i < n
            invariant
                n == ko.len(),
                ko == self.environments.key_order(),
                shared@ == "$shared"@,
                i <= n,
                strings_view(r@) == without_shared(ko.take(i as int)),
            decreases n - i,
        {
            let (k, _) = self.environments.entry(i);
            let ghost before = strings_view(r@);
            assert(ko.take(i + 1).drop_last() =~= ko.take(i as int));
            assert(ko.take(i + 1).last() == k@);
            let kc = chars_of(k.as_str());
            if !chars_eq(&kc, &shared) {
                r.push(k.clone());
                assert(strings_view(r@) =~= before.push(k@));
            } else {
                assert(strings_view(r@) =~= before);
            }
            i += 1;
        }
        assert(ko.take(n as int) =~= ko);
        proof {
            lemma_without_shared(ko);
            assert forall|k: Seq<char>| #![auto] strings_view(r@).contains(k) <==> (self.environments@.dom().contains(k) && k != "$shared"@) by {
                assert(without_shared(ko).contains(k) <==> (ko.contains(k) && k != "$shared"@));
                assert(self.environments@.dom().contains(k) <==> ko.contains(k));
            }
        }
        r
    }
}

/// The names other than `$shared`, in order.
pub open spec fn without_shared(ks: Seq<Seq<char>>) -> Seq<Seq<char>>
    decreases ks.len(),
{
    if ks.len() == 0 {
        seq![]
    } else if ks.last() == "$shared"@ {
        without_shared(ks.drop_last())
    } else {
        without_shared(ks.drop_last()).push(ks.last())
    }
}

pub proof fn lemma_without_shared(ks: Seq<Seq<char>>)
    ensures
        forall|k: Seq<char>| #![auto] without_shared(ks).contains(k) <==> (ks.contains(k) && k != "$shared"@),
        ks.no_duplicates() ==> without_shared(ks).no_duplicates(),
    decreases ks.len(),
{
    if ks.len() > 0 {
        let init = ks.drop_last();
        let x = ks.last();
        let w = without_shared(init);
        lemma_without_shared(init);
        assert(ks =~= init.push(x));
        assert forall|k: Seq<char>| #![auto] without_shared(ks).contains(k) <==> (ks.contains(k) && k != "$shared"@) by {
            if ks.contains(k) {
                let j = ks.index_of(k);
                if j < init.len() {
                    assert(init[j] == k);
                }
            }
            if init.contains(k) {
                let j = init.index_of(k);
                assert(ks[j] == k);
            }
            assert(ks[ks.len() - 1] == x);
            if x != "$shared"@ {
                let wp = w.push(x);
                assert(without_shared(ks) == wp);
                if wp.contains(k) {
                    let j = wp.index_of(k);
                    if j < w.len() {
                        assert(w[j] == k);
                    }
                }
                if w.contains(k) {
                    let j = w.index_of(k);
                    assert(wp[j] == k);
                }
                assert(wp[w.len() as int] == x);
            } else {
                assert(without_shared(ks) == w);
            }
        }
        if ks.no_duplicates() {
            assert(init.no_duplicates()) by {
                assert forall|a: int, b: int| 0 <= a < init.len() && 0 <= b < init.len() && a != b implies init[a] != init[b] by {
                    assert(init[a] == ks[a] && init[b] == ks[b]);
                }
            }
            if x != "$shared"@ {
                assert(!init.contains(x)) by {
                    if init.contains(x) {
                        let j = init.index_of(x);
                        assert(ks[j] == ks[ks.len() - 1]);
                    }
                }
                assert(!w.contains(x));
                assert(w.push(x).no_duplicates()) by {
                    assert forall|a: int, b: int| 0 <= a < w.len() + 1 && 0 <= b < w.len() + 1 && a != b implies w.push(x)[a] != w.push(x)[b] by {
                        if a == w.len() {
                            assert(w.contains(w[b]));
                        } else if b == w.len() {
                            assert(w.contains(w[a]));
                        }
                    }
                }
            }
        }
    }
}

/// The active environment's value wins over a `$shared` one, and a
/// `$shared` value the active environment does not set stays in effect.
pub proof fn lemma_active_overrides_shared(
    envs: Map<Seq<char>, Map<Seq<char>, Seq<char>>>,
    active: Seq<char>,
    key: Seq<char>,
)
    ensures
        env_vars(envs, active).dom().contains(key) ==> spec_resolved_variables(envs, Some(active))[key]
            == env_vars(envs, active)[key],
        (env_vars(envs, "$shared"@).dom().contains(key) && !env_vars(envs, active).dom().contains(key))
            ==> spec_resolved_variables(envs, Some(active))[key] == env_vars(envs, "$shared"@)[key],
        spec_resolved_variables(envs, Some(active)).dom().contains(key) <==> (env_vars(
            envs,
            active,
        ).dom().contains(key) || env_vars(envs, "$shared"@).dom().contains(key)),
{
}

} // verus!
