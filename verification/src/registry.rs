//! The deployment registry: the sorted, duplicate-free sequence of
//! (environment, country) pairs derived from the connection configurations.
//! Its order fixes the column order of every report of a run.

use vstd::prelude::*;

use crate::models::{connect_key, deploy_key, deploy_lt, ConnectInfo, Deploy};
use crate::text::{lemma_lex2_lt_connected, lemma_lex2_lt_trans, str_eq, str_lt};

verus! {

/// Whether a sequence of deployments is strictly ascending by
/// (environment, country); strictness also means no duplicates.
pub open spec fn deploys_sorted(s: Seq<Deploy>) -> bool {
    forall|i: int, j: int| 0 <= i < j < s.len() ==> deploy_lt(#[trigger] s[i], #[trigger] s[j])
}

/// Whether some deployment in `s` has the key `k`.
pub open spec fn has_deploy_key(s: Seq<Deploy>, k: (Seq<char>, Seq<char>)) -> bool {
    exists|j: int| 0 <= j < s.len() && deploy_key(#[trigger] s[j]) == k
}

/// Whether some configuration in `cs` belongs to the deployment key `k`.
pub open spec fn key_from_configs(cs: Seq<ConnectInfo>, k: (Seq<char>, Seq<char>)) -> bool {
    exists|i: int| 0 <= i < cs.len() && connect_key(#[trigger] cs[i]) == k
}

fn deploy_lt_exec(a: &Deploy, b: &Deploy) -> (r: bool)
    ensures
        r == deploy_lt(*a, *b),
{
    if str_lt(a.environment.as_str(), b.environment.as_str()) {
        true
    } else if str_eq(a.environment.as_str(), b.environment.as_str()) {
        str_lt(a.country.as_str(), b.country.as_str())
    } else {
        false
    }
}

fn deploy_key_eq_exec(a: &Deploy, b: &Deploy) -> (r: bool)
    ensures
        r == (deploy_key(*a) == deploy_key(*b)),
{
    let e = str_eq(a.environment.as_str(), b.environment.as_str());
    let c = str_eq(a.country.as_str(), b.country.as_str());
    e && c
}

/// Projects every configuration to its deployment, removes duplicates and
/// sorts ascending by (environment, country). The result is exactly the set
/// of configured deployment keys, in strictly ascending order.
pub fn build_deploy(configs: &Vec<ConnectInfo>) -> (r: Vec<Deploy>)
    ensures
        deploys_sorted(r@),
        forall|i: int|
            0 <= i < configs@.len() ==> has_deploy_key(r@, connect_key(#[trigger] configs@[i])),
        forall|j: int|
            0 <= j < r@.len() ==> key_from_configs(configs@, deploy_key(#[trigger] r@[j])),
{
    let mut r: Vec<Deploy> = Vec::new();
    let mut idx: usize = 0;
    while idx < configs.len()
        invariant
            idx <= configs@.len(),
            deploys_sorted(r@),
            forall|i: int|
                0 <= i < idx ==> has_deploy_key(r@, connect_key(#[trigger] configs@[i])),
            forall|j: int|
                0 <= j < r@.len() ==> key_from_configs(configs@, deploy_key(#[trigger] r@[j])),
        decreases configs@.len() - idx,
    {
        let d = configs[idx].to_deploy();
        let mut j: usize = 0;
        while j < r.len() && deploy_lt_exec(&r[j], &d)
            invariant
                j <= r@.len(),
                forall|k: int| 0 <= k < j ==> deploy_lt(#[trigger] r@[k], d),
            decreases r@.len() - j,
        {
            j = j + 1;
        }
        let present = j < r.len() && deploy_key_eq_exec(&r[j], &d);
        if present {
            proof {
                assert(deploy_key(r@[j as int]) == connect_key(configs@[idx as int]));
            }
        } else {
            proof {
                if j < r@.len() {
                    if !deploy_lt(d, r@[j as int]) {
                        lemma_lex2_lt_connected(deploy_key(d), deploy_key(r@[j as int]));
                        assert(false);
                    }
                }
            }
            let ghost old_r: Seq<Deploy> = r@;
            r.insert(j, d);
            proof {
                assert forall|p: int| 0 <= p < r@.len() implies r@[p] == (if p < j {
                    old_r[p]
                } else if p == j {
                    d
                } else {
                    old_r[p - 1]
                }) by {}
                assert forall|p: int, q: int|
                    0 <= p < q < r@.len() implies deploy_lt(r@[p], r@[q]) by {
                    if q < j {
                    } else if p < j && q == j {
                    } else if p < j && q > j {
                    } else if p == j && q > j {
                        if q - 1 > j {
                            lemma_lex2_lt_trans(
                                deploy_key(d),
                                deploy_key(old_r[j as int]),
                                deploy_key(old_r[q - 1]),
                            );
                        }
                    } else {
                    }
                }
                assert(deploys_sorted(r@));
                assert forall|i: int|
                    0 <= i < idx + 1 implies has_deploy_key(
                    r@,
                    connect_key(#[trigger] configs@[i]),
                ) by {
                    if i < idx {
                        let k0 = choose|k0: int|
                            0 <= k0 < old_r.len() && deploy_key(old_r[k0]) == connect_key(
                                configs@[i],
                            );
                        if k0 < j {
                            assert(deploy_key(r@[k0]) == connect_key(configs@[i]));
                        } else {
                            assert(deploy_key(r@[k0 + 1]) == connect_key(configs@[i]));
                        }
                    } else {
                        assert(deploy_key(r@[j as int]) == connect_key(configs@[i]));
                    }
                }
                assert forall|q: int| 0 <= q < r@.len() implies key_from_configs(
                    configs@,
                    deploy_key(#[trigger] r@[q]),
                ) by {
                    if q < j {
                        assert(r@[q] == old_r[q]);
                        assert(key_from_configs(configs@, deploy_key(old_r[q])));
                    } else if q == j {
                        assert(connect_key(configs@[idx as int]) == deploy_key(r@[q]));
                        assert(key_from_configs(configs@, deploy_key(r@[q])));
                    } else {
                        assert(r@[q] == old_r[q - 1]);
                        assert(key_from_configs(configs@, deploy_key(old_r[q - 1])));
                    }
                }
            }
        }
        idx = idx + 1;
    }
    r
}

} // verus!
