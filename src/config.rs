use vstd::prelude::*;

use crate::table::{as_map, entries, has_key, keys_unique, lemma_value_at_index, position_of, value_of};
use crate::upstream::{DnsUpstream, SockAddr};

verus! {

/// The rule label that designates the default upstream.
pub open spec fn default_label() -> Seq<char> {
    "else"@
}

/// Why a configuration could not be loaded.
#[derive(Debug, Clone, PartialEq, Eq)]
pub enum ConfError {
    /// The configuration file is missing or unreadable.
    Io(String),
    /// The file is not well-formed, or a field does not decode to its type.
    Decode(String),
    /// There is no `else` rule, or it names a server that is not defined.
    NoDefault,
    /// A region rule names a server that is not defined; it carries that name.
    UndefinedServer(String),
}

/// The configuration as read from the file, before any cross-reference is checked.
#[derive(Debug, Clone)]
pub struct RawConf {
    pub listen: SockAddr,
    /// Server name to upstream; names are unique.
    pub server: Vec<(String, DnsUpstream)>,
    /// Region label to server name; labels are unique.
    pub rule: Vec<(String, String)>,
}

/// The raw configuration as plain values; the order of the rules is kept,
/// since it decides which undefined server is reported first.
pub struct RawModel {
    pub listen: SockAddr,
    pub server: Seq<(Seq<char>, DnsUpstream)>,
    pub rule: Seq<(Seq<char>, Seq<char>)>,
}

/// The resolved configuration as plain values.
pub struct ConfModel {
    pub listen: SockAddr,
    pub default: DnsUpstream,
    pub regions: Map<Seq<char>, DnsUpstream>,
}

/// The view of an executable rule table: label and server name by their characters.
pub open spec fn rule_entries(v: Seq<(String, String)>) -> Seq<(Seq<char>, Seq<char>)> {
    v.map_values(|p: (String, String)| (p.0@, p.1@))
}

proof fn lemma_rule_keys(v: Seq<(String, String)>, k: Seq<char>)
    ensures
        has_key(entries(v), k) == has_key(rule_entries(v), k),
{
    if has_key(entries(v), k) {
        let i = choose|i: int| 0 <= i < entries(v).len() && #[trigger] entries(v)[i].0 == k;
        assert(rule_entries(v)[i].0 == k);
    }
    if has_key(rule_entries(v), k) {
        let i = choose|i: int| 0 <= i < rule_entries(v).len() && #[trigger] rule_entries(v)[i].0 == k;
        assert(entries(v)[i].0 == k);
    }
}

/// The upstream entry `p` comes from one of the first `i` rules, other than
/// `else`, with the upstream that rule's server name stands for.
pub open spec fn from_rule_before(m: RawModel, p: (Seq<char>, DnsUpstream), i: int) -> bool {
    exists|j: int|
        0 <= j < i && (#[trigger] m.rule[j]).0 == p.0 && p.0 != default_label() && p.1
            == m.servers()[m.rule[j].1]
}

impl View for RawConf {
    type V = RawModel;

    open spec fn view(&self) -> RawModel {
        RawModel { listen: self.listen, server: entries(self.server@), rule: rule_entries(self.rule@) }
    }
}

impl RawModel {
    /// Server names are unique, and so are rule labels.
    pub open spec fn wf(self) -> bool {
        keys_unique(self.server) && keys_unique(self.rule)
    }

    pub open spec fn servers(self) -> Map<Seq<char>, DnsUpstream> {
        as_map(self.server)
    }

    pub open spec fn rules(self) -> Map<Seq<char>, Seq<char>> {
        as_map(self.rule)
    }

    /// There is an `else` rule and the server it names is defined.
    pub open spec fn has_default(self) -> bool {
        &&& self.rules().contains_key(default_label())
        &&& self.servers().contains_key(self.rules()[default_label()])
    }

    /// Every rule other than `else` names a defined server.
    pub open spec fn all_defined(self) -> bool {
        forall|k: Seq<char>|
            #[trigger] self.rules().contains_key(k) && k != default_label()
                ==> self.servers().contains_key(self.rules()[k])
    }

    /// The rule at index `i` is the first rule, other than `else`, whose
    /// server is not defined.
    pub open spec fn first_undefined(self, i: int) -> bool {
        &&& 0 <= i < self.rule.len()
        &&& self.rule[i].0 != default_label()
        &&& !self.servers().contains_key(self.rule[i].1)
        &&& forall|j: int|
            0 <= j < i && #[trigger] self.rule[j].0 != default_label()
                ==> self.servers().contains_key(self.rule[j].1)
    }

    /// What the configuration resolves to: each region label mapped to the
    /// upstream that its server name stands for, `else` left out.
    pub open spec fn resolved(self) -> ConfModel {
        ConfModel {
            listen: self.listen,
            default: self.servers()[self.rules()[default_label()]],
            regions: Map::new(
                |k: Seq<char>| self.rules().contains_key(k) && k != default_label(),
                |k: Seq<char>| self.servers()[self.rules()[k]],
            ),
        }
    }
}

/// The validated configuration the proxy runs on.
#[derive(Debug, Clone)]
pub struct DnsProxyConf {
    pub listen: SockAddr,
    /// Region label to upstream; labels are unique.
    pub resolv: Vec<(String, DnsUpstream)>,
    pub default: DnsUpstream,
}

impl View for DnsProxyConf {
    type V = ConfModel;

    open spec fn view(&self) -> ConfModel {
        ConfModel { listen: self.listen, default: self.default, regions: as_map(entries(self.resolv@)) }
    }
}

impl DnsProxyConf {
    /// Region labels are unique.
    pub open spec fn wf(&self) -> bool {
        keys_unique(entries(self.resolv@))
    }

    /// Resolves a raw configuration: takes out the `else` rule as the
    /// default, then resolves every other rule, in order, to the upstream
    /// its server name stands for. The first undefined name fails the load.
    pub fn new(raw: RawConf) -> (r: Result<DnsProxyConf, ConfError>)
        requires
            raw@.wf(),
        ensures
            r is Ok <==> raw@.has_default() && raw@.all_defined(),
            r == Err::<DnsProxyConf, ConfError>(ConfError::NoDefault) <==> !raw@.has_default(),
            match r {
                Ok(c) => c.wf() && c@ == raw@.resolved(),
                Err(ConfError::NoDefault) => true,
                Err(ConfError::UndefinedServer(name)) => raw@.has_default() && exists|i: int|
                    raw@.first_undefined(i) && #[trigger] raw@.rule[i].1 == name@,
                Err(_) => false,
            },
    {
        let ghost m = raw@;
        let else_key = "else".to_owned();
        let default = match position_of(&raw.rule, &else_key) {
            None => {
                proof {
                    lemma_rule_keys(raw.rule@, else_key@);
                }
                return Err(ConfError::NoDefault);
            },
            Some(d) => match position_of(&raw.server, &raw.rule[d].1) {
                None => {
                    proof {
                        lemma_value_at_index(m.rule, d as int);
                    }
                    return Err(ConfError::NoDefault);
                },
                Some(s) => {
                    proof {
                        lemma_value_at_index(m.rule, d as int);
                        lemma_value_at_index(m.server, s as int);
                    }
                    assert(else_key@ == default_label());
                    raw.server[s].1
                },
            },
        };
        let mut resolv: Vec<(String, DnsUpstream)> = Vec::new();
        let n = raw.rule.len();
        let mut i: usize = 0;
        while i < n
            invariant
                m == raw@,
                m.wf(),
                m.has_default(),
                default == m.resolved().default,
                else_key@ == default_label(),
                n == m.rule.len(),
                i <= n,
                keys_unique(entries(resolv@)),
                forall|j: int|
                    0 <= j < i && (#[trigger] m.rule[j]).0 != default_label()
                        ==> m.servers().contains_key(m.rule[j].1),
                forall|j: int|
                    0 <= j < i && (#[trigger] m.rule[j]).0 != default_label()
                        ==> has_key(entries(resolv@), m.rule[j].0),
                forall|t: int|
                    0 <= t < resolv@.len() ==> from_rule_before(m, #[trigger] entries(resolv@)[t], i as int),
            decreases n - i,
        {
            if !(raw.rule[i].0 == else_key) {
                match position_of(&raw.server, &raw.rule[i].1) {
                    None => {
                        proof {
                            lemma_value_at_index(m.rule, i as int);
                            assert(m.first_undefined(i as int));
                            assert(m.rules().contains_key(m.rule[i as int].0));
                        }
                        return Err(ConfError::UndefinedServer(raw.rule[i].1.clone()));
                    },
                    Some(s) => {
                        let ghost old_r = resolv@;
                        proof {
                            lemma_value_at_index(m.server, s as int);
                        }
                        resolv.push((raw.rule[i].0.clone(), raw.server[s].1));
                        proof {
                            let e = entries(resolv@);
                            assert(e =~= entries(old_r).push((m.rule[i as int].0, m.server[s as int].1)));
                            assert(has_key(e, m.rule[i as int].0)) by {
                                assert(e[old_r.len() as int].0 == m.rule[i as int].0);
                            }
                            assert forall|t: int| 0 <= t < old_r.len() implies #[trigger] e[t].0 != m.rule[i as int].0 by {
                                assert(entries(old_r)[t] == e[t]);
                                assert(from_rule_before(m, entries(old_r)[t], i as int));
                                let j = choose|j: int|
                                    0 <= j < i && (#[trigger] m.rule[j]).0 == entries(old_r)[t].0
                                        && entries(old_r)[t].0 != default_label() && entries(old_r)[t].1
                                        == m.servers()[m.rule[j].1];
                                assert(j != i);
                            }
                            assert forall|j: int|
                                0 <= j < i && (#[trigger] m.rule[j]).0 != default_label()
                                    implies has_key(e, m.rule[j].0) by {
                                let t = choose|t: int| 0 <= t < entries(old_r).len() && #[trigger] entries(old_r)[t].0 == m.rule[j].0;
                                assert(e[t] == entries(old_r)[t]);
                            }
                            assert forall|t: int| 0 <= t < resolv@.len() implies from_rule_before(m, #[trigger] e[t], i + 1) by {
                                if t < old_r.len() {
                                    assert(e[t] == entries(old_r)[t]);
                                    assert(from_rule_before(m, entries(old_r)[t], i as int));
                                    let j = choose|j: int|
                                        0 <= j < i && (#[trigger] m.rule[j]).0 == e[t].0 && e[t].0 != default_label()
                                            && e[t].1 == m.servers()[m.rule[j].1];
                                    assert(m.rule[j].0 == e[t].0);
                                } else {
                                    assert(m.rule[i as int].0 == e[t].0);
                                }
                            }
                        }
                    },
                }
            } else {
                let ghost e = entries(resolv@);
                proof {
                    assert forall|t: int| 0 <= t < resolv@.len() implies from_rule_before(m, #[trigger] e[t], i + 1) by {
                        assert(from_rule_before(m, e[t], i as int));
                        let j = choose|j: int|
                            0 <= j < i && (#[trigger] m.rule[j]).0 == e[t].0 && e[t].0 != default_label()
                                && e[t].1 == m.servers()[m.rule[j].1];
                        assert(m.rule[j].0 == e[t].0);
                    }
                }
            }
            i = i + 1;
        }
        let ghost e = entries(resolv@);
        proof {
            assert forall|k: Seq<char>|
                #[trigger] m.rules().contains_key(k) && k != default_label()
                    implies m.servers().contains_key(m.rules()[k]) && has_key(e, k) by {
                let j = choose|j: int| 0 <= j < m.rule.len() && #[trigger] m.rule[j].0 == k;
                lemma_value_at_index(m.rule, j);
                assert(m.rule[j].0 != default_label());
            }
            let regions = m.resolved().regions;
            assert forall|k: Seq<char>| #[trigger] as_map(e).contains_key(k) implies regions.contains_key(k)
                && as_map(e)[k] == regions[k] by {
                let t = choose|t: int| 0 <= t < e.len() && #[trigger] e[t].0 == k;
                lemma_value_at_index(e, t);
                assert(from_rule_before(m, e[t], i as int));
                let j = choose|j: int|
                    0 <= j < i && (#[trigger] m.rule[j]).0 == e[t].0 && e[t].0 != default_label()
                        && e[t].1 == m.servers()[m.rule[j].1];
                lemma_value_at_index(m.rule, j);
            }
            assert(as_map(e) =~= regions);
        }
        Ok(DnsProxyConf { listen: raw.listen, resolv, default })
    }
}

impl DnsProxyConf {
    /// The upstream that routes a region, if a rule names it.
    pub fn region(&self, label: &String) -> (r: Option<DnsUpstream>)
        requires
            self.wf(),
        ensures
            r == (if self@.regions.contains_key(label@) {
                Some(self@.regions[label@])
            } else {
                None::<DnsUpstream>
            }),
    {
        match position_of(&self.resolv, label) {
            Some(t) => {
                proof {
                    lemma_value_at_index(entries(self.resolv@), t as int);
                }
                Some(self.resolv[t].1)
            },
            None => None,
        }
    }
}

/// Every region of a resolved configuration comes from a rule whose server
/// is defined, and is routed to exactly that server's upstream.
pub proof fn lemma_regions_refer_to_servers(m: RawModel)
    requires
        m.wf(),
        m.has_default(),
        m.all_defined(),
    ensures
        forall|k: Seq<char>| #[trigger] m.resolved().regions.contains_key(k) ==> {
            &&& m.rules().contains_key(k)
            &&& m.servers().contains_key(m.rules()[k])
            &&& m.resolved().regions[k] == m.servers()[m.rules()[k]]
        },
        m.servers().contains_key(m.rules()[default_label()]),
        m.resolved().default == m.servers()[m.rules()[default_label()]],
{
}

/// Resolving fails exactly when the `else` rule is missing, when it names an
/// undefined server, or when some other rule names an undefined server.
pub proof fn lemma_failure_causes(m: RawModel)
    requires
        m.wf(),
    ensures
        !(m.has_default() && m.all_defined()) <==> {
            ||| !m.rules().contains_key(default_label())
            ||| !m.servers().contains_key(m.rules()[default_label()])
            ||| exists|k: Seq<char>|
                #[trigger] m.rules().contains_key(k) && k != default_label()
                    && !m.servers().contains_key(m.rules()[k])
        },
{
}

/// The reserved label `else` is never a region of a resolved configuration.
pub proof fn lemma_default_label_not_a_region(m: RawModel)
    ensures
        !m.resolved().regions.contains_key(default_label()),
{
}

/// Resolving the same raw configuration twice gives equal configurations.
pub proof fn lemma_resolve_twice(
    raw1: RawConf,
    raw2: RawConf,
    c1: DnsProxyConf,
    c2: DnsProxyConf,
)
    requires
        raw1@ == raw2@,
        c1@ == raw1@.resolved(),
        c2@ == raw2@.resolved(),
    ensures
        c1@ == c2@,
{
}

} // verus!
