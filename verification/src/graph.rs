//! The profile graph: who turns a feature on, and what the graph settles that a target may not
//! expect.

use vstd::prelude::*;

use crate::errors::ProfileError;
use crate::name::{FeatureName, ProfileName};
use crate::profile::{FeatureRef, Manifest};
use crate::source::{Source, source_text, source_view};
use crate::order::lex_le;
use crate::text::cat;

verus! {

/// Who turned a feature on.
#[derive(Debug, PartialEq, Eq, PartialOrd, Ord, Hash)]
pub enum Enabler {
    /// The target, in the layer's `features`.
    Target,
    /// The profile's `default` list.
    Default,
    /// A profile that requires it, in its `[requires]` entry.
    Requires(ProfileName),
    /// A feature: of a profile that requires it, or of the profile itself.
    Feature {
        /// The profile the feature is of.
        profile: ProfileName,
        /// The feature.
        feature: FeatureName,
    },
}

/// Who turned a feature on, as written: `target`, `default`, `rust`, or `rust/docs`.
pub open spec fn enabler_text(e: Enabler) -> Seq<char> {
    match e {
        Enabler::Target => "target"@,
        Enabler::Default => "default"@,
        Enabler::Requires(p) => p@,
        Enabler::Feature { profile, feature } => profile@ + "/"@ + feature@,
    }
}

impl Clone for Enabler {
    fn clone(&self) -> (out: Self)
        ensures
            out == *self,
    {
        match self {
            Enabler::Target => Enabler::Target,
            Enabler::Default => Enabler::Default,
            Enabler::Requires(p) => Enabler::Requires(p.clone()),
            Enabler::Feature { profile, feature } => Enabler::Feature { profile: profile.clone(), feature: feature.clone() },
        }
    }
}

impl Enabler {
    /// As written: `target`, `default`, `rust`, or `rust/docs`.
    pub fn to_string(&self) -> (r: String)
        ensures
            r@ == enabler_text(*self),
    {
        match self {
            Enabler::Target => "target".to_owned(),
            Enabler::Default => "default".to_owned(),
            Enabler::Requires(p) => p.as_str().to_owned(),
            Enabler::Feature { profile, feature } => {
                let out = cat(profile.as_str(), "/");
                cat(out.as_str(), feature.as_str())
            },
        }
    }
}

/// Something the graph settled that the target may not expect.
#[derive(Debug, PartialEq, Eq)]
pub enum Warning {
    /// A layer sets `default-features = false`, and a profile that requires it turns them on.
    DefaultsOn {
        /// The layer.
        profile: ProfileName,
        /// The profile that turns them on.
        by: ProfileName,
    },
}

/// A profile of the graph, as its order sees it: its name, and its requirements that are active.
#[derive(Debug)]
pub struct Vertex {
    /// The profile.
    pub name: ProfileName,
    /// Its active requirements, by name, in name order.
    pub active: Vec<ProfileName>,
}

/// Where the vertex named `n` is, its first.
pub open spec fn index_of(g: Seq<Vertex>, n: Seq<char>) -> Option<int> {
    crate::text::first_set(places(g, n))
}

/// Each vertex's place, where it is named `n`.
pub open spec fn places(g: Seq<Vertex>, n: Seq<char>) -> Seq<Option<int>> {
    Seq::new(g.len(), |k: int| if g[k].name@ == n {
        Some(k)
    } else {
        None
    })
}

/// A vertex found by name is in the graph, with that name.
pub proof fn lemma_index_in(g: Seq<Vertex>, n: Seq<char>)
    ensures
        index_of(g, n) matches Some(b) ==> 0 <= b < g.len() && g[b].name@ == n,
{
    let all = places(g, n);
    crate::text::lemma_first_set_in(all);
    if let Some(b) = index_of(g, n) {
        let k = choose|k: int| 0 <= k < all.len() && all[k] == Some(b);
    }
}

/// Whether `b` is a requirement of `a` that the graph holds.
pub open spec fn edge(g: Seq<Vertex>, a: int, b: int) -> bool {
    0 <= a < g.len() && exists|k: int| 0 <= k < g[a].active@.len() && index_of(g, (#[trigger] g[a].active@[k])@) == Some(b)
}

/// Where each of `order` is.
pub open spec fn placed(order: Seq<usize>, x: int) -> bool {
    exists|k: int| 0 <= k < order.len() && order[k] as int == x
}

/// Whether every vertex of `order` comes after each requirement it has: each requirement before
/// its requirers.
pub open spec fn topological(g: Seq<Vertex>, order: Seq<usize>) -> bool {
    forall|i: int, b: int| 0 <= i < order.len() && edge(g, order[i] as int, b) ==> exists|j: int| 0 <= j < i && order[j] as int == b
}

/// Where the vertex named `n` is.
fn find_vertex(g: &Vec<Vertex>, n: &ProfileName) -> (r: Option<usize>)
    ensures
        match r {
            Some(k) => k < g@.len() && index_of(g@, n@) == Some(k as int),
            None => index_of(g@, n@) is None,
        },
{
    let ghost all = places(g@, n@);
    let mut k: usize = 0;
    while k < g.len()
        invariant
            k <= g@.len(),
            all == places(g@, n@),
            crate::text::first_set(all.take(k as int)) is None,
        decreases g@.len() - k,
    {
        proof {
            crate::text::lemma_first_set_step(all, k as int);
        }
        if g[k].name.same(n) {
            proof {
                crate::text::lemma_first_set_prefix(all, k + 1);
            }
            return Some(k);
        }
        k += 1;
    }
    assert(all.take(g@.len() as int) == all);
    None
}

/// Whether `done` and `order` agree: the vertices done are those placed, each once, after its
/// requirements.
pub open spec fn settled(g: Seq<Vertex>, done: Seq<bool>, order: Seq<usize>) -> bool {
    &&& done.len() == g.len()
    &&& forall|k: int| 0 <= k < order.len() ==> (#[trigger] order[k]) < g.len() && done[order[k] as int]
    &&& forall|x: int| 0 <= x < g.len() && #[trigger] done[x] ==> placed(order, x)
    &&& forall|a: int, b: int| 0 <= a < b < order.len() ==> (#[trigger] order[a]) != (#[trigger] order[b])
    &&& topological(g, order)
}

/// A sequence of distinct indices below `n` has at most `n` of them.
proof fn lemma_few(s: Seq<usize>, n: int)
    requires
        n >= 0,
        forall|a: int, b: int| 0 <= a < b < s.len() ==> s[a] != s[b],
        forall|k: int| 0 <= k < s.len() ==> (s[k] as int) < n,
    ensures
        s.len() <= n,
{
    let t = s.map_values(|x: usize| x as int);
    assert(t.no_duplicates()) by {
        assert forall|a: int, b: int| 0 <= a < t.len() && 0 <= b < t.len() && a != b implies t[a] != t[b] by {
            if a < b {
                assert(s[a] != s[b]);
            } else {
                assert(s[b] != s[a]);
            }
        }
    }
    t.unique_seq_to_set();
    vstd::set_lib::lemma_int_range(0, n);
    assert(t.to_set().subset_of(vstd::set_lib::set_int_range(0, n))) by {
        assert forall|x: int| t.to_set().contains(x) implies vstd::set_lib::set_int_range(0, n).contains(x) by {
            let k = choose|k: int| 0 <= k < t.len() && t[k] == x;
        }
    }
    vstd::set_lib::lemma_len_subset(t.to_set(), vstd::set_lib::set_int_range(0, n));
}

/// Whether each vertex of `path` requires the next.
pub open spec fn chained(g: Seq<Vertex>, path: Seq<usize>) -> bool {
    forall|k: int| 0 <= k < path.len() - 1 ==> edge(g, path[k] as int, #[trigger] path[k + 1] as int)
}

/// Visits the vertex at `at`: each of its requirements first, depth first, then it; `path` holds
/// the vertices being visited, each requiring the next, the last requiring `at`. A requirement on
/// the path is a cycle, returned round from where it starts, that vertex again last.
fn visit(g: &Vec<Vertex>, at: usize, done: &mut Vec<bool>, path: &mut Vec<usize>, order: &mut Vec<usize>) -> (r: Result<(), Vec<usize>>)
    requires
        at < g@.len(),
        settled(g@, old(done)@, old(order)@),
        forall|k: int| 0 <= k < old(path)@.len() ==> (#[trigger] old(path)@[k]) < g@.len() && !old(done)@[old(path)@[k] as int],
        forall|a: int, b: int| 0 <= a < b < old(path)@.len() ==> (#[trigger] old(path)@[a]) != (#[trigger] old(path)@[b]),
        chained(g@, old(path)@),
        old(path)@.len() > 0 ==> edge(g@, old(path)@.last() as int, at as int),
    ensures
        settled(g@, final(done)@, final(order)@),
        forall|x: int| 0 <= x < g@.len() && old(done)@[x] ==> final(done)@[x],
        r is Ok ==> final(done)@[at as int] && final(path)@ == old(path)@,
        r is Ok ==> forall|k: int| 0 <= k < old(path)@.len() ==> !final(done)@[old(path)@[k] as int],
        r matches Err(cycle) ==> cycle@.len() >= 2 && cycle@[0] == cycle@.last() && chained(g@, cycle@)
            && forall|k: int| 0 <= k < cycle@.len() ==> (#[trigger] cycle@[k]) < g@.len(),
    decreases g@.len() - old(path)@.len(),
{
    if done[at] {
        return Ok(());
    }
    let mut from: Option<usize> = None;
    let mut k: usize = 0;
    while k < path.len()
        invariant
            k <= path@.len(),
            from matches Some(f) ==> f < path@.len() && path@[f as int] == at,
            from is None ==> forall|m: int| 0 <= m < k ==> path@[m] != at,
        decreases path@.len() - k,
    {
        if from.is_none() && path[k] == at {
            from = Some(k);
        }
        k += 1;
    }
    if let Some(f) = from {
        let mut cycle: Vec<usize> = Vec::new();
        let mut m = f;
        while m < path.len()
            invariant
                f <= m <= path@.len(),
                cycle@ == path@.subrange(f as int, m as int),
            decreases path@.len() - m,
        {
            cycle.push(path[m]);
            m += 1;
            assert(path@.subrange(f as int, m as int) == path@.subrange(f as int, m - 1).push(path@[m - 1]));
        }
        cycle.push(at);
        proof {
            let p = path@;
            assert(cycle@ == p.subrange(f as int, p.len() as int).push(at));
            assert forall|k: int| 0 <= k < cycle@.len() - 1 implies edge(g@, cycle@[k] as int, #[trigger] cycle@[k + 1] as int) by {
                if k + 1 < cycle@.len() - 1 {
                    assert(cycle@[k] == p[f + k] && cycle@[k + 1] == p[f + k + 1]);
                } else {
                    assert(cycle@[k] == p.last() && cycle@[k + 1] == at);
                }
            }
        }
        return Err(cycle);
    }
    proof {
        lemma_few(path@.push(at), g@.len() as int);
    }
    let ghost outer = path@;
    let ghost before_done = done@;
    path.push(at);
    let deps = &g[at].active;
    let mut d: usize = 0;
    while d < deps.len()
        invariant
            d <= deps@.len(),
            at < g@.len(),
            *deps == g@[at as int].active,
            settled(g@, done@, order@),
            path@ == outer.push(at),
            outer == old(path)@,
            before_done == old(done)@,
            before_done.len() == g@.len(),
            outer.len() < g@.len(),
            forall|k: int| 0 <= k < outer.len() ==> (#[trigger] outer[k]) < g@.len() && !done@[outer[k] as int],
            forall|a: int, b: int| 0 <= a < b < outer.len() ==> (#[trigger] outer[a]) != (#[trigger] outer[b]),
            forall|m: int| 0 <= m < outer.len() ==> outer[m] != at,
            chained(g@, outer),
            outer.len() > 0 ==> edge(g@, outer.last() as int, at as int),
            !done@[at as int],
            forall|x: int| 0 <= x < g@.len() && before_done[x] ==> done@[x],
            forall|m: int| 0 <= m < d ==> (index_of(g@, (#[trigger] deps@[m])@) matches Some(b) ==> done@[b]),
        decreases deps@.len() - d,
    {
        let found = find_vertex(g, &deps[d]);
        proof {
            lemma_index_in(g@, deps@[d as int]@);
        }
        if let Some(next) = found {
            proof {
                assert(edge(g@, at as int, next as int));
                assert(chained(g@, path@)) by {
                    assert forall|k: int| 0 <= k < path@.len() - 1 implies edge(g@, path@[k] as int, #[trigger] path@[k + 1] as int) by {
                        if k + 1 < outer.len() {
                            assert(path@[k] == outer[k] && path@[k + 1] == outer[k + 1]);
                        } else {
                            assert(path@[k] == outer.last() && path@[k + 1] == at);
                        }
                    }
                }
            }
            let ghost mid = done@;
            match visit(g, next, done, path, order) {
                Ok(()) => {
                    proof {
                        assert(path@ == outer.push(at));
                        assert forall|k: int| 0 <= k < outer.len() implies (#[trigger] outer[k]) < g@.len() && !done@[outer[k] as int] by {
                            assert(outer.push(at)[k] == outer[k]);
                        }
                        assert(!done@[at as int]) by {
                            assert(outer.push(at)[outer.len() as int] == at);
                        }
                        assert forall|m: int| 0 <= m < d + 1 implies (index_of(g@, (#[trigger] deps@[m])@) matches Some(b) ==> done@[b]) by {
                            lemma_index_in(g@, deps@[m]@);
                            if m < d {
                                if let Some(b) = index_of(g@, deps@[m]@) {
                                    assert(mid[b]);
                                }
                            }
                        }
                    }
                },
                Err(cycle) => return Err(cycle),
            }
        }
        d += 1;
    }
    path.pop();
    assert(path@ =~= outer);
    let ghost before = order@;
    let ghost pre = done@;
    done.set(at, true);
    order.push(at);
    proof {
        assert forall|i: int, b: int| 0 <= i < order@.len() && edge(g@, order@[i] as int, b) implies exists|j: int| 0 <= j < i && order@[j] as int == b by {
            if i < before.len() {
                assert(order@[i] == before[i]);
                let j = choose|j: int| 0 <= j < i && before[j] as int == b;
                assert(order@[j] == before[j]);
            } else {
                let m = choose|m: int| 0 <= m < g@[at as int].active@.len() && index_of(g@, (#[trigger] g@[at as int].active@[m])@) == Some(b);
                assert(deps@[m] == g@[at as int].active@[m]);
                lemma_index_in(g@, deps@[m]@);
                assert(pre[b]);
                let j = choose|j: int| 0 <= j < before.len() && before[j] as int == b;
                assert(order@[j] == before[j]);
            }
        }
        assert forall|x: int| 0 <= x < g@.len() && #[trigger] done@[x] implies placed(order@, x) by {
            if x == at as int {
                assert(order@[before.len() as int] == at);
            } else {
                let j = choose|j: int| 0 <= j < before.len() && before[j] as int == x;
                assert(order@[j] == before[j]);
            }
        }
        assert forall|a: int, b: int| 0 <= a < b < order@.len() implies (#[trigger] order@[a]) != (#[trigger] order@[b]) by {
            if b == before.len() {
                assert(order@[a] == before[a]);
            }
        }
    }
    Ok(())
}

/// The order the vertices of `g` apply in: depth first from each of `roots` there, each
/// requirement before its requirers. Fails with a cycle, by name, when requirements lead back to
/// a profile that requires them.
pub fn order(g: &Vec<Vertex>, roots: &Vec<ProfileName>) -> (r: Result<Vec<usize>, crate::errors::ProfileError>)
    ensures
        match r {
            Ok(order) => settled(g@, Seq::new(g@.len(), |x: int| placed(order@, x)), order@) && forall|k: int|
                0 <= k < roots@.len() ==> (index_of(g@, (#[trigger] roots@[k])@) matches Some(x) ==> placed(order@, x)),
            Err(crate::errors::ProfileError::Cycle { chain }) => chain@.len() >= 2 && chain@[0]@ == chain@.last()@ && forall|k: int|
                0 <= k < chain@.len() - 1 ==> exists|a: int, b: int| edge(g@, a, b) && g@[a].name@ == (#[trigger] chain@[k])@
                    && g@[b].name@ == chain@[k + 1]@,
            Err(_) => false,
        },
{
    let mut done: Vec<bool> = Vec::new();
    let mut i: usize = 0;
    while i < g.len()
        invariant
            i <= g@.len(),
            done@.len() == i,
            forall|k: int| 0 <= k < i ==> !done@[k],
        decreases g@.len() - i,
    {
        done.push(false);
        i += 1;
    }
    let mut order: Vec<usize> = Vec::new();
    let mut path: Vec<usize> = Vec::new();
    let mut k: usize = 0;
    while k < roots.len()
        invariant
            k <= roots@.len(),
            settled(g@, done@, order@),
            path@.len() == 0,
            forall|m: int| 0 <= m < k ==> (index_of(g@, (#[trigger] roots@[m])@) matches Some(x) ==> done@[x]),
        decreases roots@.len() - k,
    {
        let found = find_vertex(g, &roots[k]);
        let ghost mid = done@;
        proof {
            lemma_index_in(g@, roots@[k as int]@);
        }
        if let Some(at) = found {
            match visit(g, at, &mut done, &mut path, &mut order) {
                Ok(()) => {
                    proof {
                        assert forall|m: int| 0 <= m < k + 1 implies (index_of(g@, (#[trigger] roots@[m])@) matches Some(x) ==> done@[x]) by {
                            lemma_index_in(g@, roots@[m]@);
                            if m < k {
                                if let Some(x) = index_of(g@, roots@[m]@) {
                                    assert(mid[x]);
                                }
                            }
                        }
                    }
                },
                Err(cycle) => {
                    let mut chain: Vec<ProfileName> = Vec::new();
                    let mut c: usize = 0;
                    while c < cycle.len()
                        invariant
                            c <= cycle@.len(),
                            chain@.len() == c,
                            forall|m: int| 0 <= m < cycle@.len() ==> (#[trigger] cycle@[m]) < g@.len(),
                            forall|m: int| 0 <= m < c ==> (#[trigger] chain@[m])@ == g@[cycle@[m] as int].name@,
                        decreases cycle@.len() - c,
                    {
                        chain.push(g[cycle[c]].name.clone());
                        c += 1;
                    }
                    proof {
                        assert forall|m: int| 0 <= m < chain@.len() - 1 implies exists|a: int, b: int| edge(g@, a, b) && g@[a].name@ == (#[trigger] chain@[m])@
                            && g@[b].name@ == chain@[m + 1]@ by {
                            assert(edge(g@, cycle@[m] as int, cycle@[m + 1] as int));
                        }
                    }
                    return Err(crate::errors::ProfileError::Cycle { chain });
                },
            }
        }
        k += 1;
    }
    proof {
        assert(done@ =~= Seq::new(g@.len(), |x: int| placed(order@, x))) by {
            assert forall|x: int| 0 <= x < g@.len() implies done@[x] == placed(order@, x) by {
                if placed(order@, x) {
                    let j = choose|j: int| 0 <= j < order@.len() && order@[j] as int == x;
                }
            }
        }
        assert(settled(g@, Seq::new(g@.len(), |x: int| placed(order@, x)), order@));
        assert forall|k: int| 0 <= k < roots@.len() implies (index_of(g@, (#[trigger] roots@[k])@) matches Some(x) ==> placed(order@, x)) by {
            lemma_index_in(g@, roots@[k]@);
        }
    }
    Ok(order)
}

/// A profile read from a source: where, and what it declares.
#[derive(Debug)]
pub struct Loaded {
    /// Its source.
    pub source: Source,
    /// Its manifest, which names it.
    pub manifest: Manifest,
}

/// A layer the target configures: its profile, where, and the features it turns on.
#[derive(Debug)]
pub struct Configured {
    /// The profile's source.
    pub source: Source,
    /// The profile.
    pub name: ProfileName,
    /// The features the target turns on.
    pub features: Vec<FeatureName>,
    /// Whether its default features are on.
    pub defaults: bool,
}

/// One active profile.
#[derive(Debug)]
pub struct Node {
    /// Where it is among the profiles read.
    pub at: usize,
    /// Its name.
    pub name: ProfileName,
    /// Its source.
    pub source: Source,
    /// Every feature that is on, with who turned it on; each feature, and each who, once.
    pub features: Vec<(FeatureName, Vec<Enabler>)>,
    /// The profiles that require it and activated it, each once.
    pub required_by: Vec<ProfileName>,
    /// Whether the target configures it as a layer.
    pub configured: bool,
    /// Whether its default features are on.
    pub defaults: bool,
    /// Whether the target switched its defaults off.
    pub no_defaults: bool,
    /// Its requirements that are active, each once.
    pub active: Vec<ProfileName>,
}

/// A request for a profile: to activate it, and to turn features on.
#[derive(Debug)]
pub struct Request {
    /// Where it is; `None` for a weak request, which only reaches the profile already active.
    pub source: Option<Source>,
    /// Its name.
    pub name: ProfileName,
    /// Who asks: the target, or a profile.
    pub by: Option<ProfileName>,
    /// The features to turn on, each with who turns it on.
    pub features: Vec<(FeatureName, Enabler)>,
    /// Whether to turn its default features on.
    pub defaults: bool,
}

/// Every active profile, in the order they apply, and what the target should hear about.
#[derive(Debug)]
pub struct Graph {
    /// Each requirement before its requirers; otherwise as configured.
    pub nodes: Vec<Node>,
    /// What the graph settled that the target may not expect.
    pub warnings: Vec<Warning>,
}

/// What building the graph came to: the graph, or a profile to read first.
#[derive(Debug)]
pub enum Built {
    /// The graph.
    Graph(Graph),
    /// The graph needs this profile, which was not read: read it, and build again.
    Load {
        /// Its source.
        source: Source,
        /// Its name.
        name: ProfileName,
    },
}

/// Whether two sources are one repository and path at two refs.
pub open spec fn twins(a: Source, b: Source) -> bool {
    source_view(a).0 && source_view(b).0 && source_view(a).1 == source_view(b).1 && source_view(a).3 == source_view(b).3
        && source_view(a).2 != source_view(b).2
}

/// Whether `node` is the node just met for `name` from `source`: read from the first entry of
/// `catalog` that holds it, nothing on, required by none, configured by nobody yet.
pub open spec fn fresh(node: Node, catalog: Seq<Loaded>, source: Source, name: Seq<char>) -> bool {
    &&& node.at < catalog.len()
    &&& is_loaded(catalog[node.at as int], source, name)
    &&& forall|j: int| 0 <= j < node.at ==> !is_loaded(#[trigger] catalog[j], source, name)
    &&& node.name@ == name
    &&& source_view(node.source) == source_view(source)
    &&& node.features@.len() == 0
    &&& node.required_by@.len() == 0
    &&& !node.configured && !node.defaults && !node.no_defaults
    &&& node.active@.len() == 0
}

/// Whether `nodes` are active profiles of `catalog`: each read there under its name and source,
/// no name twice.
pub open spec fn nodes_wf(nodes: Seq<Node>, catalog: Seq<Loaded>) -> bool {
    &&& forall|k: int| 0 <= k < nodes.len() ==> (#[trigger] nodes[k]).at < catalog.len()
        && catalog[nodes[k].at as int].manifest.profile.name@ == nodes[k].name@
        && source_view(catalog[nodes[k].at as int].source) == source_view(nodes[k].source)
    &&& forall|a: int, b: int| 0 <= a < b < nodes.len() ==> (#[trigger] nodes[a]).name@ != (#[trigger] nodes[b]).name@
}

/// Where the node named `name` is.
fn node_named(nodes: &Vec<Node>, name: &ProfileName) -> (r: Option<usize>)
    ensures
        match r {
            Some(k) => k < nodes@.len() && nodes@[k as int].name@ == name@,
            None => forall|k: int| 0 <= k < nodes@.len() ==> (#[trigger] nodes@[k]).name@ != name@,
        },
{
    let mut k: usize = 0;
    while k < nodes.len()
        invariant
            k <= nodes@.len(),
            forall|m: int| 0 <= m < k ==> (#[trigger] nodes@[m]).name@ != name@,
        decreases nodes@.len() - k,
    {
        if nodes[k].name.same(name) {
            return Some(k);
        }
        k += 1;
    }
    None
}

/// Whether `l` is `name` read from `source`.
pub open spec fn is_loaded(l: Loaded, source: Source, name: Seq<char>) -> bool {
    l.manifest.profile.name@ == name && source_view(l.source) == source_view(source)
}

/// Where `catalog` holds `name` from `source`: the first such entry.
fn loaded(catalog: &Vec<Loaded>, source: &Source, name: &ProfileName) -> (r: Option<usize>)
    ensures
        match r {
            Some(k) => k < catalog@.len() && is_loaded(catalog@[k as int], *source, name@) && forall|j: int| 0 <= j < k
                ==> !is_loaded(#[trigger] catalog@[j], *source, name@),
            None => forall|j: int| 0 <= j < catalog@.len() ==> !is_loaded(#[trigger] catalog@[j], *source, name@),
        },
{
    let mut k: usize = 0;
    while k < catalog.len()
        invariant
            k <= catalog@.len(),
            forall|j: int| 0 <= j < k ==> !is_loaded(#[trigger] catalog@[j], *source, name@),
        decreases catalog@.len() - k,
    {
        if catalog[k].manifest.profile.name.same(name) && catalog[k].source.same(source) {
            return Some(k);
        }
        k += 1;
    }
    None
}

/// `names` with `n`, when it lacks it; whether it did.
fn add_name(names: &mut Vec<ProfileName>, n: &ProfileName) -> (added: bool)
    ensures
        added == !(exists|k: int| 0 <= k < old(names)@.len() && (#[trigger] old(names)@[k])@ == n@),
        added ==> final(names)@ == old(names)@.push(*n),
        !added ==> final(names)@ == old(names)@,
{
    let mut k: usize = 0;
    while k < names.len()
        invariant
            k <= names@.len(),
            forall|m: int| 0 <= m < k ==> (#[trigger] names@[m])@ != n@,
        decreases names@.len() - k,
    {
        if names[k].same(n) {
            return false;
        }
        k += 1;
    }
    names.push(n.clone());
    true
}

/// An enabler, as values.
pub open spec fn enabler_view(e: Enabler) -> (int, Seq<char>, Seq<char>) {
    match e {
        Enabler::Target => (0, Seq::empty(), Seq::empty()),
        Enabler::Default => (1, Seq::empty(), Seq::empty()),
        Enabler::Requires(p) => (2, p@, Seq::empty()),
        Enabler::Feature { profile, feature } => (3, profile@, feature@),
    }
}

/// Whether two enablers are one.
fn same_enabler(a: &Enabler, b: &Enabler) -> (r: bool)
    ensures
        r == (enabler_view(*a) == enabler_view(*b)),
{
    match (a, b) {
        (Enabler::Target, Enabler::Target) => true,
        (Enabler::Default, Enabler::Default) => true,
        (Enabler::Requires(x), Enabler::Requires(y)) => x.same(y),
        (Enabler::Feature { profile: p, feature: f }, Enabler::Feature { profile: q, feature: g }) => p.same(q) && f.same(g),
        _ => false,
    }
}

/// Where `f` is among `features`.
fn feature_at(features: &Vec<(FeatureName, Vec<Enabler>)>, f: &FeatureName) -> (r: Option<usize>)
    ensures
        match r {
            Some(k) => k < features@.len() && features@[k as int].0@ == f@,
            None => forall|m: int| 0 <= m < features@.len() ==> (#[trigger] features@[m]).0@ != f@,
        },
{
    let mut k: usize = 0;
    while k < features.len()
        invariant
            k <= features@.len(),
            forall|m: int| 0 <= m < k ==> (#[trigger] features@[m]).0@ != f@,
        decreases features@.len() - k,
    {
        if features[k].0.same(f) {
            return Some(k);
        }
        k += 1;
    }
    None
}

/// Whether `list` holds `by`.
fn has_enabler(list: &Vec<Enabler>, by: &Enabler) -> (r: bool)
    ensures
        r == exists|j: int| 0 <= j < list@.len() && enabler_view(#[trigger] list@[j]) == enabler_view(*by),
{
    let mut j: usize = 0;
    while j < list.len()
        invariant
            j <= list@.len(),
            forall|m: int| 0 <= m < j ==> enabler_view(#[trigger] list@[m]) != enabler_view(*by),
        decreases list@.len() - j,
    {
        if same_enabler(&list[j], by) {
            return true;
        }
        j += 1;
    }
    false
}

/// The features of `features`, as names.
pub open spec fn feature_names(features: Seq<(FeatureName, Vec<Enabler>)>) -> Seq<Seq<char>> {
    features.map_values(|f: (FeatureName, Vec<Enabler>)| f.0@)
}

/// How much is on in `features`: each feature, and each enabler of it.
pub open spec fn weight(features: Seq<(FeatureName, Vec<Enabler>)>) -> int
    decreases features.len(),
{
    if features.len() == 0 {
        0
    } else {
        weight(features.drop_last()) + 1 + features.last().1@.len()
    }
}

/// How much is on in `node`: its features and their enablers, and the profiles it activates.
pub open spec fn node_size(node: Node) -> int {
    weight(node.features@) + node.active@.len()
}

/// Putting a feature in place of another changes the weight by the difference of their enablers.
proof fn lemma_weight_update(features: Seq<(FeatureName, Vec<Enabler>)>, k: int, x: (FeatureName, Vec<Enabler>))
    requires
        0 <= k < features.len(),
    ensures
        weight(features.update(k, x)) == weight(features) - features[k].1@.len() + x.1@.len(),
    decreases features.len(),
{
    let up = features.update(k, x);
    if k == features.len() - 1 {
        assert(up.drop_last() =~= features.drop_last());
    } else {
        assert(up.drop_last() =~= features.drop_last().update(k, x));
        lemma_weight_update(features.drop_last(), k, x);
    }
}

/// `features` with `f` turned on by `by`; whether that is new.
fn turn(features: &mut Vec<(FeatureName, Vec<Enabler>)>, f: &FeatureName, by: &Enabler) -> (changed: bool)
    ensures
        !changed ==> feature_names(old(features)@).contains(f@),
        changed ==> weight(final(features)@) > weight(old(features)@),
        !changed ==> weight(final(features)@) == weight(old(features)@),
        feature_names(final(features)@) == if feature_names(old(features)@).contains(f@) {
            feature_names(old(features)@)
        } else {
            feature_names(old(features)@).push(f@)
        },
{
    let ghost before = features@;
    match feature_at(features, f) {
        Some(k) => {
            let (name, mut by_list) = features.remove(k);
            let seen = has_enabler(&by_list, by);
            if !seen {
                by_list.push(by.clone());
            }
            features.insert(k, (name, by_list));
            proof {
                assert(features@ =~= before.update(k as int, features@[k as int]));
                lemma_weight_update(before, k as int, features@[k as int]);
            }
            assert(feature_names(before)[k as int] == f@);
            assert(feature_names(features@) =~= feature_names(before));
            assert(feature_names(before).contains(f@));
            !seen
        },
        None => {
            let mut by_list: Vec<Enabler> = Vec::new();
            by_list.push(by.clone());
            features.push((f.clone(), by_list));
            proof {
                if feature_names(before).contains(f@) {
                    let m = choose|m: int| 0 <= m < feature_names(before).len() && feature_names(before)[m] == f@;
                    assert(before[m].0@ == f@);
                }
            }
            assert(feature_names(features@) =~= feature_names(before).push(f@));
            assert(features@.drop_last() =~= before);
            true
        },
    }
}

/// How serving requests went on: done, stopped for a profile to read, or out of steps.
enum Flow {
    /// Done.
    Done,
    /// The graph needs this profile, which was not read.
    Load(Source, ProfileName),
    /// Out of steps.
    Spent,
}

/// The graph being built.
struct Builder {
    /// Every active profile, in the order met.
    nodes: Vec<Node>,
    /// Requests not yet served, from `head` on.
    queue: Vec<Request>,
    /// The first request not yet served.
    head: usize,
    /// What the target should hear about.
    warnings: Vec<Warning>,
    /// Whether a node has changed since the builder last looked, so it knows when the graph
    /// settles.
    moved: bool,
}

/// A copy of `names`.
fn copy_names(names: &Vec<ProfileName>) -> (out: Vec<ProfileName>)
    ensures
        out@ == names@,
{
    let mut out: Vec<ProfileName> = Vec::new();
    let mut i: usize = 0;
    while i < names.len()
        invariant
            i <= names@.len(),
            out@ == names@.take(i as int),
        decreases names@.len() - i,
    {
        out.push(names[i].clone());
        i += 1;
        assert(names@.take(i as int) == names@.take(i - 1).push(names@[i - 1]));
    }
    assert(names@.take(names@.len() as int) == names@);
    out
}

/// Whether `names` holds `n`.
fn names_has(names: &Vec<ProfileName>, n: &ProfileName) -> (r: bool)
    ensures
        r == exists|k: int| 0 <= k < names@.len() && (#[trigger] names@[k])@ == n@,
{
    let mut k: usize = 0;
    while k < names.len()
        invariant
            k <= names@.len(),
            forall|m: int| 0 <= m < k ==> (#[trigger] names@[m])@ != n@,
        decreases names@.len() - k,
    {
        if names[k].same(n) {
            return true;
        }
        k += 1;
    }
    false
}

/// The features a manifest declares, by name.
fn declared_names(m: &Manifest) -> (out: Vec<FeatureName>)
    ensures
        out@.len() == m.features.declared@.len(),
        forall|k: int| 0 <= k < out@.len() ==> #[trigger] out@[k] == m.features.declared@[k].0,
{
    let mut out: Vec<FeatureName> = Vec::new();
    let mut i: usize = 0;
    while i < m.features.declared.len()
        invariant
            i <= m.features.declared@.len(),
            out@.len() == i,
            forall|k: int| 0 <= k < i ==> #[trigger] out@[k] == m.features.declared@[k].0,
        decreases m.features.declared@.len() - i,
    {
        out.push(m.features.declared[i].0.clone());
        i += 1;
    }
    out
}

/// Where `f` is first declared in `m`.
pub open spec fn first_declared(m: Manifest, f: Seq<char>) -> Option<int> {
    if exists|k: int| 0 <= k < m.features.declared@.len() && (#[trigger] m.features.declared@[k]).0@ == f {
        Some(choose|k: int| 0 <= k < m.features.declared@.len() && (#[trigger] m.features.declared@[k]).0@ == f && forall|j: int|
            0 <= j < k ==> (#[trigger] m.features.declared@[j]).0@ != f)
    } else {
        None
    }
}

/// Whether the requirement named `n` is among `active`.
pub open spec fn active_has(active: Seq<ProfileName>, n: Seq<char>) -> bool {
    exists|k: int| 0 <= k < active.len() && (#[trigger] active[k])@ == n
}

/// Whether what `r` turns on is on: its feature among `names`, the requirement it activates
/// among `active`.
pub open spec fn ref_done(r: FeatureRef, names: Seq<Seq<char>>, active: Seq<ProfileName>) -> bool {
    match r {
        FeatureRef::Feature(g) => names.contains(g@),
        FeatureRef::Dep(dep) => active_has(active, dep@),
        FeatureRef::Of { profile, weak, .. } => weak || active_has(active, profile@),
    }
}

/// Whether the features `names` of a profile with manifest `m` are settled: what each turns on,
/// by its entry in `[features]`, is on.
pub open spec fn settled_in(m: Manifest, names: Seq<Seq<char>>, active: Seq<ProfileName>) -> bool {
    forall|i: int, d: int, j: int| 0 <= i < names.len() && first_declared(m, #[trigger] names[i]) == Some(d) && 0 <= j
        < m.features.declared@[d].1@.len() ==> ref_done(#[trigger] m.features.declared@[d].1@[j], names, active)
}

/// Where `f` is declared in `m`.
fn declared_at(m: &Manifest, f: &FeatureName) -> (r: Option<usize>)
    ensures
        match r {
            Some(k) => k < m.features.declared@.len() && m.features.declared@[k as int].0@ == f@ && forall|j: int| 0 <= j < k
                ==> (#[trigger] m.features.declared@[j]).0@ != f@,
            None => forall|j: int| 0 <= j < m.features.declared@.len() ==> (#[trigger] m.features.declared@[j]).0@ != f@,
        },
        match r {
            Some(k) => first_declared(*m, f@) == Some(k as int),
            None => first_declared(*m, f@) is None,
        },
{
    let mut k: usize = 0;
    while k < m.features.declared.len()
        invariant
            k <= m.features.declared@.len(),
            forall|j: int| 0 <= j < k ==> (#[trigger] m.features.declared@[j]).0@ != f@,
        decreases m.features.declared@.len() - k,
    {
        if m.features.declared[k].0.same(f) {
            proof {
                let d = m.features.declared@;
                assert(0 <= k < d.len() && d[k as int].0@ == f@ && forall|j: int| 0 <= j < k ==> (#[trigger] d[j]).0@ != f@);
                let c = choose|c: int| 0 <= c < d.len() && (#[trigger] d[c]).0@ == f@ && forall|j: int| 0 <= j < c ==> (#[trigger] d[j]).0@ != f@;
                if c < k {
                    assert(d[c].0@ != f@);
                } else if c > k {
                    assert(d[k as int].0@ != f@);
                }
            }
            return Some(k);
        }
        k += 1;
    }
    None
}

/// What a profile asks of one of its requirements.
struct Ask {
    /// The requirement.
    dep: ProfileName,
    /// A feature to turn on in it, beside what its `[requires]` entry asks.
    turn: Option<(FeatureName, Enabler)>,
    /// Whether it only reaches the requirement through a weak feature: it activates nothing.
    weak: bool,
}

/// An ask, as values: the requirement, the feature and who turns it on, and whether it is weak.
spec fn ask_view(a: Ask) -> (Seq<char>, Option<(Seq<char>, (int, Seq<char>, Seq<char>))>, bool) {
    (a.dep@, match a.turn {
        Some((f, e)) => Some((f@, enabler_view(e))),
        None => None,
    }, a.weak)
}

/// The rank of an enabler's kind, in the order they are declared.
pub open spec fn rank_of(e: Enabler) -> u8 {
    match e {
        Enabler::Target => 0,
        Enabler::Default => 1,
        Enabler::Requires(_) => 2,
        Enabler::Feature { .. } => 3,
    }
}

/// Whether enabler `a` comes no later than `b`: by kind, then by name, the profile's first.
pub open spec fn enabler_le(a: Enabler, b: Enabler) -> bool {
    if rank_of(a) != rank_of(b) {
        rank_of(a) < rank_of(b)
    } else {
        match (a, b) {
            (Enabler::Requires(x), Enabler::Requires(y)) => lex_le(x@, y@),
            (Enabler::Feature { profile: p, feature: f }, Enabler::Feature { profile: q, feature: g }) => if p@ != q@ {
                lex_le(p@, q@)
            } else {
                lex_le(f@, g@)
            },
            _ => true,
        }
    }
}

/// Whether ask `a` comes no later than ask `b`: by requirement, then by the feature it turns on
/// (none first), by who turns it on, and the weak after the strong.
spec fn ask_le(a: Ask, b: Ask) -> bool {
    if a.dep@ != b.dep@ {
        lex_le(a.dep@, b.dep@)
    } else {
        match (a.turn, b.turn) {
            (None, Some(_)) => true,
            (Some(_), None) => false,
            (Some((f, e)), Some((g, d))) => if f@ != g@ {
                lex_le(f@, g@)
            } else if enabler_view(e) != enabler_view(d) {
                enabler_le(e, d)
            } else {
                !a.weak || b.weak
            },
            (None, None) => !a.weak || b.weak,
        }
    }
}

/// Whether two asks are one.
fn same_ask(a: &Ask, b: &Ask) -> (r: bool)
    ensures
        r == (ask_view(*a) == ask_view(*b)),
{
    a.dep.same(&b.dep) && a.weak == b.weak && match (&a.turn, &b.turn) {
        (None, None) => true,
        (Some((f, e)), Some((g, d))) => f.same(g) && same_enabler(e, d),
        _ => false,
    }
}

/// Whether ask `a` comes no later than ask `b`: by requirement, then by the feature it turns on
/// (none first), by who turns it on, and the weak after the strong.
fn ask_before(a: &Ask, b: &Ask) -> (r: bool)
    ensures
        r == ask_le(*a, *b),
{
    let (x, y) = (crate::text::chars_of(a.dep.as_str()), crate::text::chars_of(b.dep.as_str()));
    if !crate::text::same(&x, &y) {
        return crate::order::text_le(&x, &y);
    }
    match (&a.turn, &b.turn) {
        (None, Some(_)) => return true,
        (Some(_), None) => return false,
        (Some((f, e)), Some((g, d))) => {
            let (p, q) = (crate::text::chars_of(f.as_str()), crate::text::chars_of(g.as_str()));
            if !crate::text::same(&p, &q) {
                return crate::order::text_le(&p, &q);
            }
            if !same_enabler(e, d) {
                return enabler_before(e, d);
            }
        },
        (None, None) => {},
    }
    !a.weak || b.weak
}

/// The rank of an enabler's kind, in the order they are declared.
fn enabler_rank(e: &Enabler) -> (r: u8)
    ensures
        r == rank_of(*e),
{
    match e {
        Enabler::Target => 0,
        Enabler::Default => 1,
        Enabler::Requires(_) => 2,
        Enabler::Feature { .. } => 3,
    }
}

/// Whether enabler `a` comes no later than `b`: by kind, then by name.
fn enabler_before(a: &Enabler, b: &Enabler) -> (r: bool)
    ensures
        r == enabler_le(*a, *b),
{
    let (i, j) = (enabler_rank(a), enabler_rank(b));
    if i != j {
        return i < j;
    }
    match (a, b) {
        (Enabler::Requires(x), Enabler::Requires(y)) => crate::order::text_le(
            &crate::text::chars_of(x.as_str()),
            &crate::text::chars_of(y.as_str()),
        ),
        (Enabler::Feature { profile: p, feature: f }, Enabler::Feature { profile: q, feature: g }) => {
            let (x, y) = (crate::text::chars_of(p.as_str()), crate::text::chars_of(q.as_str()));
            if !crate::text::same(&x, &y) {
                crate::order::text_le(&x, &y)
            } else {
                crate::order::text_le(&crate::text::chars_of(f.as_str()), &crate::text::chars_of(g.as_str()))
            }
        },
        _ => true,
    }
}

/// Whether some ask of `s` is `x`, as values.
spec fn asks_have(s: Seq<Ask>, x: (Seq<char>, Option<(Seq<char>, (int, Seq<char>, Seq<char>))>, bool)) -> bool {
    exists|i: int| 0 <= i < s.len() && ask_view(#[trigger] s[i]) == x
}

/// Whether `s` is in ask order, no ask twice.
spec fn asks_sorted(s: Seq<Ask>) -> bool {
    forall|i: int, j: int| 0 <= i < j < s.len() ==> ask_le(#[trigger] s[i], #[trigger] s[j]) && ask_view(s[i]) != ask_view(s[j])
}

/// `asks` in order, each once.
fn sorted_asks(asks: Vec<Ask>) -> (out: Vec<Ask>)
    ensures
        asks_sorted(out@),
        forall|x: (Seq<char>, Option<(Seq<char>, (int, Seq<char>, Seq<char>))>, bool)| asks_have(out@, x) <==> asks_have(asks@, x),
{
    let ghost input = asks@;
    let mut asks = asks;
    let mut out: Vec<Ask> = Vec::new();
    let total = asks.len();
    let mut taken: usize = 0;
    while asks.len() > 0
        invariant
            total == input.len(),
            taken <= total,
            asks@ == input.skip(taken as int),
            asks_sorted(out@),
            forall|x: (Seq<char>, Option<(Seq<char>, (int, Seq<char>, Seq<char>))>, bool)| asks_have(out@, x) <==> asks_have(input.take(taken as int), x),
        decreases asks@.len(),
    {
        let a = asks.remove(0);
        proof {
            assert(a == input[taken as int]);
            assert(input.skip(taken + 1) =~= input.skip(taken as int).drop_first());
        }
        let ghost before = out@;
        let mut p: usize = 0;
        let mut dup = false;
        let mut done = false;
        while !done && p < out.len()
            invariant
                p <= out@.len(),
                before == out@,
                asks_sorted(before),
                forall|k: int| 0 <= k < p ==> ask_le(#[trigger] before[k], a) && ask_view(before[k]) != ask_view(a),
                done ==> p < out@.len() && if dup {
                    ask_view(before[p as int]) == ask_view(a)
                } else {
                    !ask_le(before[p as int], a)
                },
                !done ==> !dup,
            decreases out@.len() - p + (if done { 0int } else { 1int }),
        {
            if same_ask(&out[p], &a) {
                dup = true;
                done = true;
            } else if ask_before(&out[p], &a) {
                p += 1;
            } else {
                done = true;
            }
        }
        proof {
            let t = input.take(taken + 1);
            assert(t =~= input.take(taken as int).push(a));
            assert forall|x: (Seq<char>, Option<(Seq<char>, (int, Seq<char>, Seq<char>))>, bool)| asks_have(t, x) <==> (asks_have(input.take(taken as int), x) || x == ask_view(a)) by {
                if asks_have(t, x) {
                    let i = choose|i: int| 0 <= i < t.len() && ask_view(#[trigger] t[i]) == x;
                    if i < taken {
                        assert(input.take(taken as int)[i] == t[i]);
                    }
                }
                if asks_have(input.take(taken as int), x) {
                    let i = choose|i: int| 0 <= i < taken && ask_view(#[trigger] input.take(taken as int)[i]) == x;
                    assert(t[i] == input.take(taken as int)[i]);
                }
                if x == ask_view(a) {
                    assert(t[taken as int] == a);
                }
            }
        }
        if !dup {
            proof {
                if done {
                    lemma_ask_le(before[p as int], a, a);
                }
            }
            out.insert(p, a);
            proof {
                let after = out@;
                assert(after =~= before.insert(p as int, a));
                assert forall|i: int, j: int| 0 <= i < j < after.len() implies ask_le(#[trigger] after[i], #[trigger] after[j]) && ask_view(after[i]) != ask_view(after[j]) by {
                    if j == p {
                        assert(after[i] == before[i]);
                    } else if i == p {
                        assert(after[j] == before[j - 1]);
                        let q = before[p as int];
                        lemma_ask_le(a, q, before[j - 1]);
                        lemma_ask_le(before[j - 1], q, a);
                        lemma_ask_le(q, a, a);
                        if j - 1 > p {
                            assert(ask_le(q, before[j - 1]) && ask_view(q) != ask_view(before[j - 1]));
                        }
                    } else {
                        let i0 = if i < p { i } else { i - 1 };
                        let j0 = if j < p { j } else { j - 1 };
                        assert(after[i] == before[i0] && after[j] == before[j0]);
                    }
                }
                assert forall|x: (Seq<char>, Option<(Seq<char>, (int, Seq<char>, Seq<char>))>, bool)| asks_have(after, x) <==> (asks_have(before, x) || x == ask_view(a)) by {
                    if asks_have(after, x) {
                        let i = choose|i: int| 0 <= i < after.len() && ask_view(#[trigger] after[i]) == x;
                        if i < p {
                            assert(before[i] == after[i]);
                        } else if i > p {
                            assert(before[i - 1] == after[i]);
                        }
                    }
                    if asks_have(before, x) {
                        let i = choose|i: int| 0 <= i < before.len() && ask_view(#[trigger] before[i]) == x;
                        if i < p {
                            assert(after[i] == before[i]);
                        } else {
                            assert(after[i + 1] == before[i]);
                        }
                    }
                    if x == ask_view(a) {
                        assert(after[p as int] == a);
                    }
                }
            }
        } else {
            proof {
                assert(asks_have(before, ask_view(a)));
            }
        }
        taken += 1;
    }
    proof {
        assert(input.take(taken as int) =~= input);
    }
    out
}

impl Builder {
    /// The node for `name` in `source`, added if new, and whether it is; `None` when `catalog`
    /// has not read it.
    ///
    /// Fails when a node of that name is from another source: `Diverged` when it is the same
    /// repository at another ref, `SameName` otherwise.
    fn node(&mut self, catalog: &Vec<Loaded>, source: &Source, name: &ProfileName) -> (r: Result<Option<(usize, bool)>, ProfileError>)
        requires
            nodes_wf(old(self).nodes@, catalog@),
            all_defaults_on(old(self).nodes@, catalog@),
        ensures
            nodes_wf(final(self).nodes@, catalog@),
            all_defaults_on(final(self).nodes@, catalog@),
            final(self).nodes@.len() >= old(self).nodes@.len(),
            r matches Ok(Some((at, _))) ==> at < final(self).nodes@.len() && final(self).nodes@[at as int].name@ == name@,
            final(self).queue == old(self).queue,
            final(self).warnings == old(self).warnings,
            final(self).moved == old(self).moved,
            grown(old(self).nodes@, final(self).nodes@),
            forall|k: int| 0 <= k < old(self).nodes@.len() && (#[trigger] old(self).nodes@[k]).name@ == name@ ==> {
                &&& final(self).nodes == old(self).nodes
                &&& if source_view(old(self).nodes@[k].source) == source_view(*source) {
                    r == Ok::<Option<(usize, bool)>, ProfileError>(Some((k as usize, false)))
                } else if twins(old(self).nodes@[k].source, *source) {
                    r matches Err(ProfileError::Diverged { first, second }) && first@ == source_text(old(self).nodes@[k].source)
                        && second@ == source_text(*source)
                } else {
                    r matches Err(ProfileError::SameName { name: n, first, second }) && n@ == name@ && first@ == source_text(
                        old(self).nodes@[k].source,
                    ) && second@ == source_text(*source)
                }
            },
            (forall|k: int| 0 <= k < old(self).nodes@.len() ==> (#[trigger] old(self).nodes@[k]).name@ != name@) ==> {
                if forall|j: int| 0 <= j < catalog@.len() ==> !is_loaded(#[trigger] catalog@[j], *source, name@) {
                    r == Ok::<Option<(usize, bool)>, ProfileError>(None) && final(self).nodes == old(self).nodes
                } else {
                    &&& r == Ok::<Option<(usize, bool)>, ProfileError>(Some((old(self).nodes@.len() as usize, true)))
                    &&& final(self).nodes@.len() == old(self).nodes@.len() + 1
                    &&& final(self).nodes@.drop_last() == old(self).nodes@
                    &&& fresh(final(self).nodes@.last(), catalog@, *source, name@)
                }
            },
    {
        if let Some(at) = node_named(&self.nodes, name) {
            let met = &self.nodes[at].source;
            if !met.same(source) {
                let (first, second) = (met.to_string(), source.to_string());
                if met.twin(source) {
                    return Err(ProfileError::Diverged { first, second });
                }
                return Err(ProfileError::SameName { name: name.clone(), first, second });
            }
            return Ok(Some((at, false)));
        }
        let k = match loaded(catalog, source, name) {
            Some(k) => k,
            None => return Ok(None),
        };
        let at = self.nodes.len();
        let ghost before = self.nodes@;
        self.nodes.push(Node {
            at: k,
            name: name.clone(),
            source: source.clone(),
            features: Vec::new(),
            required_by: Vec::new(),
            configured: false,
            defaults: false,
            no_defaults: false,
            active: Vec::new(),
        });
        proof {
            assert forall|a: int, b: int| 0 <= a < b < self.nodes@.len() implies (#[trigger] self.nodes@[a]).name@ != (#[trigger] self.nodes@[b]).name@ by {
                if b == before.len() {
                    assert(self.nodes@[a] == before[a]);
                }
            }
            assert forall|m: int| 0 <= m < self.nodes@.len() implies (#[trigger] self.nodes@[m]).at < catalog@.len()
                && catalog@[self.nodes@[m].at as int].manifest.profile.name@ == self.nodes@[m].name@
                && source_view(catalog@[self.nodes@[m].at as int].source) == source_view(self.nodes@[m].source) by {
                if m < before.len() {
                    assert(self.nodes@[m] == before[m]);
                }
            }
        }
        Ok(Some((at, true)))
    }

    /// Turns on everything the features of the node at `at` turn on, in it and in what it
    /// requires, until nothing more is; `false` when out of steps.
    #[verifier::rlimit(60)]
    #[verifier::spinoff_prover]
    fn expand(&mut self, catalog: &Vec<Loaded>, at: usize, budget: &mut u64) -> (r: bool)
        requires
            nodes_wf(old(self).nodes@, catalog@),
            all_defaults_on(old(self).nodes@, catalog@),
            at < old(self).nodes@.len(),
        ensures
            nodes_wf(final(self).nodes@, catalog@),
            all_defaults_on(final(self).nodes@, catalog@),
            final(self).nodes@.len() == old(self).nodes@.len(),
            *final(budget) <= *old(budget),
            forall|k: int| 0 <= k < old(self).nodes@.len() && k != at ==> final(self).nodes@[k] == old(self).nodes@[k],
            forall|x: Seq<char>| feature_names(old(self).nodes@[at as int].features@).contains(x) ==> feature_names(
                final(self).nodes@[at as int].features@,
            ).contains(x),
            r ==> settled_in(
                catalog@[final(self).nodes@[at as int].at as int].manifest,
                feature_names(final(self).nodes@[at as int].features@),
                final(self).nodes@[at as int].active@,
            ),
            !r ==> *final(budget) == 0,
            final(self).moved == old(self).moved,
            !r ==> node_size(final(self).nodes@[at as int]) >= node_size(old(self).nodes@[at as int]) + *old(budget),
            requests_active(final(self).queue@, old(self).queue@.len() as int, final(self).nodes@[at as int].active@),
            r ==> req_met(
                final(self).nodes@[at as int],
                catalog@[old(self).nodes@[at as int].at as int].manifest,
                final(self).queue@,
                old(self).queue@.len() as int,
            ),
            r ==> of_refs_met(
                final(self).nodes@[at as int],
                catalog@[old(self).nodes@[at as int].at as int].manifest,
                node_names(old(self).nodes@),
                final(self).queue@,
                old(self).queue@.len() as int,
            ),
            final(self).nodes@[at as int].name == old(self).nodes@[at as int].name,
            final(self).nodes@[at as int].at == old(self).nodes@[at as int].at,
            grown(old(self).nodes@, final(self).nodes@),
            queue_kept(old(self).queue@, final(self).queue@),
            forall|i: int| old(self).queue@.len() <= i < final(self).queue@.len() ==> queued_for(
                #[trigger] final(self).queue@[i],
                catalog@[old(self).nodes@[at as int].at as int].manifest,
                old(self).nodes@[at as int].name,
            ),
    {
        let names: Vec<ProfileName> = {
            let mut out: Vec<ProfileName> = Vec::new();
            let mut i: usize = 0;
            while i < self.nodes.len()
                invariant
                    i <= self.nodes@.len(),
                    out@.len() == i,
                    forall|m: int| 0 <= m < i ==> (#[trigger] out@[m]) == self.nodes@[m].name,
                decreases self.nodes@.len() - i,
            {
                out.push(self.nodes[i].name.clone());
                i += 1;
            }
            assert(out@ =~= node_names(self.nodes@));
            out
        };
        let ghost before = self.nodes@;
        let mut node = self.nodes.remove(at);
        let ghost rest = self.nodes@;
        let ghost fixed = (node.at, node.name, node.source);
        assert(node == before[at as int]);
        let manifest = &catalog[node.at].manifest;
        let this = node.name.clone();
        let mut asks: Vec<Ask> = Vec::new();
        proof {
            lemma_kept_prefix(node.active@, node.active@);
        }
        let mut r: usize = 0;
        while r < manifest.requires.len()
            invariant
                node.features == before[at as int].features,
                node.active@.len() >= before[at as int].active@.len(),
                self.nodes@ == rest,
                self.moved == old(self).moved,
                node.defaults == before[at as int].defaults,
                active_kept(before[at as int].active@, node.active@),
                asks_active(asks@, node.active@),
                self.queue == old(self).queue,
                rest == before.remove(at as int),
                at < before.len(),
                (node.at, node.name, node.source) == fixed,
                fixed == (before[at as int].at, before[at as int].name, before[at as int].source),
            decreases manifest.requires@.len() - r,
        {
            let (dep, requirement) = (&manifest.requires[r].0, &manifest.requires[r].1);
            let ghost act0 = node.active@;
            if !requirement.optional && add_name(&mut node.active, dep) {
                let a = Ask { dep: dep.clone(), turn: None, weak: false };
                proof {
                    lemma_active_pushed(act0, *dep);
                    lemma_asks_active(asks@, act0, node.active@, Some(a));
                }
                asks.push(a);
            }
            proof {
                lemma_kept_prefix(act0, node.active@);
                lemma_kept_trans(before[at as int].active@, act0, node.active@);
            }
            r += 1;
        }
        let ghost names0 = feature_names(before[at as int].features@);
        let mut settled = false;
        while !settled
            invariant
                *budget <= *old(budget),
                before == old(self).nodes@,
                nodes_wf(before, catalog@),
                all_defaults_on(before, catalog@),
                self.nodes@ == rest,
                self.moved == old(self).moved,
                node.defaults == before[at as int].defaults,
                active_kept(before[at as int].active@, node.active@),
                asks_active(asks@, node.active@),
                self.queue == old(self).queue,
                rest == before.remove(at as int),
                at < before.len(),
                (node.at, node.name, node.source) == fixed,
                fixed == (before[at as int].at, before[at as int].name, before[at as int].source),
                node.at < catalog@.len(),
                *manifest == catalog@[node.at as int].manifest,
                names0 == feature_names(before[at as int].features@),
                forall|x: Seq<char>| names0.contains(x) ==> feature_names(node.features@).contains(x),
                settled ==> settled_in(*manifest, feature_names(node.features@), node.active@),
                !settled ==> node_size(node) + *budget >= node_size(before[at as int]) + *old(budget),
            decreases *budget,
        {
            if *budget == 0 {
                let ghost kept = node;
                self.nodes.insert(at, node);
                proof {
                    lemma_put_back(before, at as int, self.nodes@, catalog@);
                    lemma_others(before, at as int, self.nodes@, kept);
                }
                return false;
            }
            *budget = *budget - 1;
            let mut changed = false;
            let ghost start_names = feature_names(node.features@);
            let ghost start_active = node.active@;
            let ghost start_size = node_size(node);
            let on = declared_on(&node.features);
            let mut i: usize = 0;
            while i < on.len()
                invariant
                    self.nodes@ == rest,
                    self.moved == old(self).moved,
                    node.defaults == before[at as int].defaults,
                    active_kept(before[at as int].active@, node.active@),
                    asks_active(asks@, node.active@),
                    self.queue == old(self).queue,
                self.queue == old(self).queue,
                    rest == before.remove(at as int),
                    at < before.len(),
                    (node.at, node.name, node.source) == fixed,
                    fixed == (before[at as int].at, before[at as int].name, before[at as int].source),
                    node.at < catalog@.len(),
                    *manifest == catalog@[node.at as int].manifest,
                    on@.len() == start_names.len(),
                    forall|k: int| 0 <= k < on@.len() ==> (#[trigger] on@[k])@ == start_names[k],
                    forall|x: Seq<char>| names0.contains(x) ==> feature_names(node.features@).contains(x),
                    !changed ==> feature_names(node.features@) == start_names && node.active@ == start_active,
                    node_size(node) >= start_size,
                    changed ==> node_size(node) > start_size,
                    !changed ==> forall|i2: int, d: int, j: int| 0 <= i2 < i && first_declared(*manifest, #[trigger] start_names[i2]) == Some(d)
                        && 0 <= j < manifest.features.declared@[d].1@.len() ==> ref_done(
                        #[trigger] manifest.features.declared@[d].1@[j],
                        start_names,
                        start_active,
                    ),
                decreases on@.len() - i,
            {
                let feature = &on[i];
                let by = Enabler::Feature { profile: this.clone(), feature: feature.clone() };
                let found = declared_at(manifest, feature);
                if let Some(d) = found {
                    let refs = &manifest.features.declared[d].1;
                    let mut j: usize = 0;
                    while j < refs.len()
                        invariant
                            self.nodes@ == rest,
                            self.moved == old(self).moved,
                            node.defaults == before[at as int].defaults,
                            active_kept(before[at as int].active@, node.active@),
                            asks_active(asks@, node.active@),
                            self.queue == old(self).queue,
                    self.queue == old(self).queue,
                self.queue == old(self).queue,
                            rest == before.remove(at as int),
                            at < before.len(),
                            (node.at, node.name, node.source) == fixed,
                            fixed == (before[at as int].at, before[at as int].name, before[at as int].source),
                            node.at < catalog@.len(),
                            *manifest == catalog@[node.at as int].manifest,
                            d < manifest.features.declared@.len(),
                            *refs == manifest.features.declared@[d as int].1,
                            forall|x: Seq<char>| names0.contains(x) ==> feature_names(node.features@).contains(x),
                            !changed ==> feature_names(node.features@) == start_names && node.active@ == start_active,
                            node_size(node) >= start_size,
                            changed ==> node_size(node) > start_size,
                            !changed ==> forall|j2: int| 0 <= j2 < j ==> ref_done(#[trigger] refs@[j2], start_names, start_active),
                            !changed ==> forall|i2: int, d: int, j: int| 0 <= i2 < i && first_declared(*manifest, #[trigger] start_names[i2]) == Some(d)
                                && 0 <= j < manifest.features.declared@[d].1@.len() ==> ref_done(
                                #[trigger] manifest.features.declared@[d].1@[j],
                                start_names,
                                start_active,
                            ),
                            i < on@.len(),
                            on@[i as int]@ == start_names[i as int],
                            first_declared(*manifest, start_names[i as int]) == Some(d as int),
                        decreases refs@.len() - j,
                    {
                        let ghost was = (feature_names(node.features@), node.active@, changed);
                        match &refs[j] {
                            FeatureRef::Feature(other) => {
                                if turn(&mut node.features, other, &by) {
                                    changed = true;
                                }
                            },
                            FeatureRef::Dep(dep) => {
                                let ghost act0 = node.active@;
                                if add_name(&mut node.active, dep) {
                                    changed = true;
                                    let a = Ask { dep: dep.clone(), turn: None, weak: false };
                                    proof {
                                        lemma_active_pushed(act0, *dep);
                                        lemma_asks_active(asks@, act0, node.active@, Some(a));
                                    }
                                    asks.push(a);
                                }
                            },
                            FeatureRef::Of { profile: dep, feature: theirs, weak } => {
                                let ghost act0 = node.active@;
                                if !*weak && add_name(&mut node.active, dep) {
                                    changed = true;
                                    let a = Ask { dep: dep.clone(), turn: None, weak: false };
                                    proof {
                                        lemma_active_pushed(act0, *dep);
                                        lemma_asks_active(asks@, act0, node.active@, Some(a));
                                    }
                                    asks.push(a);
                                }
                                proof {
                                    lemma_kept_prefix(act0, node.active@);
                                }
                                let own = names_has(&node.active, dep);
                                if own || names_has(&names, dep) {
                                    let a = Ask { dep: dep.clone(), turn: Some((theirs.clone(), by.clone())), weak: !own };
                                    proof {
                                        lemma_kept_prefix(node.active@, node.active@);
                                        lemma_asks_active(asks@, node.active@, node.active@, Some(a));
                                    }
                                    asks.push(a);
                                }
                            },
                        }
                        proof {
                            lemma_kept_prefix(was.1, node.active@);
                            lemma_kept_trans(before[at as int].active@, was.1, node.active@);
                            lemma_asks_active(asks@, node.active@, node.active@, None);
                            assert forall|x: Seq<char>| names0.contains(x) implies feature_names(node.features@).contains(x) by {
                                assert(was.0.contains(x));
                                let m = choose|m: int| 0 <= m < was.0.len() && was.0[m] == x;
                                if feature_names(node.features@) != was.0 {
                                    assert(feature_names(node.features@)[m] == x);
                                }
                            }
                            if !changed {
                                assert(ref_done(refs@[j as int], start_names, start_active));
                            }
                        }
                        j += 1;
                    }
                    proof {
                        if !changed {
                            assert(on@[i as int]@ == start_names[i as int]);
                            assert forall|i2: int, d2: int, j2: int| 0 <= i2 < i + 1 && first_declared(*manifest, #[trigger] start_names[i2]) == Some(d2)
                                && 0 <= j2 < manifest.features.declared@[d2].1@.len() implies ref_done(
                                #[trigger] manifest.features.declared@[d2].1@[j2],
                                start_names,
                                start_active,
                            ) by {
                                if i2 == i {
                                    assert(d2 == d);
                                    assert(refs@[j2] == manifest.features.declared@[d2].1@[j2]);
                                }
                            }
                        }
                    }
                } else {
                    proof {
                        if !changed {
                            assert(on@[i as int]@ == start_names[i as int]);
                            assert(first_declared(*manifest, start_names[i as int]) is None);
                        }
                    }
                }
                i += 1;
            }
            if !changed {
                settled = true;
            }
        }
        let ghost on_names = feature_names(node.features@);
        let on = declared_on(&node.features);
        let mut i: usize = 0;
        while i < on.len()
            invariant
                i <= on@.len(),
                on@.len() == on_names.len(),
                forall|k: int| 0 <= k < on@.len() ==> (#[trigger] on@[k])@ == on_names[k],
                forall|i2: int, dd: int, j: int| 0 <= i2 < i && first_declared(*manifest, #[trigger] on_names[i2]) == Some(dd) && 0 <= j
                    < manifest.features.declared@[dd].1@.len() ==> of_asked(
                    #[trigger] manifest.features.declared@[dd].1@[j],
                    on_names[i2],
                    this@,
                    node.active@,
                    names@,
                    asks@,
                ),
                asks_active(asks@, node.active@),
            decreases on@.len() - i,
        {
            let feature = &on[i];
            if let Some(d) = declared_at(manifest, feature) {
                let refs = &manifest.features.declared[d].1;
                let mut j: usize = 0;
                while j < refs.len()
                    invariant
                        i < on@.len(),
                        on@.len() == on_names.len(),
                        on@[i as int]@ == on_names[i as int],
                        *feature == on@[i as int],
                        first_declared(*manifest, on_names[i as int]) == Some(d as int),
                        d < manifest.features.declared@.len(),
                        *refs == manifest.features.declared@[d as int].1,
                        forall|i2: int, dd: int, j2: int| 0 <= i2 < i && first_declared(*manifest, #[trigger] on_names[i2]) == Some(dd) && 0 <= j2
                            < manifest.features.declared@[dd].1@.len() ==> of_asked(
                            #[trigger] manifest.features.declared@[dd].1@[j2],
                            on_names[i2],
                            this@,
                            node.active@,
                            names@,
                            asks@,
                        ),
                        forall|j2: int| 0 <= j2 < j ==> of_asked(#[trigger] refs@[j2], on_names[i as int], this@, node.active@, names@, asks@),
                        asks_active(asks@, node.active@),
                    decreases refs@.len() - j,
                {
                    if let FeatureRef::Of { profile: dep, feature: theirs, .. } = &refs[j] {
                        let own = names_has(&node.active, dep);
                        if own || names_has(&names, dep) {
                            let a = Ask {
                                dep: dep.clone(),
                                turn: Some((theirs.clone(), Enabler::Feature { profile: this.clone(), feature: feature.clone() })),
                                weak: !own,
                            };
                            proof {
                                lemma_push_ask(asks@, a);
                            }
                            asks.push(a);
                        }
                    }
                    j += 1;
                }
                proof {
                    assert forall|i2: int, dd: int, j2: int| 0 <= i2 < i + 1 && first_declared(*manifest, #[trigger] on_names[i2]) == Some(dd) && 0
                        <= j2 < manifest.features.declared@[dd].1@.len() implies of_asked(
                        #[trigger] manifest.features.declared@[dd].1@[j2],
                        on_names[i2],
                        this@,
                        node.active@,
                        names@,
                        asks@,
                    ) by {
                        if i2 == i {
                            assert(dd == d);
                            assert(refs@[j2] == manifest.features.declared@[dd].1@[j2]);
                        }
                    }
                }
            }
            i += 1;
        }
        let mut a: usize = 0;
        while a < node.active.len()
            invariant
                a <= node.active@.len(),
                forall|a2: int| 0 <= a2 < a ==> asks_have(asks@, ((#[trigger] node.active@[a2])@, None, false)),
                forall|i2: int, dd: int, j: int| 0 <= i2 < on_names.len() && first_declared(*manifest, #[trigger] on_names[i2]) == Some(dd) && 0 <= j
                    < manifest.features.declared@[dd].1@.len() ==> of_asked(
                    #[trigger] manifest.features.declared@[dd].1@[j],
                    on_names[i2],
                    this@,
                    node.active@,
                    names@,
                    asks@,
                ),
                asks_active(asks@, node.active@),
            decreases node.active@.len() - a,
        {
            let ask = Ask { dep: node.active[a].clone(), turn: None, weak: false };
            proof {
                lemma_push_ask(asks@, ask);
            }
            asks.push(ask);
            a += 1;
        }
        let ghost unsorted = asks@;
        let asks = sorted_asks(asks);
        proof {
            assert forall|k: int| 0 <= k < asks@.len() && !asks@[k].weak implies active_has(node.active@, (#[trigger] asks@[k]).dep@) by {
                assert(asks_have(asks@, ask_view(asks@[k])));
                let k2 = choose|k2: int| 0 <= k2 < unsorted.len() && ask_view(#[trigger] unsorted[k2]) == ask_view(asks@[k]);
                assert(!unsorted[k2].weak);
            }
        }
        let mut k: usize = 0;
        while k < asks.len()
            invariant
                queue_kept(old(self).queue@, self.queue@),
                this == fixed.1,
                before == old(self).nodes@,
                node.at < catalog@.len(),
                *manifest == catalog@[node.at as int].manifest,
                forall|i: int| old(self).queue@.len() <= i < self.queue@.len() ==> queued_for(#[trigger] self.queue@[i], *manifest, this),
                self.nodes@ == rest,
                self.moved == old(self).moved,
                node.defaults == before[at as int].defaults,
                active_kept(before[at as int].active@, node.active@),
                asks_active(asks@, node.active@),
                rest == before.remove(at as int),
                at < before.len(),
                (node.at, node.name, node.source) == fixed,
                fixed == (before[at as int].at, before[at as int].name, before[at as int].source),
                forall|k2: int| 0 <= k2 < k ==> ask_met(ask_view(#[trigger] asks@[k2]), *manifest, self.queue@, old(self).queue@.len() as int),
                requests_active(self.queue@, old(self).queue@.len() as int, node.active@),
            decreases asks@.len() - k,
        {
            let ask = &asks[k];
            let ghost x = ask_view(*ask);
            let ghost lo = old(self).queue@.len() as int;
            let ghost qstart = self.queue@;
            let mut found: Option<usize> = None;
            let mut q: usize = 0;
            while q < manifest.requires.len()
                invariant
                    q <= manifest.requires@.len(),
                    found matches Some(x) ==> x < manifest.requires@.len() && manifest.requires@[x as int].0@ == ask.dep@,
                    found is None ==> forall|y: int| 0 <= y < q ==> (#[trigger] manifest.requires@[y]).0@ != ask.dep@,
                    found matches Some(x) ==> forall|y: int| 0 <= y < x ==> (#[trigger] manifest.requires@[y]).0@ != ask.dep@,
                decreases manifest.requires@.len() - q,
            {
                if found.is_none() && manifest.requires[q].0.same(&ask.dep) {
                    found = Some(q);
                }
                q += 1;
            }
            if let Some(q) = found {
                let requirement = &manifest.requires[q].1;
                if ask.weak {
                    let mut features: Vec<(FeatureName, Enabler)> = Vec::new();
                    if let Some((f, e)) = &ask.turn {
                        features.push((f.clone(), e.clone()));
                    }
                    let ghost q0 = self.queue@;
                    let ghost fv = features@;
                    self.queue.push(Request { source: None, name: ask.dep.clone(), by: Some(this.clone()), features, defaults: false });
                    assert(forall|i: int| 0 <= i < q0.len() ==> self.queue@[i] == q0[i]);
                    assert(queued_for(self.queue@[q0.len() as int], *manifest, this));
                    proof {
                        let r = self.queue@[q0.len() as int];
                        assert(r.features@ == fv);
                        if let Some((f, e)) = &ask.turn {
                            assert(r.features@[0].0@ == f@);
                        }
                        assert(ask_served_by(x, *manifest, r));
                    }
                } else {
                    let source = match &requirement.source {
                        Some(s) => s.clone(),
                        None => node.source.clone(),
                    };
                    let mut features: Vec<(FeatureName, Enabler)> = Vec::new();
                    let mut f: usize = 0;
                    while f < requirement.features.len()
                        invariant
                            f <= requirement.features@.len(),
                            features@.len() == f,
                            forall|m: int| 0 <= m < f ==> (#[trigger] features@[m]).0 == requirement.features@[m] && features@[m].1 == Enabler::Requires(this),
                            queue_kept(old(self).queue@, self.queue@),
                            self.nodes@ == rest,
                            self.moved == old(self).moved,
                            node.defaults == before[at as int].defaults,
                            active_kept(before[at as int].active@, node.active@),
                            asks_active(asks@, node.active@),
                            rest == before.remove(at as int),
                            at < before.len(),
                            (node.at, node.name, node.source) == fixed,
                            fixed == (before[at as int].at, before[at as int].name, before[at as int].source),
                        decreases requirement.features@.len() - f,
                    {
                        features.push((requirement.features[f].clone(), Enabler::Requires(this.clone())));
                        f += 1;
                    }
                    if let Some((f, e)) = &ask.turn {
                        features.push((f.clone(), e.clone()));
                    }
                    let ghost q0 = self.queue@;
                    let ghost fv = features@;
                    self.queue.push(Request {
                        source: Some(source),
                        name: ask.dep.clone(),
                        by: Some(this.clone()),
                        features,
                        defaults: requirement.default_features,
                    });
                    assert(forall|i: int| 0 <= i < q0.len() ==> self.queue@[i] == q0[i]);
                    assert(manifest.requires@[q as int].1 == *requirement);
                    assert(queued_for(self.queue@[q0.len() as int], *manifest, this));
                    proof {
                        let r = self.queue@[q0.len() as int];
                        assert(r.features@ == fv);
                        lemma_first_req(*manifest, ask.dep@, q as int);
                        if let Some((f, e)) = &ask.turn {
                            assert(r.features@[requirement.features@.len() as int].0@ == f@);
                        }
                        assert(asks_requirement(r, *manifest, ask.dep@));
                        assert(ask_served_by(x, *manifest, r));
                    }
                }
            }
            proof {
                lemma_met_kept(qstart, self.queue@, lo, *manifest);
                assert forall|k2: int| 0 <= k2 < k + 1 implies ask_met(ask_view(#[trigger] asks@[k2]), *manifest, self.queue@, lo) by {
                    if k2 == k {
                        if found is Some {
                            assert(ask_served_by(ask_view(asks@[k2]), *manifest, self.queue@[self.queue@.len() - 1]));
                        } else {
                            assert(!required(*manifest, x.0));
                        }
                    } else {
                        assert(ask_met(ask_view(asks@[k2]), *manifest, qstart, lo));
                    }
                }
            }
            k += 1;
        }
        let ghost kept = node;
        self.nodes.insert(at, node);
        proof {
            lemma_put_back(before, at as int, self.nodes@, catalog@);
            lemma_others(before, at as int, self.nodes@, kept);
            let m = *manifest;
            let lo = old(self).queue@.len() as int;
            assert forall|x: (Seq<char>, Option<(Seq<char>, (int, Seq<char>, Seq<char>))>, bool)| asks_have(unsorted, x) implies ask_met(
                x, m, self.queue@, lo) by {
                assert(asks_have(asks@, x));
                let k2 = choose|k2: int| 0 <= k2 < asks@.len() && ask_view(#[trigger] asks@[k2]) == x;
                assert(ask_met(ask_view(asks@[k2]), m, self.queue@, lo));
            }
            assert forall|d: Seq<char>| #[trigger] active_has(kept.active@, d) && required(m, d) implies exists|i: int| lo <= i < self.queue@.len()
                && asks_requirement(#[trigger] self.queue@[i], m, d) by {
                let a2 = choose|a2: int| 0 <= a2 < kept.active@.len() && (#[trigger] kept.active@[a2])@ == d;
                assert(asks_have(unsorted, (kept.active@[a2]@, None, false)));
                assert(ask_met((d, None, false), m, self.queue@, lo));
                let i = choose|i: int| lo <= i < self.queue@.len() && ask_served_by((d, None, false), m, #[trigger] self.queue@[i]);
            }
            assert(req_met(kept, m, self.queue@, lo));
            assert forall|i2: int, dd: int, j: int| 0 <= i2 < on_names.len() && first_declared(m, #[trigger] on_names[i2]) == Some(dd) && 0 <= j
                < m.features.declared@[dd].1@.len() implies of_met(#[trigger] m.features.declared@[dd].1@[j], kept.active@, names@, m, self.queue@, lo) by {
                assert(of_asked(m.features.declared@[dd].1@[j], on_names[i2], this@, kept.active@, names@, unsorted));
                match m.features.declared@[dd].1@[j] {
                    FeatureRef::Of { profile: p, feature: g, .. } => {
                        if required(m, p@) && (active_has(kept.active@, p@) || active_has(names@, p@)) {
                            let x = (p@, Some((g@, (3int, this@, on_names[i2]))), !active_has(kept.active@, p@));
                            assert(asks_have(unsorted, x));
                            assert(ask_met(x, m, self.queue@, lo));
                            let i = choose|i: int| lo <= i < self.queue@.len() && ask_served_by(x, m, #[trigger] self.queue@[i]);
                            assert(asks_feature(self.queue@[i], p@, g@, active_has(kept.active@, p@)));
                        }
                    },
                    _ => {},
                }
            }
            assert(feature_names(kept.features@) == on_names);
            assert(of_refs_met(kept, m, names@, self.queue@, lo));
        }
        true
    }
}

/// Whether each ask of `asks` that activates its requirement names one of `active`.
spec fn asks_active(asks: Seq<Ask>, active: Seq<ProfileName>) -> bool {
    forall|k: int| 0 <= k < asks.len() && !asks[k].weak ==> active_has(active, (#[trigger] asks[k]).dep@)
}

/// Whether each request of `q` from `lo` on that reaches its profile from a source names one
/// of `active`.
spec fn requests_active(q: Seq<Request>, lo: int, active: Seq<ProfileName>) -> bool {
    forall|i: int| lo <= i < q.len() && (#[trigger] q[i]).source is Some ==> active_has(active, q[i].name@)
}

/// Asks stay active as what is active grows; an ask added stays so when it is weak or names an
/// active profile.
proof fn lemma_asks_active(asks: Seq<Ask>, a1: Seq<ProfileName>, a2: Seq<ProfileName>, more: Option<Ask>)
    requires
        asks_active(asks, a1),
        active_kept(a1, a2),
        more matches Some(a) ==> a.weak || active_has(a2, a.dep@),
    ensures
        asks_active(asks, a2),
        more matches Some(a) ==> asks_active(asks.push(a), a2),
{
    assert forall|k: int| 0 <= k < asks.len() && !asks[k].weak implies active_has(a2, (#[trigger] asks[k]).dep@) by {
        assert(active_has(a1, asks[k].dep@));
    }
    if let Some(a) = more {
        assert forall|k: int| 0 <= k < asks.push(a).len() && !asks.push(a)[k].weak implies active_has(a2, (#[trigger] asks.push(a)[k]).dep@) by {
            if k < asks.len() {
                assert(asks.push(a)[k] == asks[k]);
            }
        }
    }
}

/// A profile pushed among the active is active.
proof fn lemma_active_pushed(a: Seq<ProfileName>, n: ProfileName)
    ensures
        active_has(a.push(n), n@),
        active_kept(a, a.push(n)),
{
    assert(a.push(n)[a.len() as int] == n);
    lemma_kept_prefix(a, a.push(n));
}

/// Whether some node of `nodes` has the profile named `n` active.
pub open spec fn active_in(nodes: Seq<Node>, n: Seq<char>) -> bool {
    exists|p: int| 0 <= p < nodes.len() && active_has((#[trigger] nodes[p]).active@, n)
}

/// Whether `r`, when it reaches its profile from a source, asks for a profile of `roots` or one
/// a node of `nodes` has active.
spec fn asked_for(r: Request, nodes: Seq<Node>, roots: Seq<Seq<char>>) -> bool {
    r.source is Some ==> roots.contains(r.name@) || active_in(nodes, r.name@)
}

/// Whether every request of `q` is [`asked_for`].
spec fn queue_asked(q: Seq<Request>, nodes: Seq<Node>, roots: Seq<Seq<char>>) -> bool {
    forall|i: int| 0 <= i < q.len() ==> asked_for(#[trigger] q[i], nodes, roots)
}

/// Whether each node of `nodes` is one of `roots`, or a profile a node before it has active.
pub open spec fn origins(nodes: Seq<Node>, roots: Seq<Seq<char>>) -> bool {
    forall|k: int| 0 <= k < nodes.len() ==> roots.contains((#[trigger] nodes[k]).name@) || exists|p: int| 0 <= p < k && active_has(
        nodes[p].active@,
        nodes[k].name@,
    )
}

/// Growing nodes in place keeps their origins and what was asked for; so do requests for
/// profiles the node at `at` has active.
proof fn lemma_origins_grown(a: Seq<Node>, b: Seq<Node>, roots: Seq<Seq<char>>, qa: Seq<Request>, qb: Seq<Request>, at: int)
    requires
        grown(a, b),
        a.len() == b.len(),
        origins(a, roots),
        queue_asked(qa, a, roots),
        queue_kept(qa, qb),
        0 <= at < b.len(),
        requests_active(qb, qa.len() as int, b[at].active@),
    ensures
        origins(b, roots),
        queue_asked(qb, b, roots),
{
    assert forall|k: int| 0 <= k < b.len() implies roots.contains((#[trigger] b[k]).name@) || exists|p: int| 0 <= p < k && active_has(
        b[p].active@,
        b[k].name@,
    ) by {
        assert(b[k].name == a[k].name);
        if !roots.contains(a[k].name@) {
            let p = choose|p: int| 0 <= p < k && active_has(a[p].active@, a[k].name@);
            assert(active_has(b[p].active@, b[k].name@));
        }
    }
    assert forall|i: int| 0 <= i < qb.len() implies asked_for(#[trigger] qb[i], b, roots) by {
        if i < qa.len() {
            assert(qb[i] == qa[i]);
            assert(asked_for(qa[i], a, roots));
            if qb[i].source is Some && !roots.contains(qb[i].name@) {
                let p = choose|p: int| 0 <= p < a.len() && active_has((#[trigger] a[p]).active@, qa[i].name@);
                assert(active_has(b[p].active@, qa[i].name@));
            }
        } else if qb[i].source is Some {
            assert(active_has(b[at].active@, qb[i].name@));
        }
    }
}

/// Growing nodes keeps what was asked for asked for.
proof fn lemma_grown_asked(a: Seq<Node>, b: Seq<Node>, roots: Seq<Seq<char>>, q: Seq<Request>)
    requires
        grown(a, b),
        queue_asked(q, a, roots),
    ensures
        queue_asked(q, b, roots),
{
    assert forall|i: int| 0 <= i < q.len() implies asked_for(#[trigger] q[i], b, roots) by {
        assert(asked_for(q[i], a, roots));
        if q[i].source is Some && !roots.contains(q[i].name@) {
            let p = choose|p: int| 0 <= p < a.len() && active_has((#[trigger] a[p]).active@, q[i].name@);
            assert(active_has(b[p].active@, q[i].name@));
        }
    }
}

/// Whether each profile active in `a` is active in `b`.
pub open spec fn active_kept(a: Seq<ProfileName>, b: Seq<ProfileName>) -> bool {
    forall|x: Seq<char>| active_has(a, x) ==> #[trigger] active_has(b, x)
}

/// Names kept where they were keep every profile active.
proof fn lemma_kept_prefix(a: Seq<ProfileName>, b: Seq<ProfileName>)
    requires
        a.len() <= b.len(),
        forall|i: int| 0 <= i < a.len() ==> b[i] == a[i],
    ensures
        active_kept(a, b),
{
    assert forall|x: Seq<char>| active_has(a, x) implies #[trigger] active_has(b, x) by {
        let k = choose|k: int| 0 <= k < a.len() && (#[trigger] a[k])@ == x;
        assert(b[k] == a[k]);
    }
}

/// Keeping what is active is transitive.
proof fn lemma_kept_trans(a: Seq<ProfileName>, b: Seq<ProfileName>, c: Seq<ProfileName>)
    requires
        active_kept(a, b),
        active_kept(b, c),
    ensures
        active_kept(a, c),
{
    assert forall|x: Seq<char>| active_has(a, x) implies #[trigger] active_has(c, x) by {
        assert(active_has(b, x));
    }
}

/// Whether the manifest `m` requires a profile named `d`.
pub open spec fn required(m: Manifest, d: Seq<char>) -> bool {
    exists|q: int| 0 <= q < m.requires@.len() && (#[trigger] m.requires@[q]).0@ == d
}

/// Where the first entry of `m`'s `[requires]` named `d` is.
pub open spec fn first_req(m: Manifest, d: Seq<char>) -> int {
    choose|q: int| 0 <= q < m.requires@.len() && (#[trigger] m.requires@[q]).0@ == d && forall|y: int| 0 <= y < q ==> (#[trigger] m.requires@[y]).0@ != d
}

/// The first entry named `d` is the one before which none is.
proof fn lemma_first_req(m: Manifest, d: Seq<char>, x: int)
    requires
        0 <= x < m.requires@.len(),
        m.requires@[x].0@ == d,
        forall|y: int| 0 <= y < x ==> (#[trigger] m.requires@[y]).0@ != d,
    ensures
        first_req(m, d) == x,
{
    let q = first_req(m, d);
    assert(0 <= q < m.requires@.len() && m.requires@[q].0@ == d && forall|y: int| 0 <= y < q ==> (#[trigger] m.requires@[y]).0@ != d);
    if q < x {
        assert(m.requires@[q].0@ != d);
    } else if q > x {
        assert(m.requires@[x].0@ != d);
    }
}

/// Whether `r` asks for the requirement named `d` as `m` writes it: from a source, with the
/// first such entry's features first, and its defaults.
pub open spec fn asks_requirement(r: Request, m: Manifest, d: Seq<char>) -> bool {
    let q = first_req(m, d);
    &&& r.source is Some
    &&& r.name@ == d
    &&& r.defaults == m.requires@[q].1.default_features
    &&& r.features@.len() >= m.requires@[q].1.features@.len()
    &&& forall|f: int| 0 <= f < m.requires@[q].1.features@.len() ==> (#[trigger] r.features@[f]).0 == m.requires@[q].1.features@[f]
}

/// Whether `r` asks the profile named `d` for its feature `g`: from a source when `strong`, else
/// only where it is already active.
pub open spec fn asks_feature(r: Request, d: Seq<char>, g: Seq<char>, strong: bool) -> bool {
    &&& r.name@ == d
    &&& (r.source is Some <==> strong)
    &&& exists|k: int| 0 <= k < r.features@.len() && (#[trigger] r.features@[k]).0@ == g
}

/// The names of `nodes`.
pub open spec fn node_names(nodes: Seq<Node>) -> Seq<ProfileName> {
    nodes.map_values(|n: Node| n.name)
}

/// Whether, among the requests of `q` from `lo` on, one asks for each requirement the node `n`
/// of manifest `m` activates.
pub open spec fn req_met(n: Node, m: Manifest, q: Seq<Request>, lo: int) -> bool {
    forall|d: Seq<char>| #[trigger] active_has(n.active@, d) && required(m, d) ==> exists|i: int| lo <= i < q.len() && asks_requirement(
        #[trigger] q[i],
        m,
        d,
    )
}

/// Whether the reference `r` of a feature that is on, in a node whose active requirements are
/// `active` among nodes named `names`, is asked for among the requests of `q` from `lo` on: a
/// requirement's feature, asked of it from its source when it is active, and only where it is
/// already a node otherwise.
pub open spec fn of_met(r: FeatureRef, active: Seq<ProfileName>, names: Seq<ProfileName>, m: Manifest, q: Seq<Request>, lo: int) -> bool {
    match r {
        FeatureRef::Of { profile: p, feature: g, .. } => (required(m, p@) && (active_has(active, p@) || active_has(names, p@))) ==> exists|i: int|
            lo <= i < q.len() && asks_feature(#[trigger] q[i], p@, g@, active_has(active, p@)),
        _ => true,
    }
}

/// Whether every requirement's feature the features on in `n` name is asked for, as [`of_met`].
pub open spec fn of_refs_met(n: Node, m: Manifest, names: Seq<ProfileName>, q: Seq<Request>, lo: int) -> bool {
    let on = feature_names(n.features@);
    forall|i: int, dd: int, j: int| 0 <= i < on.len() && first_declared(m, #[trigger] on[i]) == Some(dd) && 0 <= j < m.features.declared@[dd].1@.len()
        ==> of_met(#[trigger] m.features.declared@[dd].1@[j], n.active@, names, m, q, lo)
}

/// Whether the references of `refs` up to `upto`, of the feature `f` of the profile `me`, are
/// among `asks` as the features on and the requirements `active` make them, among nodes named
/// `names`.
spec fn of_asked(r: FeatureRef, f: Seq<char>, me: Seq<char>, active: Seq<ProfileName>, names: Seq<ProfileName>, asks: Seq<Ask>) -> bool {
    match r {
        FeatureRef::Of { profile: p, feature: g, .. } => (active_has(active, p@) || active_has(names, p@)) ==> asks_have(
            asks,
            (p@, Some((g@, (3int, me, f))), !active_has(active, p@)),
        ),
        _ => true,
    }
}

/// Whether a request among those of `q` from `lo` on answers the ask `x` of manifest `m`.
spec fn ask_met(x: (Seq<char>, Option<(Seq<char>, (int, Seq<char>, Seq<char>))>, bool), m: Manifest, q: Seq<Request>, lo: int) -> bool {
    required(m, x.0) ==> exists|i: int| lo <= i < q.len() && ask_served_by(x, m, #[trigger] q[i])
}

/// Whether `r` answers the ask `x` of manifest `m`.
spec fn ask_served_by(x: (Seq<char>, Option<(Seq<char>, (int, Seq<char>, Seq<char>))>, bool), m: Manifest, r: Request) -> bool {
    &&& !x.2 ==> asks_requirement(r, m, x.0)
    &&& match x.1 {
        Some(t) => asks_feature(r, x.0, t.0, !x.2),
        None => r.name@ == x.0,
    }
}

/// Pushing an ask keeps every ask there and adds it.
proof fn lemma_push_ask(s: Seq<Ask>, a: Ask)
    ensures
        forall|x: (Seq<char>, Option<(Seq<char>, (int, Seq<char>, Seq<char>))>, bool)| asks_have(s, x) ==> #[trigger] asks_have(s.push(a), x),
        asks_have(s.push(a), ask_view(a)),
{
    assert forall|x: (Seq<char>, Option<(Seq<char>, (int, Seq<char>, Seq<char>))>, bool)| asks_have(s, x) implies #[trigger] asks_have(s.push(a), x) by {
        let i = choose|i: int| 0 <= i < s.len() && ask_view(#[trigger] s[i]) == x;
        assert(s.push(a)[i] == s[i]);
    }
    assert(s.push(a)[s.len() as int] == a);
}

/// Requests kept answer what they answered.
proof fn lemma_met_kept(q0: Seq<Request>, q: Seq<Request>, lo: int, m: Manifest)
    requires
        queue_kept(q0, q),
        0 <= lo,
    ensures
        forall|x: (Seq<char>, Option<(Seq<char>, (int, Seq<char>, Seq<char>))>, bool)| ask_met(x, m, q0, lo) ==> #[trigger] ask_met(x, m, q, lo),
        forall|n: Node| req_met(n, m, q0, lo) ==> #[trigger] req_met(n, m, q, lo),
        forall|n: Node, names: Seq<ProfileName>| of_refs_met(n, m, names, q0, lo) ==> #[trigger] of_refs_met(n, m, names, q, lo),
{
    assert forall|x: (Seq<char>, Option<(Seq<char>, (int, Seq<char>, Seq<char>))>, bool)| ask_met(x, m, q0, lo) implies #[trigger] ask_met(x, m, q, lo) by {
        if required(m, x.0) {
            let i = choose|i: int| lo <= i < q0.len() && ask_served_by(x, m, #[trigger] q0[i]);
            assert(q[i] == q0[i]);
        }
    }
    assert forall|n: Node| req_met(n, m, q0, lo) implies #[trigger] req_met(n, m, q, lo) by {
        assert forall|d: Seq<char>| #[trigger] active_has(n.active@, d) && required(m, d) implies exists|i: int| lo <= i < q.len() && asks_requirement(
            #[trigger] q[i], m, d) by {
            let i = choose|i: int| lo <= i < q0.len() && asks_requirement(#[trigger] q0[i], m, d);
            assert(q[i] == q0[i]);
        }
    }
    assert forall|n: Node, names: Seq<ProfileName>| of_refs_met(n, m, names, q0, lo) implies #[trigger] of_refs_met(n, m, names, q, lo) by {
        let on = feature_names(n.features@);
        assert forall|i: int, dd: int, j: int| 0 <= i < on.len() && first_declared(m, #[trigger] on[i]) == Some(dd) && 0 <= j
            < m.features.declared@[dd].1@.len() implies of_met(#[trigger] m.features.declared@[dd].1@[j], n.active@, names, m, q, lo) by {
            assert(of_met(m.features.declared@[dd].1@[j], n.active@, names, m, q0, lo));
            match m.features.declared@[dd].1@[j] {
                FeatureRef::Of { profile: p, feature: g, .. } => {
                    if required(m, p@) && (active_has(n.active@, p@) || active_has(names, p@)) {
                        let i2 = choose|i2: int| lo <= i2 < q0.len() && asks_feature(#[trigger] q0[i2], p@, g@, active_has(n.active@, p@));
                        assert(q[i2] == q0[i2]);
                    }
                },
                _ => {},
            }
        }
    }
}

/// Whether `r` is a request the node named `me`, of manifest `m`, makes of what it requires: of a
/// profile its `[requires]` names, by it; a strong one with the entry's defaults and its
/// features first, each turned on by `me`; a weak one with at most the one feature it asks.
pub open spec fn queued_for(r: Request, m: Manifest, me: ProfileName) -> bool {
    &&& r.by == Some(me)
    &&& exists|q: int| 0 <= q < m.requires@.len() && (#[trigger] m.requires@[q]).0@ == r.name@ && if r.source is Some {
        &&& r.defaults == m.requires@[q].1.default_features
        &&& r.features@.len() >= m.requires@[q].1.features@.len()
        &&& forall|f: int| 0 <= f < m.requires@[q].1.features@.len() ==> (#[trigger] r.features@[f]).0 == m.requires@[q].1.features@[f]
            && r.features@[f].1 == Enabler::Requires(me)
    } else {
        !r.defaults && r.features@.len() <= 1
    }
}

/// Whether the node `n`, when its defaults are on, has each default feature of its profile on.
pub open spec fn defaults_on(n: Node, catalog: Seq<Loaded>) -> bool {
    n.defaults ==> forall|d: int| 0 <= d < catalog[n.at as int].manifest.features.default@.len() ==> feature_names(n.features@).contains(
        (#[trigger] catalog[n.at as int].manifest.features.default@[d])@,
    )
}

/// Whether every node of `nodes` whose defaults are on has each default feature on.
pub open spec fn all_defaults_on(nodes: Seq<Node>, catalog: Seq<Loaded>) -> bool {
    forall|k: int| 0 <= k < nodes.len() ==> defaults_on(#[trigger] nodes[k], catalog)
}

/// Whether the node `n` is settled in its profile: what each feature on turns on, by the
/// profile's `[features]`, is on.
pub open spec fn settled_node(n: Node, catalog: Seq<Loaded>) -> bool {
    settled_in(catalog[n.at as int].manifest, feature_names(n.features@), n.active@)
}

/// Whether `b` is `a` as far as settling goes: of one profile, with the same features on and
/// the same requirements active.
spec fn same_on(a: Node, b: Node) -> bool {
    a.at == b.at && feature_names(a.features@) == feature_names(b.features@) && a.active == b.active
}

/// Whether `new` holds the nodes of `old` as far as settling goes.
spec fn all_same_on(old: Seq<Node>, new: Seq<Node>) -> bool {
    old.len() == new.len() && forall|k: int| 0 <= k < old.len() ==> same_on(#[trigger] old[k], new[k])
}

/// Nodes the same as far as settling goes, twice, are the same once; and they keep settled
/// nodes settled.
proof fn lemma_same_on(a: Seq<Node>, b: Seq<Node>, c: Seq<Node>, catalog: Seq<Loaded>)
    ensures
        all_same_on(a, b) && all_same_on(b, c) ==> all_same_on(a, c),
        (all_same_on(a, b) && forall|k: int| 0 <= k < a.len() ==> settled_node(#[trigger] a[k], catalog)) ==> forall|k: int|
            0 <= k < b.len() ==> settled_node(#[trigger] b[k], catalog),
{
    if all_same_on(a, b) && all_same_on(b, c) {
        assert forall|k: int| 0 <= k < a.len() implies same_on(#[trigger] a[k], c[k]) by {
            assert(same_on(a[k], b[k]) && same_on(b[k], c[k]));
        }
    }
    if all_same_on(a, b) && forall|k: int| 0 <= k < a.len() ==> settled_node(#[trigger] a[k], catalog) {
        assert forall|k: int| 0 <= k < b.len() implies settled_node(#[trigger] b[k], catalog) by {
            assert(same_on(a[k], b[k]));
            assert(settled_node(a[k], catalog));
        }
    }
}

/// Whether `new` holds the nodes of `old` where they were, by name, each with every feature it
/// had on, and perhaps more nodes after them.
spec fn grown(old: Seq<Node>, new: Seq<Node>) -> bool {
    &&& old.len() <= new.len()
    &&& forall|k: int| 0 <= k < old.len() ==> (#[trigger] new[k]).name == old[k].name
    &&& forall|k: int, x: Seq<char>| 0 <= k < old.len() && feature_names(old[k].features@).contains(x) ==> #[trigger] feature_names(
        new[k].features@,
    ).contains(x)
    &&& forall|k: int| 0 <= k < old.len() && old[k].defaults ==> (#[trigger] new[k]).defaults
    &&& forall|k: int, x: Seq<char>| 0 <= k < old.len() && active_has(old[k].active@, x) ==> #[trigger] active_has(new[k].active@, x)
}

/// Whether `new` holds the requests of `old` first, in order, and perhaps more after them.
spec fn queue_kept(old: Seq<Request>, new: Seq<Request>) -> bool {
    old.len() <= new.len() && forall|i: int| 0 <= i < old.len() ==> #[trigger] new[i] == old[i]
}

/// Whether `request` is served in `nodes`: a node has its name and every feature it asks on.
pub open spec fn served(nodes: Seq<Node>, request: Request) -> bool {
    exists|at: int| 0 <= at < nodes.len() && (#[trigger] nodes[at]).name@ == request.name@ && (request.defaults ==> nodes[at].defaults) && forall|k: int|
        0 <= k < request.features@.len() ==> feature_names(nodes[at].features@).contains((#[trigger] request.features@[k]).0@)
}

/// Growing nodes is transitive, and keeps what is served served.
proof fn lemma_grown(a: Seq<Node>, b: Seq<Node>, c: Seq<Node>)
    requires
        grown(a, b),
        grown(b, c),
    ensures
        grown(a, c),
        forall|r: Request| served(a, r) ==> served(c, r),
{
    assert forall|r: Request| served(a, r) implies served(c, r) by {
        let at = choose|at: int| 0 <= at < a.len() && (#[trigger] a[at]).name@ == r.name@ && (r.defaults ==> a[at].defaults) && forall|k: int|
            0 <= k < r.features@.len() ==> feature_names(a[at].features@).contains((#[trigger] r.features@[k]).0@);
        assert(c[at].name == a[at].name);
        assert(a[at].defaults ==> b[at].defaults);
        assert(b[at].defaults ==> c[at].defaults);
        assert forall|k: int| 0 <= k < r.features@.len() implies feature_names(c[at].features@).contains((#[trigger] r.features@[k]).0@) by {
            assert(feature_names(b[at].features@).contains(r.features@[k].0@));
        }
    }
    assert forall|k: int, x: Seq<char>| 0 <= k < a.len() && feature_names(a[k].features@).contains(x) implies #[trigger] feature_names(
        c[k].features@,
    ).contains(x) by {
        assert(feature_names(b[k].features@).contains(x));
    }
}

/// A node put back where it was, its name kept and no feature of it off, grows the nodes.
proof fn lemma_put_back_grown(before: Seq<Node>, at: int, after: Seq<Node>, node: Node)
    requires
        0 <= at < before.len(),
        after == before.remove(at).insert(at, node),
        node.name == before[at].name,
        before[at].defaults ==> node.defaults,
        forall|x: Seq<char>| active_has(before[at].active@, x) ==> active_has(node.active@, x),
        forall|x: Seq<char>| feature_names(before[at].features@).contains(x) ==> feature_names(node.features@).contains(x),
    ensures
        grown(before, after),
{
    lemma_others(before, at, after, node);
}

/// Turning a feature on leaves every feature that was on, on.
proof fn lemma_turn_keeps(was: Seq<Seq<char>>, now: Seq<Seq<char>>, f: Seq<char>)
    requires
        now == if was.contains(f) {
            was
        } else {
            was.push(f)
        },
    ensures
        forall|x: Seq<char>| was.contains(x) ==> now.contains(x),
        now.contains(f),
{
    assert forall|x: Seq<char>| was.contains(x) implies now.contains(x) by {
        let m = choose|m: int| 0 <= m < was.len() && was[m] == x;
        assert(now[m] == x);
    }
    if !was.contains(f) {
        assert(now[was.len() as int] == f);
    }
}

/// A node taken out and put back where it was leaves the others as they were.
proof fn lemma_others(before: Seq<Node>, at: int, after: Seq<Node>, node: Node)
    requires
        0 <= at < before.len(),
        after == before.remove(at).insert(at, node),
    ensures
        after[at] == node,
        forall|k: int| 0 <= k < before.len() && k != at ==> after[k] == before[k],
{
    assert forall|k: int| 0 <= k < before.len() && k != at implies after[k] == before[k] by {
        if k < at {
            assert(after[k] == before.remove(at)[k]);
        } else {
            assert(after[k] == before.remove(at)[k - 1]);
        }
    }
}

/// A node taken out and put back where it was, its place, name and source unchanged, leaves the
/// nodes well formed.
proof fn lemma_put_back(before: Seq<Node>, at: int, after: Seq<Node>, catalog: Seq<Loaded>)
    requires
        nodes_wf(before, catalog),
        0 <= at < before.len(),
        after == before.remove(at).insert(at, after[at]),
        (after[at].at, after[at].name, after[at].source) == (before[at].at, before[at].name, before[at].source),
    ensures
        nodes_wf(after, catalog),
        after.len() == before.len(),
{
    assert(after =~= before.update(at, after[at]));
    assert forall|k: int| 0 <= k < after.len() implies (#[trigger] after[k]).at == before[k].at && after[k].name == before[k].name
        && after[k].source == before[k].source by {
        if k != at {
            assert(after[k] == before[k]);
        }
    }
}

/// The features that are on, by name.
fn declared_on(features: &Vec<(FeatureName, Vec<Enabler>)>) -> (out: Vec<FeatureName>)
    ensures
        out@.len() == features@.len(),
        forall|k: int| 0 <= k < out@.len() ==> (#[trigger] out@[k])@ == feature_names(features@)[k],
{
    let mut out: Vec<FeatureName> = Vec::new();
    let mut i: usize = 0;
    while i < features.len()
        invariant
            i <= features@.len(),
            out@.len() == i,
            forall|k: int| 0 <= k < i ==> (#[trigger] out@[k])@ == feature_names(features@)[k],
        decreases features@.len() - i,
    {
        out.push(features[i].0.clone());
        i += 1;
    }
    out
}

impl Builder {
    /// Serves `request`: the profile activated, its features turned on, and what they turn on
    /// requested in turn.
    ///
    /// Fails with `UnknownFeature` when the request asks a feature the profile does not declare.
    #[verifier::rlimit(60)]
    #[verifier::spinoff_prover]
    fn serve(&mut self, catalog: &Vec<Loaded>, request: Request, budget: &mut u64, Ghost(roots): Ghost<Seq<Seq<char>>>) -> (r: Result<Flow, ProfileError>)
        requires
            nodes_wf(old(self).nodes@, catalog@),
            all_defaults_on(old(self).nodes@, catalog@),
            origins(old(self).nodes@, roots),
            queue_asked(old(self).queue@, old(self).nodes@, roots),
            asked_for(request, old(self).nodes@, roots),
        ensures
            origins(final(self).nodes@, roots),
            queue_asked(final(self).queue@, final(self).nodes@, roots),
            nodes_wf(final(self).nodes@, catalog@),
            all_defaults_on(final(self).nodes@, catalog@),
            final(self).nodes@.len() >= old(self).nodes@.len(),
            *final(budget) <= *old(budget),
            grown(old(self).nodes@, final(self).nodes@),
            queue_kept(old(self).queue@, final(self).queue@),
            (request.source is None && forall|k: int| 0 <= k < old(self).nodes@.len() ==> (#[trigger] old(self).nodes@[k]).name@
                != request.name@) ==> (r matches Ok(Flow::Done) && final(self).nodes == old(self).nodes),
            r matches Ok(Flow::Load(s, n)) ==> n@ == request.name@ && forall|j: int| 0 <= j < catalog@.len() ==> !is_loaded(
                #[trigger] catalog@[j],
                s,
                n@,
            ),
            r matches Ok(Flow::Spent) ==> *final(budget) == 0,
            r matches Err(e) ==> (e is UnknownFeature || e is Diverged || e is SameName),
            old(self).moved ==> final(self).moved,
            (r matches Ok(Flow::Done) && !final(self).moved) ==> all_same_on(old(self).nodes@, final(self).nodes@),
            r matches Err(ProfileError::UnknownFeature { profile, feature, .. }) ==> profile@ == request.name@ && exists|k: int|
                0 <= k < request.features@.len() && (#[trigger] request.features@[k]).0@ == feature@,
            (r matches Ok(Flow::Done) && (request.source is Some || exists|k: int| 0 <= k < old(self).nodes@.len()
                && (#[trigger] old(self).nodes@[k]).name@ == request.name@)) ==> exists|at: int| 0 <= at < final(self).nodes@.len()
                && (#[trigger] final(self).nodes@[at]).name@ == request.name@ && (request.defaults ==> final(self).nodes@[at].defaults) && forall|k: int| 0 <= k < request.features@.len()
                ==> feature_names(final(self).nodes@[at].features@).contains((#[trigger] request.features@[k]).0@),
    {
        let ghost req_features = request.features@;
        let ghost req_name = request.name@;
        let ghost req_source = request.source;
        assert(req_features == request.features@ && req_name == request.name@ && req_source == request.source);
        let Request { source, name, by, features, defaults } = request;
        let weak = source.is_none();
        let source = match source {
            Some(s) => s,
            None => match node_named(&self.nodes, &name) {
                Some(k) => self.nodes[k].source.clone(),
                None => return Ok(Flow::Done),
            },
        };
        let (at, new) = match self.node(catalog, &source, &name) {
            Ok(Some(found)) => found,
            Ok(None) => return Ok(Flow::Load(source, name)),
            Err(e) => return Err(e),
        };
        let ghost before = self.nodes@;
        proof {
            if new {
                assert(before.drop_last() == old(self).nodes@);
                assert forall|k: int| 0 <= k < before.len() implies roots.contains((#[trigger] before[k]).name@) || exists|p: int| 0 <= p < k
                    && active_has(before[p].active@, before[k].name@) by {
                    if k < old(self).nodes@.len() {
                        assert(before[k] == old(self).nodes@[k]);
                        if !roots.contains(before[k].name@) {
                            let p = choose|p: int| 0 <= p < k && active_has(old(self).nodes@[p].active@, old(self).nodes@[k].name@);
                            assert(before[p] == old(self).nodes@[p]);
                        }
                    } else if !roots.contains(before[k].name@) {
                        let p = choose|p: int| 0 <= p < old(self).nodes@.len() && active_has((#[trigger] old(self).nodes@[p]).active@, req_name);
                        assert(before[p] == old(self).nodes@[p]);
                    }
                }
            }
            assert(queue_kept(self.queue@, self.queue@));
            lemma_grown_asked(old(self).nodes@, before, roots, self.queue@);
        }
        assert(grown(old(self).nodes@, before) && self.queue == old(self).queue);
        assert(!new ==> before == old(self).nodes@);
        assert(req_source is Some || exists|k: int| 0 <= k < old(self).nodes@.len() && (#[trigger] old(self).nodes@[k]).name@ == req_name);
        let mut node = self.nodes.remove(at);
        let ghost rest = self.nodes@;
        let ghost fixed = (node.at, node.name, node.source);
        assert(node == before[at as int]);
        let mut changed = new;
        match &by {
            None => {
                node.configured = true;
                node.no_defaults = !defaults;
            },
            Some(requirer) => if !weak {
                add_name(&mut node.required_by, requirer);
            },
        }
        let manifest = &catalog[node.at].manifest;
        if defaults && !node.defaults {
            node.defaults = true;
            if node.no_defaults {
                if let Some(requirer) = &by {
                    self.warnings.push(Warning::DefaultsOn { profile: name.clone(), by: requirer.clone() });
                }
            }
            let mut i: usize = 0;
            while i < manifest.features.default.len()
                invariant
                    self.nodes@ == rest,
                    rest == before.remove(at as int),
                    at < before.len(),
                    (node.at, node.name, node.source) == fixed,
                    fixed == (before[at as int].at, before[at as int].name, before[at as int].source),
                    self.queue == old(self).queue,
                    forall|x: Seq<char>| feature_names(before[at as int].features@).contains(x) ==> feature_names(node.features@).contains(x),
                    !changed ==> feature_names(node.features@) == feature_names(before[at as int].features@) && !new,
                    node.active == before[at as int].active,
                    self.moved == old(self).moved,
                    !new ==> before == old(self).nodes@,
                    node.defaults,
                    node.at < catalog@.len(),
                    *manifest == catalog@[node.at as int].manifest,
                    i <= manifest.features.default@.len(),
                    forall|d: int| 0 <= d < i ==> feature_names(node.features@).contains((#[trigger] manifest.features.default@[d])@),
                decreases manifest.features.default@.len() - i,
            {
                let ghost was = feature_names(node.features@);
                if turn(&mut node.features, &manifest.features.default[i], &Enabler::Default) {
                    changed = true;
                }
                proof {
                    lemma_turn_keeps(was, feature_names(node.features@), manifest.features.default@[i as int]@);
                    assert forall|d: int| 0 <= d < i + 1 implies feature_names(node.features@).contains((#[trigger] manifest.features.default@[d])@) by {
                        if d < i {
                            assert(was.contains(manifest.features.default@[d]@));
                        }
                    }
                }
                i += 1;
            }
        }
        assert(defaults_on(node, catalog@));
        let mut k: usize = 0;
        while k < features.len()
            invariant
                self.nodes@ == rest,
                rest == before.remove(at as int),
                at < before.len(),
                before.len() >= old(self).nodes@.len(),
                nodes_wf(before, catalog@),
                all_defaults_on(before, catalog@),
                (node.at, node.name, node.source) == fixed,
                fixed == (before[at as int].at, before[at as int].name, before[at as int].source),
                node.at < catalog@.len(),
                *manifest == catalog@[node.at as int].manifest,
                features@ == req_features,
                name@ == req_name,
                req_features == request.features@ && req_name == request.name@ && req_source == request.source,
                node.name@ == name@,
                req_source is Some || exists|k: int| 0 <= k < old(self).nodes@.len() && (#[trigger] old(self).nodes@[k]).name@ == req_name,
                forall|k2: int| 0 <= k2 < k ==> feature_names(node.features@).contains((#[trigger] features@[k2]).0@),
                self.queue == old(self).queue,
                grown(old(self).nodes@, before),
                forall|x: Seq<char>| feature_names(before[at as int].features@).contains(x) ==> feature_names(node.features@).contains(x),
                !changed ==> feature_names(node.features@) == feature_names(before[at as int].features@) && !new,
                node.active == before[at as int].active,
                self.moved == old(self).moved,
                !new ==> before == old(self).nodes@,
                defaults_on(node, catalog@),
                all_defaults_on(before, catalog@),
                before[at as int].defaults ==> node.defaults,
                defaults ==> node.defaults,
                defaults == request.defaults,
                origins(before, roots),
                queue_asked(old(self).queue@, before, roots),
            decreases features@.len() - k,
        {
            let (feature, enabler) = (&features[k].0, &features[k].1);
            if declared_at(manifest, feature).is_none() {
                let who = match &by {
                    Some(requirer) => crate::text::cat("profile ", requirer.as_str()),
                    None => "the target".to_owned(),
                };
                let known = declared_names(manifest);
                let ghost kept = node;
                self.nodes.insert(at, node);
                proof {
                    lemma_put_back(before, at as int, self.nodes@, catalog@);
                    lemma_put_back_grown(before, at as int, self.nodes@, kept);
                    assert(queue_kept(self.queue@, self.queue@));
                    lemma_origins_grown(before, self.nodes@, roots, self.queue@, self.queue@, at as int);
                    lemma_grown(old(self).nodes@, before, self.nodes@);
                    lemma_others(before, at as int, self.nodes@, kept);
                    assert forall|k2: int| 0 <= k2 < self.nodes@.len() implies defaults_on(#[trigger] self.nodes@[k2], catalog@) by {
                        if k2 != at {
                            assert(self.nodes@[k2] == before[k2]);
                        }
                    }
                }
                assert(features@[k as int].0@ == feature@);
                assert(req_features[k as int].0@ == feature@);
                assert(req_source is Some || exists|k: int| 0 <= k < old(self).nodes@.len() && (#[trigger] old(self).nodes@[k]).name@ == req_name);
                return Err(ProfileError::UnknownFeature { profile: name.clone(), feature: feature.clone(), by: who, known });
            }
            let ghost was = feature_names(node.features@);
            if turn(&mut node.features, feature, enabler) {
                changed = true;
            }
            proof {
                lemma_turn_keeps(was, feature_names(node.features@), feature@);
                if node.defaults {
                    assert forall|d: int| 0 <= d < catalog@[node.at as int].manifest.features.default@.len() implies feature_names(node.features@).contains(
                        (#[trigger] catalog@[node.at as int].manifest.features.default@[d])@) by {
                        assert(was.contains(catalog@[node.at as int].manifest.features.default@[d]@));
                    }
                }
                assert forall|k2: int| 0 <= k2 < k + 1 implies feature_names(node.features@).contains((#[trigger] features@[k2]).0@) by {
                    if k2 < k {
                        let m = choose|m: int| 0 <= m < was.len() && was[m] == features@[k2].0@;
                        if feature_names(node.features@) != was {
                            assert(feature_names(node.features@)[m] == was[m]);
                        }
                    } else if feature_names(node.features@) != was {
                        assert(feature_names(node.features@)[was.len() as int] == feature@);
                    }
                }
            }
            k += 1;
        }
        let ghost kept = node;
        self.nodes.insert(at, node);
        proof {
            lemma_put_back(before, at as int, self.nodes@, catalog@);
            lemma_others(before, at as int, self.nodes@, kept);
            lemma_put_back_grown(before, at as int, self.nodes@, kept);
            assert(queue_kept(self.queue@, self.queue@));
            lemma_origins_grown(before, self.nodes@, roots, self.queue@, self.queue@, at as int);
            lemma_grown(old(self).nodes@, before, self.nodes@);
            assert(self.nodes@[at as int].name@ == req_name);
        }
        let ghost mid = self.nodes@;
        let ghost mid_queue = self.queue@;
        let ghost served = self.nodes@[at as int];
        proof {
            assert forall|k2: int| 0 <= k2 < self.nodes@.len() implies defaults_on(#[trigger] self.nodes@[k2], catalog@) by {
                if k2 != at {
                    assert(self.nodes@[k2] == before[k2]);
                }
            }
            if !changed {
                assert forall|k: int| 0 <= k < old(self).nodes@.len() implies same_on(#[trigger] old(self).nodes@[k], self.nodes@[k]) by {
                    if k != at {
                        assert(self.nodes@[k] == before[k]);
                    }
                }
            }
        }
        if changed {
            self.moved = true;
            if !self.expand(catalog, at, budget) {
                proof {
                    lemma_grown(old(self).nodes@, mid, self.nodes@);
                    lemma_origins_grown(mid, self.nodes@, roots, mid_queue, self.queue@, at as int);
                }
                return Ok(Flow::Spent);
            }
            proof {
                lemma_grown(old(self).nodes@, mid, self.nodes@);
                lemma_origins_grown(mid, self.nodes@, roots, mid_queue, self.queue@, at as int);
            }
        }
        proof {
            assert forall|k: int| 0 <= k < req_features.len() implies feature_names(self.nodes@[at as int].features@).contains(
                (#[trigger] req_features[k]).0@,
            ) by {
                assert(feature_names(served.features@).contains(req_features[k].0@));
            }
            assert(0 <= at < self.nodes@.len() && self.nodes@[at as int].name@ == req_name);
            assert(served.defaults ==> self.nodes@[at as int].defaults);
        }
        Ok(Flow::Done)
    }

    /// Serves every request waiting, and those they make, in turn.
    #[verifier::rlimit(80)]
    #[verifier::spinoff_prover]
    fn serve_all(&mut self, catalog: &Vec<Loaded>, budget: &mut u64, Ghost(roots): Ghost<Seq<Seq<char>>>) -> (r: Result<Flow, ProfileError>)
        requires
            nodes_wf(old(self).nodes@, catalog@),
            all_defaults_on(old(self).nodes@, catalog@),
            origins(old(self).nodes@, roots),
            queue_asked(old(self).queue@, old(self).nodes@, roots),
        ensures
            origins(final(self).nodes@, roots),
            queue_asked(final(self).queue@, final(self).nodes@, roots),
            nodes_wf(final(self).nodes@, catalog@),
            all_defaults_on(final(self).nodes@, catalog@),
            *final(budget) <= *old(budget),
            final(self).nodes@.len() >= old(self).nodes@.len(),
            r matches Ok(Flow::Done) ==> final(self).queue@.len() == 0,
            r matches Ok(Flow::Spent) ==> *final(budget) == 0,
            r matches Ok(Flow::Load(s, n)) ==> forall|j: int| 0 <= j < catalog@.len() ==> !is_loaded(#[trigger] catalog@[j], s, n@),
            r matches Err(e) ==> (e is UnknownFeature || e is Diverged || e is SameName),
            old(self).moved ==> final(self).moved,
            (r matches Ok(Flow::Done) && !final(self).moved) ==> all_same_on(old(self).nodes@, final(self).nodes@),
            old(self).queue@.len() == 0 ==> (r matches Ok(Flow::Done) && final(self).nodes == old(self).nodes && final(self).warnings
                == old(self).warnings && final(self).moved == old(self).moved && final(self).queue@.len() == 0),
            grown(old(self).nodes@, final(self).nodes@),
            r matches Ok(Flow::Done) ==> forall|i: int| 0 <= i < old(self).queue@.len() && ((#[trigger] old(self).queue@[i]).source is Some
                || active_has(node_names(old(self).nodes@), old(self).queue@[i].name@)) ==> served(final(self).nodes@, old(self).queue@[i]),
    {
        let ghost orig = self.queue@;
        let ghost mut done: int = 0;
        while self.queue.len() > 0
            invariant
                nodes_wf(self.nodes@, catalog@),
                all_defaults_on(self.nodes@, catalog@),
                *budget <= *old(budget),
                self.nodes@.len() >= old(self).nodes@.len(),
                orig == old(self).queue@,
                grown(old(self).nodes@, self.nodes@),
                0 <= done <= orig.len(),
                self.queue@.len() >= orig.len() - done,
                forall|i: int| 0 <= i < orig.len() - done ==> #[trigger] self.queue@[i] == orig[done + i],
                forall|i: int| 0 <= i < done && ((#[trigger] orig[i]).source is Some || active_has(node_names(old(self).nodes@), orig[i].name@))
                    ==> served(self.nodes@, orig[i]),
                orig.len() == 0 ==> self.nodes == old(self).nodes && self.warnings == old(self).warnings && self.moved == old(self).moved
                    && self.queue@.len() == 0,
                old(self).moved ==> self.moved,
                !self.moved ==> all_same_on(old(self).nodes@, self.nodes@),
                origins(self.nodes@, roots),
                queue_asked(self.queue@, self.nodes@, roots),
            decreases *budget,
        {
            if *budget == 0 {
                return Ok(Flow::Spent);
            }
            *budget = *budget - 1;
            let ghost pre = self.nodes@;
            let ghost q0 = self.queue@;
            let request = self.queue.remove(0);
            let ghost req = request;
            proof {
                assert(asked_for(q0[0], pre, roots));
                assert forall|i: int| 0 <= i < self.queue@.len() implies asked_for(#[trigger] self.queue@[i], pre, roots) by {
                    assert(self.queue@[i] == q0[i + 1]);
                }
            }
            match self.serve(catalog, request, budget, Ghost(roots)) {
                Ok(Flow::Done) => {},
                other => return other,
            }
            proof {
                let post = self.nodes@;
                if !self.moved {
                    lemma_same_on(old(self).nodes@, pre, post, catalog@);
                }
                assert(grown(post, post));
                lemma_grown(pre, post, post);
                lemma_grown(old(self).nodes@, pre, post);
                if done < orig.len() {
                    assert(req == orig[done]);
                    if req.source is Some || active_has(node_names(old(self).nodes@), req.name@) {
                        if req.source is None {
                            let k = choose|k: int| 0 <= k < node_names(old(self).nodes@).len() && (#[trigger] node_names(old(self).nodes@)[k])@ == req.name@;
                            assert(pre[k].name == old(self).nodes@[k].name);
                            assert(exists|k: int| 0 <= k < pre.len() && (#[trigger] pre[k]).name@ == req.name@);
                        }
                        assert(served(post, req));
                    }
                    done = done + 1;
                }
                assert forall|i: int| 0 <= i < orig.len() - done implies #[trigger] self.queue@[i] == orig[done + i] by {
                    assert(self.queue@[i] == q0.drop_first()[i]);
                }
            }
        }
        Ok(Flow::Done)
    }
}

/// Takes the node at `at` out of `nodes`, leaving `None`.
fn take_node(nodes: &mut Vec<Option<Node>>, at: usize) -> (r: Option<Node>)
    requires
        at < old(nodes)@.len(),
    ensures
        r == old(nodes)@[at as int],
        final(nodes)@ == old(nodes)@.update(at as int, None),
{
    let node = nodes.remove(at);
    nodes.insert(at, None);
    assert(nodes@ =~= old(nodes)@.update(at as int, None));
    node
}

/// What the first layer of `configured` alone decides: `Built::Load` when `catalog` has not read
/// its profile, `UnknownFeature` when it turns on a feature that profile does not declare; else
/// `None`. Building asks for the same, in the same way, first.
fn first_layer_fault(configured: &Vec<Configured>, catalog: &Vec<Loaded>) -> (r: Option<Result<Built, ProfileError>>)
    ensures
        r is None <==> !first_missing(configured@, catalog@) && !first_unknown(configured@, catalog@),
        configured@.len() == 0 ==> r is None,
        first_missing(configured@, catalog@) ==> (r matches Some(Ok(Built::Load { source, name })) && name@ == configured@[0].name@ && source_view(source)
            == source_view(configured@[0].source)),
        first_unknown(configured@, catalog@) ==> unknown_reported(r, configured@, catalog@),
        r matches Some(Ok(Built::Load { source, name })) ==> forall|j: int| 0 <= j < catalog@.len() ==> !is_loaded(#[trigger] catalog@[j], source, name@),
        r matches Some(Ok(b)) ==> b is Load,
        r matches Some(Err(e)) ==> e is UnknownFeature,
{
    if configured.len() > 0 {
        let found = loaded(catalog, &configured[0].source, &configured[0].name);
        if found.is_none() {
            assert(first_missing(configured@, catalog@)) by {
                reveal(first_missing);
            }
            assert(!first_unknown(configured@, catalog@)) by {
                reveal(first_unknown);
                reveal(first_missing);
            }
            return Some(Ok(Built::Load { source: configured[0].source.clone(), name: configured[0].name.clone() }));
        }
        assert(!first_missing(configured@, catalog@)) by {
            reveal(first_missing);
            let k = found->0 as int;
            assert(is_loaded(catalog@[k], configured@[0].source, configured@[0].name@));
        }
        let k = found.unwrap();
        let ghost c0 = configured@[0];
        assert(first_loaded(catalog@, c0.source, c0.name@) == k) by {
            let q = first_loaded(catalog@, c0.source, c0.name@);
            assert(is_loaded(catalog@[k as int], c0.source, c0.name@));
            if q < k {
                assert(!is_loaded(catalog@[q], c0.source, c0.name@));
            } else if q > k {
                assert(!is_loaded(catalog@[k as int], c0.source, c0.name@));
            }
        }
        let manifest = &catalog[k].manifest;
        let layer = &configured[0];
        let mut i: usize = 0;
        while i < layer.features.len()
            invariant
                i <= layer.features@.len(),
                configured@.len() > 0,
                c0 == configured@[0],
                first_loaded(catalog@, c0.source, c0.name@) == k,
                k < catalog@.len(),
                is_loaded(catalog@[k as int], c0.source, c0.name@),
                !first_missing(configured@, catalog@),
                *layer == c0,
                *manifest == catalog@[k as int].manifest,
                forall|f: int| 0 <= f < i ==> declares(*manifest, (#[trigger] layer.features@[f])@),
            decreases layer.features@.len() - i,
        {
            if declared_at(manifest, &layer.features[i]).is_none() {
                let feature = layer.features[i].clone();
                proof {
                    assert(!declares(*manifest, feature@));
                    assert(c0.features@.map_values(|f: FeatureName| f@)[i as int] == feature@);
                }
                let res = Some(Err(ProfileError::UnknownFeature {
                    profile: layer.name.clone(),
                    feature,
                    by: "the target".to_owned(),
                    known: declared_names(manifest),
                }));
                proof {
                    assert(unknown_reported(res, configured@, catalog@)) by {
                        reveal(unknown_reported);
                    }
                    assert(first_unknown(configured@, catalog@)) by {
                        reveal(first_unknown);
                        assert(!declares(catalog@[first_loaded(catalog@, c0.source, c0.name@)].manifest, c0.features@[i as int]@));
                    }
                }
                return res;
            }
            i += 1;
        }
        assert(!first_unknown(configured@, catalog@)) by {
            reveal(first_unknown);
        }
        None
    } else {
        assert(!first_missing(configured@, catalog@)) by {
            reveal(first_missing);
        }
        assert(!first_unknown(configured@, catalog@)) by {
            reveal(first_unknown);
        }
        None
    }
}

/// The graph of `configured`, the target's layers in order, over the profiles `catalog` has
/// read: every active profile, its features unified, each requirement before its requirers.
///
/// A request for a profile turns on the features it names, and each feature turned on may turn
/// on more, in the profile or in what it requires; a weak feature waits for its profile, the
/// graph expanded again until nothing changes. `Built::Load` asks for a profile the catalog
/// lacks. Fails when a feature is asked of a profile that lacks it, when requirements form a
/// cycle, or when two profiles have one name. `None` when it has not settled within 2^64 - 1
/// steps.
#[verifier::rlimit(100)]
#[verifier::spinoff_prover]
pub fn build(configured: &Vec<Configured>, catalog: &Vec<Loaded>) -> (r: Option<Result<Built, ProfileError>>)
    ensures
        r matches Some(Ok(Built::Graph(g))) ==> nodes_wf(g.nodes@, catalog@),
        r matches Some(Ok(Built::Graph(g))) ==> requirements_first(g.nodes@),
        r matches Some(Ok(Built::Graph(g))) ==> forall|k: int| 0 <= k < g.nodes@.len() ==> settled_node(#[trigger] g.nodes@[k], catalog@),
        r matches Some(Ok(Built::Graph(g))) ==> all_defaults_on(g.nodes@, catalog@),
        r matches Some(Ok(Built::Graph(g))) ==> unified(g.nodes@, catalog@),
        r matches Some(Ok(Built::Graph(g))) ==> reached(g.nodes@, configured@),
        r matches Some(Err(e)) ==> (e is UnknownFeature || e is Diverged || e is SameName || e is Cycle),
        configured@.len() == 0 ==> (r matches Some(Ok(Built::Graph(g))) && g.nodes@.len() == 0 && g.warnings@.len() == 0),
        first_unknown(configured@, catalog@) ==> unknown_reported(r, configured@, catalog@),
        first_missing(configured@, catalog@) ==> (r matches Some(Ok(Built::Load { source, name })) && name@ == configured@[0].name@ && source_view(source) == source_view(
            configured@[0].source,
        )),
        r matches Some(Ok(Built::Graph(g))) ==> forall|i: int| 0 <= i < configured@.len() ==> layer_served(g.nodes@, #[trigger] configured@[i]),
        r matches Some(Ok(Built::Load { source, name })) ==> forall|j: int| 0 <= j < catalog@.len() ==> !is_loaded(
            #[trigger] catalog@[j],
            source,
            name@,
        ),
{
    let early = first_layer_fault(configured, catalog);
    if early.is_some() {
        return early;
    }
    let mut b = Builder { nodes: Vec::new(), queue: Vec::new(), head: 0, warnings: Vec::new(), moved: false };
    let mut i: usize = 0;
    while i < configured.len()
        invariant
            nodes_wf(b.nodes@, catalog@),
            all_defaults_on(b.nodes@, catalog@),
            b.nodes@.len() == 0,
            b.queue@.len() == i,
            b.warnings@.len() == 0,
            i <= configured@.len(),
            forall|j: int| 0 <= j < i ==> asks_for(#[trigger] b.queue@[j], configured@[j]),
        decreases configured@.len() - i,
    {
        let layer = &configured[i];
        let mut features: Vec<(FeatureName, Enabler)> = Vec::new();
        let mut f: usize = 0;
        while f < layer.features.len()
            invariant
                f <= layer.features@.len(),
                features@.len() == f,
                forall|k: int| 0 <= k < f ==> (#[trigger] features@[k]).0@ == layer.features@[k]@,
            decreases layer.features@.len() - f,
        {
            features.push((layer.features[f].clone(), Enabler::Target));
            f += 1;
        }
        let ghost q0 = b.queue@;
        b.queue.push(Request { source: Some(layer.source.clone()), name: layer.name.clone(), by: None, features, defaults: layer.defaults });
        proof {
            assert(forall|j: int| 0 <= j < i ==> b.queue@[j] == q0[j]);
            assert(asks_for(b.queue@[i as int], configured@[i as int]));
        }
        i += 1;
    }
    let ghost initial = b.queue@;
    let ghost mut started = false;
    let ghost layer_names = configured@.map_values(|c: Configured| c.name@);
    proof {
        assert forall|i: int| 0 <= i < b.queue@.len() implies asked_for(#[trigger] b.queue@[i], b.nodes@, layer_names) by {
            assert(asks_for(b.queue@[i], configured@[i]));
            assert(layer_names[i] == b.queue@[i].name@);
        }
    }
    let mut budget: u64 = u64::MAX;
    loop
        invariant_except_break
            configured@.len() == 0 ==> b.nodes@.len() == 0 && b.queue@.len() == 0 && b.warnings@.len() == 0 && budget == u64::MAX,
        invariant
            nodes_wf(b.nodes@, catalog@),
            all_defaults_on(b.nodes@, catalog@),
            initial.len() == configured@.len(),
            forall|j: int| 0 <= j < initial.len() ==> asks_for(#[trigger] initial[j], configured@[j]),
            !started ==> b.queue@ == initial,
            !first_missing(configured@, catalog@),
            !first_unknown(configured@, catalog@),
            origins(b.nodes@, layer_names),
            queue_asked(b.queue@, b.nodes@, layer_names),
            layer_names == configured@.map_values(|c: Configured| c.name@),
            started ==> forall|j: int| 0 <= j < configured@.len() ==> layer_served(b.nodes@, #[trigger] configured@[j]),
        ensures
            nodes_wf(b.nodes@, catalog@),
            all_defaults_on(b.nodes@, catalog@),
            forall|j: int| 0 <= j < configured@.len() ==> layer_served(b.nodes@, #[trigger] configured@[j]),
            configured@.len() == 0 ==> b.nodes@.len() == 0 && b.warnings@.len() == 0,
            forall|k: int| 0 <= k < b.nodes@.len() ==> settled_node(#[trigger] b.nodes@[k], catalog@),
            unified(b.nodes@, catalog@),
            origins(b.nodes@, layer_names),
        decreases budget,
    {
        if budget == 0 {
            return None;
        }
        budget = budget - 1;
        let ghost q0 = b.queue@;
        let ghost n0 = b.nodes@;
        match b.serve_all(catalog, &mut budget, Ghost(layer_names)) {
            Ok(Flow::Done) => {},
            Ok(Flow::Load(source, name)) => return Some(Ok(Built::Load { source, name })),
            Ok(Flow::Spent) => return None,
            Err(e) => return Some(Err(e)),
        }
        proof {
            assert forall|j: int| 0 <= j < configured@.len() implies layer_served(b.nodes@, #[trigger] configured@[j]) by {
                if !started {
                    assert(asks_for(q0[j], configured@[j]));
                    assert(served(b.nodes@, q0[j]));
                    lemma_asks_for(b.nodes@, q0[j], configured@[j]);
                } else {
                    lemma_layer_served_grown(n0, b.nodes@, configured@[j]);
                }
            }
            started = true;
        }
        b.moved = false;
        let ghost top = budget;
        let ghost n1 = b.nodes@;
        let mut at: usize = 0;
        while at < b.nodes.len()
            invariant
                nodes_wf(b.nodes@, catalog@),
                all_defaults_on(b.nodes@, catalog@),
            all_defaults_on(b.nodes@, catalog@),
                budget <= top,
                grown(n1, b.nodes@),
                started,
                forall|j: int| 0 <= j < configured@.len() ==> layer_served(b.nodes@, #[trigger] configured@[j]),
                configured@.len() == 0 ==> b.nodes@.len() == 0 && b.queue@.len() == 0 && b.warnings@.len() == 0 && !b.moved,
                !b.moved,
                !first_missing(configured@, catalog@),
                !first_unknown(configured@, catalog@),
            !first_unknown(configured@, catalog@),
                forall|k: int| 0 <= k < at && k < b.nodes@.len() ==> settled_node(#[trigger] b.nodes@[k], catalog@),
                b.nodes@.len() == n1.len(),
                node_names(b.nodes@) == node_names(n1),
                origins(b.nodes@, layer_names),
                queue_asked(b.queue@, b.nodes@, layer_names),
                forall|k: int| 0 <= k < at && k < b.nodes@.len() ==> req_met(
                    #[trigger] b.nodes@[k],
                    catalog@[b.nodes@[k].at as int].manifest,
                    b.queue@,
                    0,
                ) && of_refs_met(b.nodes@[k], catalog@[b.nodes@[k].at as int].manifest, node_names(n1), b.queue@, 0),
            decreases b.nodes@.len() - at,
        {
            let ghost n2 = b.nodes@;
            let ghost q2 = b.queue@;
            if !b.expand(catalog, at, &mut budget) {
                return None;
            }
            proof {
                lemma_origins_grown(n2, b.nodes@, layer_names, q2, b.queue@, at as int);
                assert(node_names(b.nodes@) =~= node_names(n2)) by {
                    assert forall|k: int| 0 <= k < b.nodes@.len() implies node_names(b.nodes@)[k] == node_names(n2)[k] by {
                        assert(b.nodes@[k].name == n2[k].name);
                    }
                }
                lemma_met_kept(q2, b.queue@, 0, catalog@[b.nodes@[at as int].at as int].manifest);
                lemma_met_lower(b.nodes@[at as int], catalog@[b.nodes@[at as int].at as int].manifest, node_names(n1), b.queue@, q2.len() as int);
                assert forall|k: int| 0 <= k < at + 1 && k < b.nodes@.len() implies req_met(
                    #[trigger] b.nodes@[k],
                    catalog@[b.nodes@[k].at as int].manifest,
                    b.queue@,
                    0,
                ) && of_refs_met(b.nodes@[k], catalog@[b.nodes@[k].at as int].manifest, node_names(n1), b.queue@, 0) by {
                    if k < at {
                        assert(b.nodes@[k] == n2[k]);
                        lemma_met_kept(q2, b.queue@, 0, catalog@[b.nodes@[k].at as int].manifest);
                    }
                }
                assert forall|k: int| 0 <= k < at + 1 && k < b.nodes@.len() implies settled_node(#[trigger] b.nodes@[k], catalog@) by {
                    if k < at {
                        assert(b.nodes@[k] == n2[k]);
                    }
                }
                lemma_grown(n1, n2, b.nodes@);
                assert forall|j: int| 0 <= j < configured@.len() implies layer_served(b.nodes@, #[trigger] configured@[j]) by {
                    lemma_layer_served_grown(n2, b.nodes@, configured@[j]);
                }
            }
            at += 1;
        }
        let ghost n3 = b.nodes@;
        let ghost q3 = b.queue@;
        match b.serve_all(catalog, &mut budget, Ghost(layer_names)) {
            Ok(Flow::Done) => {},
            Ok(Flow::Load(source, name)) => return Some(Ok(Built::Load { source, name })),
            Ok(Flow::Spent) => return None,
            Err(e) => return Some(Err(e)),
        }
        proof {
            assert forall|j: int| 0 <= j < configured@.len() implies layer_served(b.nodes@, #[trigger] configured@[j]) by {
                lemma_layer_served_grown(n3, b.nodes@, configured@[j]);
            }
        }
        proof {
            if !b.moved {
                lemma_same_on(n3, b.nodes@, b.nodes@, catalog@);
                assert(node_names(n3) == node_names(n1));
                lemma_round_unified(n3, b.nodes@, q3, catalog@);
            }
        }
        if !b.moved {
            break;
        }
    }
    let mut vertices: Vec<Vertex> = Vec::new();
    let mut k: usize = 0;
    while k < b.nodes.len()
        invariant
            k <= b.nodes@.len(),
            vertices@.len() == k,
            forall|m: int| 0 <= m < k ==> (#[trigger] vertices@[m]).name == b.nodes@[m].name,
            forall|m: int| 0 <= m < k ==> (#[trigger] vertices@[m]).active@.map_values(|n: ProfileName| n@) == b.nodes@[m].active@.map_values(
                |n: ProfileName| n@,
            ).sort_by(crate::order::text_order()),
        decreases b.nodes@.len() - k,
    {
        vertices.push(Vertex { name: b.nodes[k].name.clone(), active: crate::name::sort_names(&b.nodes[k].active) });
        k += 1;
    }
    let mut roots: Vec<ProfileName> = Vec::new();
    let mut k: usize = 0;
    while k < configured.len()
        invariant
            k <= configured@.len(),
            roots@.len() == k,
            forall|m: int| 0 <= m < k ==> (#[trigger] roots@[m]) == configured@[m].name,
        decreases configured@.len() - k,
    {
        roots.push(configured[k].name.clone());
        k += 1;
    }
    let order = match order(&vertices, &roots) {
        Ok(order) => order,
        Err(e) => return Some(Err(e)),
    };
    let ghost all = b.nodes@;
    proof {
        assert forall|j: int| 0 <= j < configured@.len() implies placed_layer(all, order@, #[trigger] configured@[j]) by {
            let c = configured@[j];
            let at = choose|at: int| 0 <= at < all.len() && (#[trigger] all[at]).name@ == c.name@ && forall|f: int| 0 <= f < c.features@.len()
                ==> feature_names(all[at].features@).contains((#[trigger] c.features@[f])@);
            let ps = places(vertices@, roots@[j]@);
            assert(roots@[j] == c.name);
            assert(vertices@[at].name == all[at].name);
            assert(ps[at] == Some(at));
            crate::text::lemma_first_set_some(ps, at);
            crate::text::lemma_first_set_in(ps);
            let x = index_of(vertices@, roots@[j]@)->0;
            let q = choose|q: int| 0 <= q < ps.len() && ps[q] == Some(x);
            assert(vertices@[q].name@ == c.name@);
            assert(q == x);
            assert(all[x].name@ == c.name@);
            if x != at {
                if x < at {
                    assert(all[x].name@ != all[at].name@);
                } else {
                    assert(all[at].name@ != all[x].name@);
                }
            }
            assert(placed(order@, x));
            assert(0 <= x < all.len() && placed(order@, x) && c.name@ == all[x].name@ && forall|f: int| 0 <= f < c.features@.len()
                ==> feature_names(all[x].features@).contains((#[trigger] c.features@[f])@));
        }
    }
    let n = b.nodes.len();
    let ghost w0 = b.warnings;
    let mut slots: Vec<Option<Node>> = Vec::new();
    while b.nodes.len() > 0
        invariant
            b.warnings == w0,
            slots@.len() + b.nodes@.len() == n,
            all.len() == n,
            b.nodes@ == all.skip(slots@.len() as int),
            forall|m: int| 0 <= m < slots@.len() ==> slots@[m] == Some(all[m]),
            forall|j: int| 0 <= j < configured@.len() ==> placed_layer(all, order@, #[trigger] configured@[j]),
        decreases b.nodes@.len(),
    {
        let node = b.nodes.remove(0);
        slots.push(Some(node));
        assert(b.nodes@ =~= all.skip(slots@.len() as int));
    }
    let mut nodes: Vec<Node> = Vec::new();
    let ghost mut idx: Seq<int> = Seq::empty();
    let mut k: usize = 0;
    while k < order.len()
        invariant
            slots@.len() == n,
            all.len() == n,
            nodes_wf(all, catalog@),
            forall|m: int| 0 <= m < n ==> (#[trigger] slots@[m]) is None || slots@[m] == Some(all[m]),
            idx.len() == nodes@.len(),
            forall|m: int| 0 <= m < idx.len() ==> 0 <= #[trigger] idx[m] < n && nodes@[m] == all[idx[m]] && slots@[idx[m]] is None,
            forall|a: int, c: int| 0 <= a < c < idx.len() ==> (#[trigger] idx[a]) != (#[trigger] idx[c]),
            k <= order@.len(),
            forall|m: int| 0 <= m < k && order@[m] < n ==> (#[trigger] slots@[order@[m] as int]) is None,
            forall|x: int| 0 <= x < n && (#[trigger] slots@[x]) is None ==> exists|m: int| 0 <= m < idx.len() && idx[m] == x,
            forall|j: int| 0 <= j < configured@.len() ==> placed_layer(all, order@, #[trigger] configured@[j]),
            forall|i: int| 0 <= i < order@.len() ==> (#[trigger] order@[i]) < n,
            forall|a: int, c: int| 0 <= a < c < order@.len() ==> (#[trigger] order@[a]) != (#[trigger] order@[c]),
            idx.len() == k,
            forall|m: int| 0 <= m < k ==> (#[trigger] idx[m]) == order@[m] as int,
        decreases order@.len() - k,
    {
        let at = order[k];
        if at < slots.len() {
            let ghost was = slots@;
            let taken = take_node(&mut slots, at);
            if let Some(node) = taken {
                proof {
                    assert(node == all[at as int]);
                    assert forall|m: int| 0 <= m < idx.len() implies idx[m] != at as int by {
                        assert(was[idx[m]] is None);
                    }
                }
                let ghost kept = nodes@;
                nodes.push(node);
                proof {
                    let old_idx = idx;
                    idx = idx.push(at as int);
                    assert forall|m: int| 0 <= m < k + 1 implies (#[trigger] idx[m]) == order@[m] as int by {
                        if m < k {
                            assert(idx[m] == old_idx[m]);
                        }
                    }
                    assert forall|m: int| 0 <= m < idx.len() implies 0 <= #[trigger] idx[m] < n && nodes@[m] == all[idx[m]] && slots@[idx[m]] is None by {
                        if m < kept.len() {
                            assert(nodes@[m] == kept[m]);
                        }
                    }
                    assert forall|x: int| 0 <= x < n && (#[trigger] slots@[x]) is None implies exists|m: int| 0 <= m < idx.len() && idx[m] == x by {
                        if x == at {
                            assert(idx[old_idx.len() as int] == x);
                        } else {
                            assert(was[x] is None);
                            let m = choose|m: int| 0 <= m < old_idx.len() && old_idx[m] == x;
                            assert(idx[m] == x);
                        }
                    }
                }
            } else {
                proof {
                    assert(was[at as int] is None);
                    let m = choose|m: int| 0 <= m < idx.len() && idx[m] == at as int;
                    assert(order@[m] != order@[k as int]);
                }
            }
        }
        proof {
            assert forall|m: int| 0 <= m < k + 1 && order@[m] < n implies (#[trigger] slots@[order@[m] as int]) is None by {
                if m < k {
                }
            }
        }
        k += 1;
    }
    proof {
        assert forall|j: int| 0 <= j < configured@.len() implies layer_served(nodes@, #[trigger] configured@[j]) by {
            let c = configured@[j];
            assert(placed_layer(all, order@, c));
            let x = choose|x: int| 0 <= x < all.len() && placed(order@, x) && c.name@ == all[x].name@ && forall|f: int| 0 <= f < c.features@.len()
                ==> feature_names(all[x].features@).contains((#[trigger] c.features@[f])@);
            let p = choose|p: int| 0 <= p < order@.len() && order@[p] as int == x;
            assert(slots@[order@[p] as int] is None);
            let m = choose|m: int| 0 <= m < idx.len() && idx[m] == x;
            assert(nodes@[m] == all[x]);
            assert(0 <= m < nodes@.len() && nodes@[m].name@ == c.name@ && forall|f: int| 0 <= f < c.features@.len()
                ==> feature_names(nodes@[m].features@).contains((#[trigger] c.features@[f])@));
        }
    }
    proof {
        assert forall|m: int| 0 <= m < nodes@.len() implies (#[trigger] nodes@[m]).at < catalog@.len()
            && catalog@[nodes@[m].at as int].manifest.profile.name@ == nodes@[m].name@
            && source_view(catalog@[nodes@[m].at as int].source) == source_view(nodes@[m].source) by {
            assert(nodes@[m] == all[idx[m]]);
        }
        assert forall|a: int, c: int| 0 <= a < c < nodes@.len() implies (#[trigger] nodes@[a]).name@ != (#[trigger] nodes@[c]).name@ by {
            assert(nodes@[a] == all[idx[a]] && nodes@[c] == all[idx[c]]);
            if idx[a] < idx[c] {
                assert(all[idx[a]].name@ != all[idx[c]].name@);
            } else {
                assert(all[idx[c]].name@ != all[idx[a]].name@);
            }
        }
    }
    proof {
        assert(k == order@.len());
        if configured@.len() == 0 {
            assert(vertices@.len() == 0);
            if order@.len() > 0 {
                assert(order@[0] < vertices@.len());
            }
        }
        assert forall|m: int| 0 <= m < order@.len() implies (#[trigger] order@[m]) < all.len() && nodes@[m] == all[order@[m] as int] by {
            assert(idx[m] == order@[m] as int);
        }
        lemma_requirements_first(vertices@, all, order@, nodes@);
        lemma_unified_placed(vertices@, all, order@, nodes@, catalog@);
        assert(roots@.map_values(|n: ProfileName| n@) =~= layer_names);
        assert forall|k: int| 0 <= k < nodes@.len() implies configured@.map_values(|c: Configured| c.name@).contains((#[trigger] nodes@[k]).name@)
            || active_in(nodes@, nodes@[k].name@) by {
            let x = order@[k] as int;
            assert(nodes@[k] == all[x]);
            if !layer_names.contains(all[x].name@) {
                let p = choose|p: int| 0 <= p < x && active_has(all[p].active@, all[x].name@);
                lemma_all_placed(vertices@, all, order@, roots@, p);
                let i = choose|i: int| 0 <= i < order@.len() && order@[i] as int == p;
                assert(nodes@[i] == all[p]);
                assert(active_has(nodes@[i].active@, nodes@[k].name@));
            }
        }
        assert forall|m: int| 0 <= m < nodes@.len() implies settled_node(#[trigger] nodes@[m], catalog@) && defaults_on(nodes@[m], catalog@) by {
            assert(nodes@[m] == all[order@[m] as int]);
        }
    }
    Some(Ok(Built::Graph(Graph { nodes, warnings: b.warnings })))
}

/// Whether `nodes` holds a node of the requirement named `d` of `m` as its first `[requires]`
/// entry of that name asks it: with the entry's features on, and its defaults if the entry asks.
pub open spec fn has_requirement(nodes: Seq<Node>, m: Manifest, d: Seq<char>) -> bool {
    let entry = m.requires@[first_req(m, d)].1;
    exists|at: int| 0 <= at < nodes.len() && (#[trigger] nodes[at]).name@ == d && (entry.default_features ==> nodes[at].defaults) && forall|f: int|
        0 <= f < entry.features@.len() ==> feature_names(nodes[at].features@).contains((#[trigger] entry.features@[f])@)
}

/// Whether the requirement's feature that `r` names, of a profile with manifest `m` whose active
/// requirements are `active`, is on in `nodes`: when its profile is active there, or a node.
pub open spec fn feature_reached(nodes: Seq<Node>, r: FeatureRef, active: Seq<ProfileName>, m: Manifest) -> bool {
    match r {
        FeatureRef::Of { profile: p, feature: g, .. } => (required(m, p@) && (active_has(active, p@) || active_has(node_names(nodes), p@))) ==> exists|at: int|
            0 <= at < nodes.len() && (#[trigger] nodes[at]).name@ == p@ && feature_names(nodes[at].features@).contains(g@),
        _ => true,
    }
}

/// Whether the features of `nodes` are unified: each requirement a node activates is a node with
/// what the node's `[requires]` entry asks on; and each `profile/feature` or `profile?/feature`
/// reference of a feature on names a feature on in that profile's node, when the profile is
/// active in the node, or, for a weak one, a node at all.
pub open spec fn unified(nodes: Seq<Node>, catalog: Seq<Loaded>) -> bool {
    &&& forall|p: int, d: Seq<char>| 0 <= p < nodes.len() && #[trigger] active_has(nodes[p].active@, d) && required(
        catalog[nodes[p].at as int].manifest,
        d,
    ) ==> has_requirement(nodes, catalog[nodes[p].at as int].manifest, d)
    &&& forall|p: int, i: int, dd: int, j: int| 0 <= p < nodes.len() && 0 <= i < feature_names(nodes[p].features@).len() && first_declared(
        catalog[nodes[p].at as int].manifest,
        #[trigger] feature_names(nodes[p].features@)[i],
    ) == Some(dd) && 0 <= j < catalog[nodes[p].at as int].manifest.features.declared@[dd].1@.len() ==> feature_reached(
        nodes,
        #[trigger] catalog[nodes[p].at as int].manifest.features.declared@[dd].1@[j],
        nodes[p].active@,
        catalog[nodes[p].at as int].manifest,
    )
}

/// What requests from `lo` on answer, requests from the start answer too.
proof fn lemma_met_lower(n: Node, m: Manifest, names: Seq<ProfileName>, q: Seq<Request>, lo: int)
    requires
        0 <= lo,
    ensures
        req_met(n, m, q, lo) ==> req_met(n, m, q, 0),
        of_refs_met(n, m, names, q, lo) ==> of_refs_met(n, m, names, q, 0),
{
    if req_met(n, m, q, lo) {
        assert forall|d: Seq<char>| #[trigger] active_has(n.active@, d) && required(m, d) implies exists|i: int| 0 <= i < q.len() && asks_requirement(
            #[trigger] q[i], m, d) by {
            let i = choose|i: int| lo <= i < q.len() && asks_requirement(#[trigger] q[i], m, d);
        }
    }
    if of_refs_met(n, m, names, q, lo) {
        let on = feature_names(n.features@);
        assert forall|i: int, dd: int, j: int| 0 <= i < on.len() && first_declared(m, #[trigger] on[i]) == Some(dd) && 0 <= j
            < m.features.declared@[dd].1@.len() implies of_met(#[trigger] m.features.declared@[dd].1@[j], n.active@, names, m, q, 0) by {
            assert(of_met(m.features.declared@[dd].1@[j], n.active@, names, m, q, lo));
            match m.features.declared@[dd].1@[j] {
                FeatureRef::Of { profile: p, feature: g, .. } => {
                    if required(m, p@) && (active_has(n.active@, p@) || active_has(names, p@)) {
                        let i2 = choose|i2: int| lo <= i2 < q.len() && asks_feature(#[trigger] q[i2], p@, g@, active_has(n.active@, p@));
                    }
                },
                _ => {},
            }
        }
    }
}

/// Nodes whose every request is served, the same as far as settling goes as nodes whose
/// requirements and references were each asked, are unified.
proof fn lemma_round_unified(n3: Seq<Node>, fin: Seq<Node>, q: Seq<Request>, catalog: Seq<Loaded>)
    requires
        forall|k: int| 0 <= k < n3.len() ==> req_met(#[trigger] n3[k], catalog[n3[k].at as int].manifest, q, 0) && of_refs_met(
            n3[k],
            catalog[n3[k].at as int].manifest,
            node_names(n3),
            q,
            0,
        ),
        forall|i: int| 0 <= i < q.len() && ((#[trigger] q[i]).source is Some || active_has(node_names(n3), q[i].name@)) ==> served(fin, q[i]),
        all_same_on(n3, fin),
        grown(n3, fin),
    ensures
        unified(fin, catalog),
{
    assert(node_names(fin) =~= node_names(n3)) by {
        assert forall|k: int| 0 <= k < fin.len() implies node_names(fin)[k] == node_names(n3)[k] by {
            assert(fin[k].name == n3[k].name);
        }
    }
    assert forall|p: int, d: Seq<char>| 0 <= p < fin.len() && #[trigger] active_has(fin[p].active@, d) && required(catalog[fin[p].at as int].manifest, d)
        implies has_requirement(fin, catalog[fin[p].at as int].manifest, d) by {
        assert(same_on(n3[p], fin[p]));
        let m = catalog[fin[p].at as int].manifest;
        assert(req_met(n3[p], m, q, 0));
        assert(active_has(n3[p].active@, d));
        let i = choose|i: int| 0 <= i < q.len() && asks_requirement(#[trigger] q[i], m, d);
        let r = q[i];
        assert(served(fin, r));
        let at = choose|at: int| 0 <= at < fin.len() && (#[trigger] fin[at]).name@ == r.name@ && (r.defaults ==> fin[at].defaults) && forall|k: int|
            0 <= k < r.features@.len() ==> feature_names(fin[at].features@).contains((#[trigger] r.features@[k]).0@);
        let entry = m.requires@[first_req(m, d)].1;
        assert forall|f: int| 0 <= f < entry.features@.len() implies feature_names(fin[at].features@).contains((#[trigger] entry.features@[f])@) by {
            assert(r.features@[f].0 == entry.features@[f]);
        }
    }
    assert forall|p: int, i: int, dd: int, j: int| 0 <= p < fin.len() && 0 <= i < feature_names(fin[p].features@).len() && first_declared(
        catalog[fin[p].at as int].manifest,
        #[trigger] feature_names(fin[p].features@)[i],
    ) == Some(dd) && 0 <= j < catalog[fin[p].at as int].manifest.features.declared@[dd].1@.len() implies feature_reached(
        fin,
        #[trigger] catalog[fin[p].at as int].manifest.features.declared@[dd].1@[j],
        fin[p].active@,
        catalog[fin[p].at as int].manifest,
    ) by {
        assert(same_on(n3[p], fin[p]));
        let m = catalog[fin[p].at as int].manifest;
        let on = feature_names(n3[p].features@);
        assert(on[i] == feature_names(fin[p].features@)[i]);
        assert(of_refs_met(n3[p], m, node_names(n3), q, 0));
        let rf = m.features.declared@[dd].1@[j];
        assert(of_met(rf, n3[p].active@, node_names(n3), m, q, 0));
        match rf {
            FeatureRef::Of { profile: pr, feature: g, .. } => {
                if required(m, pr@) && (active_has(fin[p].active@, pr@) || active_has(node_names(fin), pr@)) {
                    let i2 = choose|i2: int| 0 <= i2 < q.len() && asks_feature(#[trigger] q[i2], pr@, g@, active_has(n3[p].active@, pr@));
                    let r = q[i2];
                    assert(served(fin, r));
                    let at = choose|at: int| 0 <= at < fin.len() && (#[trigger] fin[at]).name@ == r.name@ && (r.defaults ==> fin[at].defaults) && forall|k: int|
                        0 <= k < r.features@.len() ==> feature_names(fin[at].features@).contains((#[trigger] r.features@[k]).0@);
                    let k = choose|k: int| 0 <= k < r.features@.len() && (#[trigger] r.features@[k]).0@ == g@;
                    assert(feature_names(fin[at].features@).contains(r.features@[k].0@));
                }
            },
            _ => {},
        }
    }
}

/// Whether each node of `nodes` comes after every node it requires: a requirement first.
pub open spec fn requirements_first(nodes: Seq<Node>) -> bool {
    forall|p: int, q: int, k: int| 0 <= p < nodes.len() && 0 <= q < nodes.len() && 0 <= k < nodes[p].active@.len() && (
    #[trigger] nodes[p].active@[k])@ == (#[trigger] nodes[q]).name@ ==> q < p
}

/// Nodes taken in an order that puts each vertex after its requirements put each node after
/// the nodes it requires.
proof fn lemma_requirements_first(vertices: Seq<Vertex>, all: Seq<Node>, order: Seq<usize>, nodes: Seq<Node>)
    requires
        vertices.len() == all.len(),
        forall|m: int| 0 <= m < all.len() ==> (#[trigger] vertices[m]).name == all[m].name,
        forall|m: int| 0 <= m < all.len() ==> (#[trigger] vertices[m]).active@.map_values(|n: ProfileName| n@) == all[m].active@.map_values(
            |n: ProfileName| n@,
        ).sort_by(crate::order::text_order()),
        forall|a: int, b: int| 0 <= a < b < all.len() ==> (#[trigger] all[a]).name@ != (#[trigger] all[b]).name@,
        nodes.len() == order.len(),
        forall|m: int| 0 <= m < order.len() ==> (#[trigger] order[m]) < all.len() && nodes[m] == all[order[m] as int],
        forall|a: int, b: int| 0 <= a < b < order.len() ==> (#[trigger] order[a]) != (#[trigger] order[b]),
        topological(vertices, order),
    ensures
        requirements_first(nodes),
{
    assert forall|p: int, q: int, k: int| 0 <= p < nodes.len() && 0 <= q < nodes.len() && 0 <= k < nodes[p].active@.len() && (
    #[trigger] nodes[p].active@[k])@ == (#[trigger] nodes[q]).name@ implies q < p by {
        let x = order[p] as int;
        let y = order[q] as int;
        let n = nodes[p].active@[k]@;
        let mine = all[x].active@.map_values(|t: ProfileName| t@);
        crate::order::lemma_text_order_total();
        mine.lemma_sort_by_ensures(crate::order::text_order());
        mine.to_multiset_ensures();
        mine.sort_by(crate::order::text_order()).to_multiset_ensures();
        assert(mine[k] == n);
        assert(mine.contains(n));
        assert(mine.to_multiset().count(n) > 0);
        let sorted = vertices[x].active@.map_values(|t: ProfileName| t@);
        assert(sorted == mine.sort_by(crate::order::text_order()));
        assert(sorted.to_multiset().count(n) > 0);
        assert(sorted.contains(n));
        let k2 = choose|k2: int| 0 <= k2 < sorted.len() && sorted[k2] == n;
        assert(vertices[x].active@[k2]@ == n);
        let ps = places(vertices, n);
        assert(ps[y] == Some(y));
        crate::text::lemma_first_set_some(ps, y);
        crate::text::lemma_first_set_in(ps);
        let z = index_of(vertices, n)->0;
        let w = choose|w: int| 0 <= w < ps.len() && ps[w] == Some(z);
        assert(vertices[z].name@ == n);
        if z != y {
            if z < y {
                assert(all[z].name@ != all[y].name@);
            } else {
                assert(all[y].name@ != all[z].name@);
            }
        }
        assert(edge(vertices, x, y));
        assert(edge(vertices, order[p] as int, y));
        let j = choose|j: int| 0 <= j < p && order[j] as int == y;
        if j != q {
            if j < q {
                assert(order[j] != order[q]);
            } else {
                assert(order[q] != order[j]);
            }
        }
    }
}

/// Whether each node of `nodes` is a layer of `configured`, or a profile a node has active: the
/// graph holds no profile nothing asked for.
pub open spec fn reached(nodes: Seq<Node>, configured: Seq<Configured>) -> bool {
    forall|k: int| 0 <= k < nodes.len() ==> configured.map_values(|c: Configured| c.name@).contains((#[trigger] nodes[k]).name@) || active_in(
        nodes,
        nodes[k].name@,
    )
}

/// A vertex that has the profile of another active has an edge to it.
proof fn lemma_edge(vertices: Seq<Vertex>, all: Seq<Node>, p: int, y: int)
    requires
        vertices.len() == all.len(),
        forall|m: int| 0 <= m < all.len() ==> (#[trigger] vertices[m]).name == all[m].name,
        forall|m: int| 0 <= m < all.len() ==> (#[trigger] vertices[m]).active@.map_values(|n: ProfileName| n@) == all[m].active@.map_values(
            |n: ProfileName| n@,
        ).sort_by(crate::order::text_order()),
        forall|a: int, b: int| 0 <= a < b < all.len() ==> (#[trigger] all[a]).name@ != (#[trigger] all[b]).name@,
        0 <= p < all.len(),
        0 <= y < all.len(),
        active_has(all[p].active@, all[y].name@),
    ensures
        edge(vertices, p, y),
{
    let n = all[y].name@;
    let k = choose|k: int| 0 <= k < all[p].active@.len() && (#[trigger] all[p].active@[k])@ == n;
    let mine = all[p].active@.map_values(|t: ProfileName| t@);
    crate::order::lemma_text_order_total();
    mine.lemma_sort_by_ensures(crate::order::text_order());
    mine.to_multiset_ensures();
    mine.sort_by(crate::order::text_order()).to_multiset_ensures();
    assert(mine[k] == n);
    assert(mine.contains(n));
    assert(mine.to_multiset().count(n) > 0);
    let sorted = vertices[p].active@.map_values(|t: ProfileName| t@);
    assert(sorted == mine.sort_by(crate::order::text_order()));
    assert(sorted.to_multiset().count(n) > 0);
    assert(sorted.contains(n));
    let k2 = choose|k2: int| 0 <= k2 < sorted.len() && sorted[k2] == n;
    assert(vertices[p].active@[k2]@ == n);
    lemma_index_unique(vertices, all, y);
}

/// A vertex is found by its name.
proof fn lemma_index_unique(vertices: Seq<Vertex>, all: Seq<Node>, y: int)
    requires
        vertices.len() == all.len(),
        forall|m: int| 0 <= m < all.len() ==> (#[trigger] vertices[m]).name == all[m].name,
        forall|a: int, b: int| 0 <= a < b < all.len() ==> (#[trigger] all[a]).name@ != (#[trigger] all[b]).name@,
        0 <= y < all.len(),
    ensures
        index_of(vertices, all[y].name@) == Some(y),
{
    let n = all[y].name@;
    let ps = places(vertices, n);
    assert(ps[y] == Some(y));
    crate::text::lemma_first_set_some(ps, y);
    crate::text::lemma_first_set_in(ps);
    let z = index_of(vertices, n)->0;
    let w = choose|w: int| 0 <= w < ps.len() && ps[w] == Some(z);
    assert(vertices[z].name@ == n);
    if z != y {
        if z < y {
            assert(all[z].name@ != all[y].name@);
        } else {
            assert(all[y].name@ != all[z].name@);
        }
    }
}

/// Every node whose origins lead back to the roots is placed by an order from the roots that
/// puts each vertex after its requirements.
proof fn lemma_all_placed(vertices: Seq<Vertex>, all: Seq<Node>, order: Seq<usize>, roots: Seq<ProfileName>, x: int)
    requires
        vertices.len() == all.len(),
        forall|m: int| 0 <= m < all.len() ==> (#[trigger] vertices[m]).name == all[m].name,
        forall|m: int| 0 <= m < all.len() ==> (#[trigger] vertices[m]).active@.map_values(|n: ProfileName| n@) == all[m].active@.map_values(
            |n: ProfileName| n@,
        ).sort_by(crate::order::text_order()),
        forall|a: int, b: int| 0 <= a < b < all.len() ==> (#[trigger] all[a]).name@ != (#[trigger] all[b]).name@,
        origins(all, roots.map_values(|n: ProfileName| n@)),
        forall|k: int| 0 <= k < roots.len() ==> (index_of(vertices, (#[trigger] roots[k])@) matches Some(y) ==> placed(order, y)),
        topological(vertices, order),
        0 <= x < all.len(),
    ensures
        placed(order, x),
    decreases x,
{
    let rs = roots.map_values(|n: ProfileName| n@);
    if rs.contains(all[x].name@) {
        let k = choose|k: int| 0 <= k < rs.len() && rs[k] == all[x].name@;
        assert(rs[k] == roots[k]@);
        lemma_index_unique(vertices, all, x);
    } else {
        let p = choose|p: int| 0 <= p < x && active_has(all[p].active@, all[x].name@);
        lemma_all_placed(vertices, all, order, roots, p);
        let i = choose|i: int| 0 <= i < order.len() && order[i] as int == p;
        lemma_edge(vertices, all, p, x);
        assert(edge(vertices, order[i] as int, x));
        let j = choose|j: int| 0 <= j < i && order[j] as int == x;
    }
}

/// A node taken in an order that puts each vertex after its requirements finds each profile it
/// activates taken before it.
proof fn lemma_reach(vertices: Seq<Vertex>, all: Seq<Node>, order: Seq<usize>, nodes: Seq<Node>, p: int, y: int)
    requires
        vertices.len() == all.len(),
        forall|m: int| 0 <= m < all.len() ==> (#[trigger] vertices[m]).name == all[m].name,
        forall|m: int| 0 <= m < all.len() ==> (#[trigger] vertices[m]).active@.map_values(|n: ProfileName| n@) == all[m].active@.map_values(
            |n: ProfileName| n@,
        ).sort_by(crate::order::text_order()),
        forall|a: int, b: int| 0 <= a < b < all.len() ==> (#[trigger] all[a]).name@ != (#[trigger] all[b]).name@,
        nodes.len() == order.len(),
        forall|m: int| 0 <= m < order.len() ==> (#[trigger] order[m]) < all.len() && nodes[m] == all[order[m] as int],
        topological(vertices, order),
        0 <= p < nodes.len(),
        0 <= y < all.len(),
        active_has(nodes[p].active@, all[y].name@),
    ensures
        exists|q: int| 0 <= q < p && nodes[q] == all[y],
{
    let x = order[p] as int;
    let n = all[y].name@;
    let k = choose|k: int| 0 <= k < nodes[p].active@.len() && (#[trigger] nodes[p].active@[k])@ == n;
    let mine = all[x].active@.map_values(|t: ProfileName| t@);
    crate::order::lemma_text_order_total();
    mine.lemma_sort_by_ensures(crate::order::text_order());
    mine.to_multiset_ensures();
    mine.sort_by(crate::order::text_order()).to_multiset_ensures();
    assert(mine[k] == n);
    assert(mine.contains(n));
    assert(mine.to_multiset().count(n) > 0);
    let sorted = vertices[x].active@.map_values(|t: ProfileName| t@);
    assert(sorted == mine.sort_by(crate::order::text_order()));
    assert(sorted.to_multiset().count(n) > 0);
    assert(sorted.contains(n));
    let k2 = choose|k2: int| 0 <= k2 < sorted.len() && sorted[k2] == n;
    assert(vertices[x].active@[k2]@ == n);
    let ps = places(vertices, n);
    assert(ps[y] == Some(y));
    crate::text::lemma_first_set_some(ps, y);
    crate::text::lemma_first_set_in(ps);
    let z = index_of(vertices, n)->0;
    let w = choose|w: int| 0 <= w < ps.len() && ps[w] == Some(z);
    assert(vertices[z].name@ == n);
    if z != y {
        if z < y {
            assert(all[z].name@ != all[y].name@);
        } else {
            assert(all[y].name@ != all[z].name@);
        }
    }
    assert(edge(vertices, x, y));
    assert(edge(vertices, order[p] as int, y));
    let j = choose|j: int| 0 <= j < p && order[j] as int == y;
    assert(nodes[j] == all[y]);
}

/// Unified nodes stay unified when taken in an order that puts each vertex after its
/// requirements.
proof fn lemma_unified_placed(vertices: Seq<Vertex>, all: Seq<Node>, order: Seq<usize>, nodes: Seq<Node>, catalog: Seq<Loaded>)
    requires
        vertices.len() == all.len(),
        forall|m: int| 0 <= m < all.len() ==> (#[trigger] vertices[m]).name == all[m].name,
        forall|m: int| 0 <= m < all.len() ==> (#[trigger] vertices[m]).active@.map_values(|n: ProfileName| n@) == all[m].active@.map_values(
            |n: ProfileName| n@,
        ).sort_by(crate::order::text_order()),
        forall|a: int, b: int| 0 <= a < b < all.len() ==> (#[trigger] all[a]).name@ != (#[trigger] all[b]).name@,
        nodes.len() == order.len(),
        forall|m: int| 0 <= m < order.len() ==> (#[trigger] order[m]) < all.len() && nodes[m] == all[order[m] as int],
        topological(vertices, order),
        unified(all, catalog),
    ensures
        unified(nodes, catalog),
{
    assert forall|p: int, d: Seq<char>| 0 <= p < nodes.len() && #[trigger] active_has(nodes[p].active@, d) && required(
        catalog[nodes[p].at as int].manifest,
        d,
    ) implies has_requirement(nodes, catalog[nodes[p].at as int].manifest, d) by {
        let x = order[p] as int;
        assert(nodes[p] == all[x]);
        let m = catalog[nodes[p].at as int].manifest;
        assert(active_has(all[x].active@, d));
        assert(has_requirement(all, m, d));
        let entry = m.requires@[first_req(m, d)].1;
        let y = choose|y: int| 0 <= y < all.len() && (#[trigger] all[y]).name@ == d && (entry.default_features ==> all[y].defaults) && forall|f: int|
            0 <= f < entry.features@.len() ==> feature_names(all[y].features@).contains((#[trigger] entry.features@[f])@);
        lemma_reach(vertices, all, order, nodes, p, y);
        let q = choose|q: int| 0 <= q < p && nodes[q] == all[y];
        assert(nodes[q].name@ == d);
    }
    assert forall|p: int, i: int, dd: int, j: int| 0 <= p < nodes.len() && 0 <= i < feature_names(nodes[p].features@).len() && first_declared(
        catalog[nodes[p].at as int].manifest,
        #[trigger] feature_names(nodes[p].features@)[i],
    ) == Some(dd) && 0 <= j < catalog[nodes[p].at as int].manifest.features.declared@[dd].1@.len() implies feature_reached(
        nodes,
        #[trigger] catalog[nodes[p].at as int].manifest.features.declared@[dd].1@[j],
        nodes[p].active@,
        catalog[nodes[p].at as int].manifest,
    ) by {
        let x = order[p] as int;
        assert(nodes[p] == all[x]);
        let m = catalog[nodes[p].at as int].manifest;
        let rf = m.features.declared@[dd].1@[j];
        assert(feature_names(all[x].features@)[i] == feature_names(nodes[p].features@)[i]);
        assert(feature_reached(all, rf, all[x].active@, m));
        match rf {
            FeatureRef::Of { profile: pr, feature: g, .. } => {
                if required(m, pr@) && (active_has(nodes[p].active@, pr@) || active_has(node_names(nodes), pr@)) {
                    if !active_has(nodes[p].active@, pr@) {
                        let z = choose|z: int| 0 <= z < node_names(nodes).len() && (#[trigger] node_names(nodes)[z])@ == pr@;
                        assert(nodes[z] == all[order[z] as int]);
                        assert(node_names(all)[order[z] as int]@ == pr@);
                    }
                    let y = choose|y: int| 0 <= y < all.len() && (#[trigger] all[y]).name@ == pr@ && feature_names(all[y].features@).contains(g@);
                    if active_has(nodes[p].active@, pr@) {
                        lemma_reach(vertices, all, order, nodes, p, y);
                        let q = choose|q: int| 0 <= q < p && nodes[q] == all[y];
                        assert(nodes[q].name@ == pr@);
                    } else {
                        let z = choose|z: int| 0 <= z < node_names(nodes).len() && (#[trigger] node_names(nodes)[z])@ == pr@;
                        let oz = order[z] as int;
                        assert(nodes[z] == all[oz]);
                        if oz != y {
                            if oz < y {
                                assert(all[oz].name@ != all[y].name@);
                            } else {
                                assert(all[y].name@ != all[oz].name@);
                            }
                        }
                        assert(nodes[z].name@ == pr@);
                    }
                }
            },
            _ => {},
        }
    }
}

/// Whether `catalog` has not read the profile of the first layer of `configured`, from its
/// source.
#[verifier::opaque]
pub open spec fn first_missing(configured: Seq<Configured>, catalog: Seq<Loaded>) -> bool {
    configured.len() > 0 && forall|j: int| 0 <= j < catalog.len() ==> !is_loaded(#[trigger] catalog[j], configured[0].source, configured[0].name@)
}

/// Where `catalog` first holds `name` from `source`.
pub open spec fn first_loaded(catalog: Seq<Loaded>, source: Source, name: Seq<char>) -> int {
    choose|k: int| 0 <= k < catalog.len() && is_loaded(catalog[k], source, name) && forall|j: int| 0 <= j < k ==> !is_loaded(#[trigger] catalog[j], source, name)
}

/// Whether the manifest `m` declares the feature `f`.
pub open spec fn declares(m: Manifest, f: Seq<char>) -> bool {
    exists|d: int| 0 <= d < m.features.declared@.len() && (#[trigger] m.features.declared@[d]).0@ == f
}

/// Whether the first layer of `configured`, whose profile `catalog` has read, turns on a
/// feature that profile does not declare.
#[verifier::opaque]
pub open spec fn first_unknown(configured: Seq<Configured>, catalog: Seq<Loaded>) -> bool {
    &&& configured.len() > 0
    &&& exists|k: int| 0 <= k < catalog.len() && is_loaded(#[trigger] catalog[k], configured[0].source, configured[0].name@)
    &&& exists|f: int| 0 <= f < configured[0].features@.len() && !declares(
        catalog[first_loaded(catalog, configured[0].source, configured[0].name@)].manifest,
        (#[trigger] configured[0].features@[f])@,
    )
}

/// Whether `r` reports the feature the first layer of `configured` turns on that its profile, as
/// `catalog` first holds it, does not declare: asked for by the target.
#[verifier::opaque]
pub open spec fn unknown_reported(r: Option<Result<Built, ProfileError>>, configured: Seq<Configured>, catalog: Seq<Loaded>) -> bool {
    r matches Some(Err(ProfileError::UnknownFeature { profile, feature, by, .. })) && profile@ == configured[0].name@ && by@ == "the target"@
        && configured[0].features@.map_values(|f: FeatureName| f@).contains(feature@) && !declares(
        catalog[first_loaded(catalog, configured[0].source, configured[0].name@)].manifest,
        feature@,
    )
}

/// Whether `order` places a node of `all` that serves the layer `layer`.
spec fn placed_layer(all: Seq<Node>, order: Seq<usize>, layer: Configured) -> bool {
    exists|x: int| 0 <= x < all.len() && placed(order, x) && layer.name@ == all[x].name@ && forall|f: int| 0 <= f < layer.features@.len()
        ==> feature_names(all[x].features@).contains((#[trigger] layer.features@[f])@)
}

/// Whether `request` asks for the layer `layer`: its name from its source, with its features.
spec fn asks_for(request: Request, layer: Configured) -> bool {
    &&& request.source is Some
    &&& request.name@ == layer.name@
    &&& request.features@.len() == layer.features@.len()
    &&& request.defaults == layer.defaults
    &&& forall|k: int| 0 <= k < layer.features@.len() ==> (#[trigger] request.features@[k]).0@ == layer.features@[k]@
}

/// Whether the layer `layer` is in `nodes`: a node has its name, and every feature it turns on.
pub open spec fn layer_served(nodes: Seq<Node>, layer: Configured) -> bool {
    exists|at: int| 0 <= at < nodes.len() && (#[trigger] nodes[at]).name@ == layer.name@ && (layer.defaults ==> nodes[at].defaults) && forall|k: int|
        0 <= k < layer.features@.len() ==> feature_names(nodes[at].features@).contains((#[trigger] layer.features@[k])@)
}

/// A request served for a layer serves the layer.
proof fn lemma_asks_for(nodes: Seq<Node>, request: Request, layer: Configured)
    requires
        asks_for(request, layer),
        served(nodes, request),
    ensures
        layer_served(nodes, layer),
{
    let at = choose|at: int| 0 <= at < nodes.len() && (#[trigger] nodes[at]).name@ == request.name@ && (request.defaults ==> nodes[at].defaults) && forall|k: int|
        0 <= k < request.features@.len() ==> feature_names(nodes[at].features@).contains((#[trigger] request.features@[k]).0@);
    assert forall|k: int| 0 <= k < layer.features@.len() implies feature_names(nodes[at].features@).contains((#[trigger] layer.features@[k])@) by {
        assert(request.features@[k].0@ == layer.features@[k]@);
    }
}

/// Growing nodes keeps a served layer served.
proof fn lemma_layer_served_grown(a: Seq<Node>, b: Seq<Node>, layer: Configured)
    requires
        grown(a, b),
        layer_served(a, layer),
    ensures
        layer_served(b, layer),
{
    let at = choose|at: int| 0 <= at < a.len() && (#[trigger] a[at]).name@ == layer.name@ && (layer.defaults ==> a[at].defaults) && forall|k: int|
        0 <= k < layer.features@.len() ==> feature_names(a[at].features@).contains((#[trigger] layer.features@[k])@);
    assert(b[at].name == a[at].name);
    assert(a[at].defaults ==> b[at].defaults);
    assert forall|k: int| 0 <= k < layer.features@.len() implies feature_names(b[at].features@).contains((#[trigger] layer.features@[k])@) by {
        assert(feature_names(a[at].features@).contains(layer.features@[k]@));
    }
}

/// Text order, each fact of it for `x`, `y` and `z`.
proof fn lemma_lex(x: Seq<char>, y: Seq<char>, z: Seq<char>)
    ensures
        lex_le(x, x),
        lex_le(x, y) || lex_le(y, x),
        lex_le(x, y) && lex_le(y, x) ==> x == y,
        lex_le(x, y) && lex_le(y, z) ==> lex_le(x, z),
{
    crate::order::lemma_reflexive(x);
    crate::order::lemma_connected(x, y);
    if lex_le(x, y) && lex_le(y, x) {
        crate::order::lemma_antisymmetric(x, y);
    }
    if lex_le(x, y) && lex_le(y, z) {
        crate::order::lemma_transitive(x, y, z);
    }
}

/// The order of enablers orders them totally, up to their values.
proof fn lemma_enabler_le(a: Enabler, b: Enabler, c: Enabler)
    ensures
        enabler_le(a, a),
        enabler_le(a, b) || enabler_le(b, a),
        enabler_le(a, b) && enabler_le(b, a) ==> enabler_view(a) == enabler_view(b),
        enabler_le(a, b) && enabler_le(b, c) ==> enabler_le(a, c),
{
    let (va, vb, vc) = (enabler_view(a), enabler_view(b), enabler_view(c));
    lemma_lex(va.1, vb.1, vc.1);
    lemma_lex(va.2, vb.2, vc.2);
    lemma_lex(vb.1, va.1, vc.1);
    lemma_lex(vb.2, va.2, vc.2);
    lemma_lex(va.1, vc.1, vb.1);
    lemma_lex(va.2, vc.2, vb.2);
}

/// The order of asks orders them totally, up to their values.
proof fn lemma_ask_le(a: Ask, b: Ask, c: Ask)
    ensures
        ask_le(a, a),
        ask_le(a, b) || ask_le(b, a),
        ask_le(a, b) && ask_le(b, a) ==> ask_view(a) == ask_view(b),
        ask_le(a, b) && ask_le(b, c) ==> ask_le(a, c),
{
    lemma_lex(a.dep@, b.dep@, c.dep@);
    lemma_lex(b.dep@, a.dep@, c.dep@);
    lemma_lex(a.dep@, c.dep@, b.dep@);
    match (a.turn, b.turn, c.turn) {
        (Some((f, e)), Some((g, d)), Some((h, x))) => {
            lemma_lex(f@, g@, h@);
            lemma_lex(g@, f@, h@);
            lemma_lex(f@, h@, g@);
            lemma_enabler_le(e, d, x);
            lemma_enabler_le(d, e, x);
            lemma_enabler_le(e, x, d);
        },
        (Some((f, e)), Some((g, d)), None) => {
            lemma_lex(f@, g@, g@);
            lemma_enabler_le(e, d, d);
        },
        (Some((f, e)), None, Some((h, x))) => {
            lemma_lex(f@, h@, h@);
            lemma_enabler_le(e, x, x);
        },
        (None, Some((g, d)), Some((h, x))) => {
            lemma_lex(g@, h@, h@);
            lemma_enabler_le(d, x, x);
        },
        (Some((f, e)), None, None) => {
            lemma_lex(f@, f@, f@);
            lemma_enabler_le(e, e, e);
        },
        _ => {},
    }
}

} // verus!
