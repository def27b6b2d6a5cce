use vstd::prelude::*;

use crate::error::Error;
use crate::path::{concat_admitted, concat_model, spliced_bridge, Path, PathModel};

verus! {

/// The mathematical image of a graph: each live node mapped to the ordered
/// collection of its current paths.
pub type PathsModel = Map<u64, Seq<PathModel>>;

/// The image of the underlying association list.
pub type EntriesModel = Seq<(u64, Seq<PathModel>)>;

/// An adjacency structure mapping each live node to its current paths. It
/// is built once from an edge list and destructively consumed by repeated
/// vertex elimination.
#[derive(Debug, PartialEq, Eq)]
pub struct Graph {
    pub paths: Vec<(u64, Vec<Path>)>,
}

pub open spec fn paths_model(ps: Seq<Path>) -> Seq<PathModel> {
    ps.map_values(|p: Path| p@)
}

pub open spec fn entries_model(s: Seq<(u64, Vec<Path>)>) -> EntriesModel {
    s.map_values(|e: (u64, Vec<Path>)| (e.0, paths_model(e.1@)))
}

/// Folds an association list into the map it denotes.
pub open spec fn model_map(s: EntriesModel) -> PathsModel
    decreases s.len(),
{
    if s.len() == 0 {
        Map::empty()
    } else {
        model_map(s.drop_last()).insert(s.last().0, s.last().1)
    }
}

pub open spec fn munique(s: EntriesModel) -> bool {
    forall|i: int, j: int| 0 <= i < j < s.len() ==> (#[trigger] s[i]).0 != (#[trigger] s[j]).0
}

pub open spec fn mhas_key(s: EntriesModel, k: u64) -> bool {
    exists|i: int| 0 <= i < s.len() && (#[trigger] s[i]).0 == k
}

impl View for Graph {
    type V = PathsModel;

    open spec fn view(&self) -> PathsModel {
        model_map(entries_model(self.paths@))
    }
}

pub proof fn lemma_paths_model_push(v: Seq<Path>, p: Path)
    ensures
        paths_model(v.push(p)) == paths_model(v).push(p@),
{
    assert(paths_model(v.push(p)) =~= paths_model(v).push(p@));
}

pub proof fn lemma_paths_model_remove(v: Seq<Path>, i: int)
    requires
        0 <= i < v.len(),
    ensures
        paths_model(v.remove(i)) == paths_model(v).remove(i),
{
    assert(paths_model(v.remove(i)) =~= paths_model(v).remove(i));
}

pub proof fn lemma_entries_model_push(s: Seq<(u64, Vec<Path>)>, e: (u64, Vec<Path>))
    ensures
        entries_model(s.push(e)) == entries_model(s).push((e.0, paths_model(e.1@))),
{
    assert(entries_model(s.push(e)) =~= entries_model(s).push((e.0, paths_model(e.1@))));
}

pub proof fn lemma_entries_model_remove(s: Seq<(u64, Vec<Path>)>, i: int)
    requires
        0 <= i < s.len(),
    ensures
        entries_model(s.remove(i)) == entries_model(s).remove(i),
{
    assert(entries_model(s.remove(i)) =~= entries_model(s).remove(i));
}

pub proof fn lemma_model_map_covers(s: EntriesModel)
    ensures
        forall|k: u64| #[trigger] model_map(s).dom().contains(k) <==> mhas_key(s, k),
    decreases s.len(),
{
    if s.len() > 0 {
        lemma_model_map_covers(s.drop_last());
        assert forall|k: u64| #[trigger] model_map(s).dom().contains(k) <==> mhas_key(s, k) by {
            if model_map(s).dom().contains(k) {
                if k == s.last().0 {
                    assert((#[trigger] s[s.len() - 1]).0 == k);
                } else {
                    assert(model_map(s.drop_last()).dom().contains(k));
                    assert(mhas_key(s.drop_last(), k));
                    let i = choose|i: int|
                        0 <= i < s.drop_last().len() && (#[trigger] s.drop_last()[i]).0 == k;
                    assert(s.drop_last()[i] == s[i]);
                    assert((#[trigger] s[i]).0 == k);
                }
            }
            if mhas_key(s, k) {
                let i = choose|i: int| 0 <= i < s.len() && (#[trigger] s[i]).0 == k;
                if i < s.len() - 1 {
                    assert((#[trigger] s.drop_last()[i]).0 == k);
                    assert(mhas_key(s.drop_last(), k));
                    assert(model_map(s.drop_last()).dom().contains(k));
                }
                assert(model_map(s).dom().contains(k));
            }
        }
    }
}

pub proof fn lemma_model_map_index(s: EntriesModel, i: int)
    requires
        munique(s),
        0 <= i < s.len(),
    ensures
        model_map(s).dom().contains(s[i].0),
        model_map(s)[s[i].0] == s[i].1,
    decreases s.len(),
{
    if i < s.len() - 1 {
        assert(munique(s.drop_last())) by {
            assert(forall|a: int| 0 <= a < s.len() - 1 ==> s.drop_last()[a] == s[a]);
        }
        lemma_model_map_index(s.drop_last(), i);
        assert(s[i].0 != s.last().0);
    }
}

pub proof fn lemma_model_map_update(s: EntriesModel, i: int, v: Seq<PathModel>)
    requires
        munique(s),
        0 <= i < s.len(),
    ensures
        model_map(s.update(i, (s[i].0, v))) == model_map(s).insert(s[i].0, v),
    decreases s.len(),
{
    let s2 = s.update(i, (s[i].0, v));
    if i == s.len() - 1 {
        assert(s2.drop_last() =~= s.drop_last());
        assert(model_map(s2) =~= model_map(s).insert(s[i].0, v));
    } else {
        assert(munique(s.drop_last())) by {
            assert(forall|a: int| 0 <= a < s.len() - 1 ==> s.drop_last()[a] == s[a]);
        }
        lemma_model_map_update(s.drop_last(), i, v);
        assert(s2.drop_last() =~= s.drop_last().update(i, (s[i].0, v)));
        assert(s2.last() == s.last());
        assert(s[i].0 != s.last().0);
        assert(model_map(s2) =~= model_map(s).insert(s[i].0, v));
    }
}

/// Appending a fresh direct path both ways: the map after inserting an
/// empty-bridge path to `t` at the end of `k`'s collection.
pub open spec fn add_direct(m: PathsModel, k: u64, t: u64) -> PathsModel {
    let prev = if m.dom().contains(k) {
        m[k]
    } else {
        Seq::<PathModel>::empty()
    };
    m.insert(k, prev.push(PathModel { bridge: Seq::empty(), target: t }))
}

/// The adjacency map a whole edge list builds: one direct path in each
/// direction per edge, appended in input order.
pub open spec fn adjacency(edges: Seq<(u64, u64)>) -> PathsModel
    decreases edges.len(),
{
    if edges.len() == 0 {
        Map::empty()
    } else {
        let e = edges.last();
        add_direct(add_direct(adjacency(edges.drop_last()), e.0, e.1), e.1, e.0)
    }
}

pub open spec fn has_direct(m: PathsModel, u: u64, v: u64) -> bool {
    m.dom().contains(u) && exists|j: int| 0 <= j < m[u].len() && (#[trigger] m[u][j]).target == v
}

/// An edge may be added when it is not a self-loop and its endpoints have
/// no direct connection yet.
pub open spec fn edge_admitted(m: PathsModel, u: u64, v: u64) -> bool {
    u != v && !has_direct(m, u, v)
}

/// A whole edge list is admitted when every edge is admitted against the
/// adjacency built from the edges before it.
pub open spec fn edges_admitted(edges: Seq<(u64, u64)>) -> bool
    decreases edges.len(),
{
    if edges.len() == 0 {
        true
    } else {
        edges_admitted(edges.drop_last()) && edge_admitted(
            adjacency(edges.drop_last()),
            edges.last().0,
            edges.last().1,
        )
    }
}

/// Invariant of a single path held by `source` while `live` is the set of
/// nodes still in the graph: the bridge repeats nothing, avoids the source,
/// runs only through eliminated nodes, and a self-referential path has at
/// least two interior nodes.
pub open spec fn pv_wf(p: PathModel, source: u64, live: Set<u64>) -> bool {
    &&& p.bridge.no_duplicates()
    &&& !p.bridge.contains(source)
    &&& (forall|x: u64| p.bridge.contains(x) ==> !live.contains(x))
    &&& (p.target == source ==> p.bridge.len() >= 2)
}

pub open spec fn model_wf(m: PathsModel) -> bool {
    forall|k: u64, j: int|
        m.dom().contains(k) && 0 <= j < m[k].len() ==> pv_wf(#[trigger] m[k][j], k, m.dom())
}

/// Every path of every entry is a direct path to another node.
pub open spec fn direct_entries(s: Seq<(u64, Vec<Path>)>) -> bool {
    forall|a: int, j: int|
        0 <= a < s.len() && 0 <= j < (#[trigger] s[a]).1@.len() ==> ((#[trigger] s[a].1@[j]).bridge@.len()
            == 0 && s[a].1@[j].target != s[a].0)
}

pub open spec fn entries_nonempty(s: Seq<(u64, Vec<Path>)>) -> bool {
    forall|a: int| 0 <= a < s.len() ==> (#[trigger] s[a]).1@.len() > 0
}

impl Graph {
    /// Structural well-formedness: unique keys, no empty collections, and
    /// every path simple in the sense of `pv_wf`.
    pub open spec fn wf(&self) -> bool {
        &&& munique(entries_model(self.paths@))
        &&& entries_nonempty(self.paths@)
        &&& model_wf(self@)
    }
}

fn find_key(entries: &Vec<(u64, Vec<Path>)>, k: u64) -> (r: Option<usize>)
    ensures
        r is Some ==> 0 <= r->Some_0 < entries@.len() && entries@[r->Some_0 as int].0 == k,
        r is None ==> forall|i: int| 0 <= i < entries@.len() ==> (#[trigger] entries@[i]).0 != k,
{
    let mut i: usize = 0;
    while i < entries.len()
        invariant
            0 <= i <= entries@.len(),
            forall|j: int| 0 <= j < i ==> (#[trigger] entries@[j]).0 != k,
        decreases entries@.len() - i,
    {
        if entries[i].0 == k {
            return Some(i);
        }
        i += 1;
    }
    None
}

fn has_target(ps: &Vec<Path>, t: u64) -> (r: bool)
    ensures
        r == exists|j: int| 0 <= j < ps@.len() && (#[trigger] ps@[j]).target == t,
{
    let mut i: usize = 0;
    while i < ps.len()
        invariant
            0 <= i <= ps@.len(),
            forall|j: int| 0 <= j < i ==> (#[trigger] ps@[j]).target != t,
        decreases ps@.len() - i,
    {
        if ps[i].target == t {
            return true;
        }
        i += 1;
    }
    false
}

/// Appends a direct path from `k` to `t` at the end of `k`'s collection,
/// creating the entry when `k` is new.
fn push_direct(entries: &mut Vec<(u64, Vec<Path>)>, k: u64, t: u64)
    requires
        munique(entries_model(old(entries)@)),
    ensures
        munique(entries_model(final(entries)@)),
        model_map(entries_model(final(entries)@)) == add_direct(
            model_map(entries_model(old(entries)@)),
            k,
            t,
        ),
        entries_nonempty(old(entries)@) ==> entries_nonempty(final(entries)@),
        direct_entries(old(entries)@) && k != t ==> direct_entries(final(entries)@),
{
    let ghost s0 = entries_model(entries@);
    proof {
        lemma_model_map_covers(s0);
    }
    match find_key(entries, k) {
        Some(a) => {
            let mut e = entries.remove(a);
            let ghost old_paths = e.1@;
            e.1.push(Path::to(t));
            entries.insert(a, e);
            proof {
                assert(entries@ =~= old(entries)@.update(
                    a as int,
                    (k, entries@[a as int].1),
                ));
                let s1 = entries_model(entries@);
                assert(paths_model(entries@[a as int].1@) =~= s0[a as int].1.push(
                    PathModel { bridge: Seq::empty(), target: t },
                ));
                assert(s1 =~= s0.update(
                    a as int,
                    (k, s0[a as int].1.push(PathModel { bridge: Seq::empty(), target: t })),
                ));
                lemma_model_map_index(s0, a as int);
                lemma_model_map_update(
                    s0,
                    a as int,
                    s0[a as int].1.push(PathModel { bridge: Seq::empty(), target: t }),
                );
                assert(munique(s1));
            }
        },
        None => {
            let mut ps: Vec<Path> = Vec::new();
            ps.push(Path::to(t));
            entries.push((k, ps));
            proof {
                let s1 = entries_model(entries@);
                assert(s1.drop_last() =~= s0);
                assert(s1.last().0 == k);
                assert(s1.last().1 =~= Seq::<PathModel>::empty().push(
                    PathModel { bridge: Seq::empty(), target: t },
                ));
                assert(!model_map(s0).dom().contains(k));
                assert(model_map(s1) =~= add_direct(model_map(s0), k, t));
                assert(munique(s1)) by {
                    assert(forall|i: int| 0 <= i < s0.len() ==> s1[i] == s0[i]);
                }
            }
        },
    }
}

impl Graph {
    /// Builds the initial adjacency from an edge list, inserting a direct
    /// path in each direction per edge. Fails on the first self-loop or
    /// duplicate edge, returning no partial graph.
    pub fn from_edges(edges: Vec<(u64, u64)>) -> (r: Result<Graph, Error>)
        ensures
            r is Ok <==> edges_admitted(edges@),
            r is Ok ==> (r->Ok_0)@ == adjacency(edges@) && (r->Ok_0).wf() && model_steps_ok(
                (r->Ok_0)@,
                edge_pairs(edges@),
            ) && direct_rel((r->Ok_0)@) == edge_pairs(edges@),
            r == Result::<Graph, Error>::Err(Error::SelfLoop) <==> exists|n: int|
                0 <= n < edges@.len() && edges_admitted(#[trigger] edges@.take(n))
                    && edges@[n].0 == edges@[n].1,
            r == Result::<Graph, Error>::Err(Error::DuplicateEdge) <==> exists|n: int|
                0 <= n < edges@.len() && edges_admitted(#[trigger] edges@.take(n))
                    && edges@[n].0 != edges@[n].1 && has_direct(
                    adjacency(edges@.take(n)),
                    edges@[n].0,
                    edges@[n].1,
                ),
    {
        let mut entries: Vec<(u64, Vec<Path>)> = Vec::new();
        let mut i: usize = 0;
        proof {
            assert(entries_model(entries@) =~= Seq::<(u64, Seq<PathModel>)>::empty());
            assert(edges@.take(0) =~= Seq::<(u64, u64)>::empty());
        }
        while i < edges.len()
            invariant
                0 <= i <= edges@.len(),
                edges_admitted(edges@.take(i as int)),
                munique(entries_model(entries@)),
                entries_nonempty(entries@),
                direct_entries(entries@),
                model_map(entries_model(entries@)) == adjacency(edges@.take(i as int)),
            decreases edges@.len() - i,
        {
            let ghost prefix = edges@.take(i as int);
            let e = edges[i];
            let u = e.0;
            let v = e.1;
            if u == v {
                proof {
                    assert(!edge_admitted(adjacency(prefix), u, v));
                    lemma_first_failure(edges@, i as int);
                }
                return Err(Error::SelfLoop);
            }
            let dup = match find_key(&entries, u) {
                Some(a) => {
                    let d = has_target(&entries[a].1, v);
                    proof {
                        let s = entries_model(entries@);
                        lemma_model_map_index(s, a as int);
                        assert(adjacency(prefix)[u] == paths_model(entries@[a as int].1@));
                        if d {
                            let ps = entries@[a as int].1@;
                            let j = choose|j: int|
                                0 <= j < ps.len() && (#[trigger] ps[j]).target == v;
                            assert((#[trigger] adjacency(prefix)[u][j]).target == v);
                            assert(has_direct(adjacency(prefix), u, v));
                        } else {
                            assert forall|j: int|
                                0 <= j < adjacency(prefix)[u].len() implies (
                            #[trigger] adjacency(prefix)[u][j]).target != v by {
                                assert(entries@[a as int].1@[j].target != v);
                            }
                            assert(!has_direct(adjacency(prefix), u, v));
                        }
                    }
                    d
                },
                None => {
                    proof {
                        lemma_model_map_covers(entries_model(entries@));
                        assert(!mhas_key(entries_model(entries@), u));
                        assert(!has_direct(adjacency(prefix), u, v));
                    }
                    false
                },
            };
            if dup {
                proof {
                    assert(has_direct(adjacency(prefix), u, v));
                    lemma_first_failure(edges@, i as int);
                }
                return Err(Error::DuplicateEdge);
            }
            proof {
                assert(!has_direct(adjacency(prefix), u, v));
                assert(edge_admitted(adjacency(prefix), u, v));
            }
            push_direct(&mut entries, u, v);
            push_direct(&mut entries, v, u);
            proof {
                assert(edges@.take(i as int + 1).drop_last() =~= prefix);
                assert(edges@.take(i as int + 1).last() == edges@[i as int]);
                assert(edges_admitted(edges@.take(i as int + 1)));
                assert(adjacency(edges@.take(i as int + 1)) == add_direct(
                    add_direct(adjacency(prefix), u, v),
                    v,
                    u,
                ));
            }
            i += 1;
        }
        proof {
            assert(edges@.take(edges@.len() as int) =~= edges@);
            lemma_no_failure_index(edges@);
            lemma_direct_model_wf(entries);
            lemma_adjacency_steps(edges@);
            lemma_direct_rel_adjacency(edges@);
        }
        Ok(Graph { paths: entries })
    }

    /// The current live node ids, one per entry, in unspecified order.
    pub fn keys(&self) -> (r: Vec<u64>)
        ensures
            r@.len() == self.paths@.len(),
            forall|i: int| 0 <= i < r@.len() ==> r@[i] == (#[trigger] self.paths@[i]).0,
            forall|k: u64| r@.contains(k) <==> self@.dom().contains(k),
            munique(entries_model(self.paths@)) ==> r@.no_duplicates(),
    {
        let mut r: Vec<u64> = Vec::new();
        let mut i: usize = 0;
        while i < self.paths.len()
            invariant
                0 <= i <= self.paths@.len(),
                r@.len() == i,
                forall|j: int| 0 <= j < i ==> r@[j] == (#[trigger] self.paths@[j]).0,
            decreases self.paths@.len() - i,
        {
            r.push(self.paths[i].0);
            i += 1;
        }
        proof {
            lemma_model_map_covers(entries_model(self.paths@));
            assert forall|k: u64| r@.contains(k) <==> self@.dom().contains(k) by {
                if r@.contains(k) {
                    let j = choose|j: int| 0 <= j < r@.len() && r@[j] == k;
                    assert(entries_model(self.paths@)[j].0 == k);
                }
                if self@.dom().contains(k) {
                    let j = choose|j: int|
                        0 <= j < entries_model(self.paths@).len() && (#[trigger] entries_model(
                            self.paths@,
                        )[j]).0 == k;
                    assert(r@[j] == k);
                }
            }
            if munique(entries_model(self.paths@)) {
                let s = entries_model(self.paths@);
                assert forall|a: int, b: int|
                    0 <= a < r@.len() && 0 <= b < r@.len() && a != b implies r@[a] != r@[b] by {
                    if a < b {
                        assert(s[a].0 != s[b].0);
                    } else {
                        assert(s[b].0 != s[a].0);
                    }
                }
                assert(r@.no_duplicates());
            }
        }
        r
    }
}

impl Graph {
    /// The vertex-elimination step. Detaches and returns `out_source`'s
    /// paths, or `None` when it is not live; every other node's collection
    /// is rewritten by splicing through the eliminated node, and nodes left
    /// with no paths are dropped.
    pub fn remove(&mut self, out_source: &u64) -> (r: Option<Vec<Path>>)
        requires
            old(self).wf(),
        ensures
            final(self).wf(),
            r is Some <==> old(self)@.dom().contains(*out_source),
            r is None ==> *final(self) == *old(self),
            r is Some ==> paths_model((r->Some_0)@) == old(self)@[*out_source] && final(self)@
                == eliminate_map(old(self)@, *out_source),
            forall|es: Set<(u64, u64)>|
                #[trigger] model_steps_ok(old(self)@, es) ==> model_steps_ok(final(self)@, es),
    {
        let node = *out_source;
        let ghost s0 = entries_model(old(self).paths@);
        let ghost g0 = old(self)@;
        proof {
            lemma_model_map_covers(s0);
        }
        let idx = match find_key(&self.paths, node) {
            None => {
                return None;
            },
            Some(a) => a,
        };
        proof {
            lemma_model_map_index(s0, idx as int);
        }
        let entry = self.paths.remove(idx);
        let out_paths = entry.1;
        let ghost outs = paths_model(out_paths@);
        let ghost rest = s0.remove(idx as int);
        proof {
            assert(outs == g0[node]);
            assert(entries_model(self.paths@) =~= rest);
            assert(munique(rest)) by {
                assert(forall|a: int|
                    0 <= a < rest.len() ==> rest[a] == (if a < idx as int {
                        s0[a]
                    } else {
                        s0[a + 1]
                    }));
            }
            assert(!mhas_key(rest, node)) by {
                assert forall|a: int| 0 <= a < rest.len() implies (#[trigger] rest[a]).0
                    != node by {
                    if a < idx as int {
                        assert(s0[a].0 != s0[idx as int].0);
                    } else {
                        assert(s0[a + 1].0 != s0[idx as int].0);
                    }
                }
            }
        }
        let mut new_entries: Vec<(u64, Vec<Path>)> = Vec::new();
        proof {
            assert(rest.skip(0) =~= rest);
            assert(entries_model(new_entries@) =~= eliminate_entries(
                rest.take(0),
                node,
                outs,
            )) by {
                assert(rest.take(0) =~= Seq::<(u64, Seq<PathModel>)>::empty());
                assert(entries_model(new_entries@) =~= Seq::<(u64, Seq<PathModel>)>::empty());
            }
        }
        while self.paths.len() > 0
            invariant
                outs == paths_model(out_paths@),
                self.paths@.len() <= rest.len(),
                entries_model(self.paths@) == rest.skip(rest.len() - self.paths@.len()),
                entries_model(new_entries@) == eliminate_entries(
                    rest.take(rest.len() - self.paths@.len()),
                    node,
                    outs,
                ),
            decreases self.paths@.len(),
        {
            let ghost t = rest.len() - self.paths@.len();
            let ghost pv = self.paths@;
            let kp = self.paths.remove(0);
            let k = kp.0;
            let mut ps = kp.1;
            proof {
                assert((k, paths_model(ps@)) == rest[t]) by {
                    assert(rest.skip(t)[0] == rest[t]);
                }
                lemma_entries_model_remove(pv, 0);
                assert(entries_model(self.paths@) == entries_model(pv).remove(0));
                assert(entries_model(self.paths@) =~= rest.skip(t + 1)) by {
                    assert(forall|a: int|
                        0 <= a < rest.skip(t).len() - 1 ==> rest.skip(t).remove(0)[a] == rest.skip(
                            t,
                        )[a + 1] && rest.skip(t)[a + 1] == rest[t + 1 + a]);
                }
            }
            let ghost ps_full = paths_model(ps@);
            let mut new_ps: Vec<Path> = Vec::new();
            proof {
                assert(paths_model(new_ps@) =~= eliminate_paths(
                    ps_full.take(0),
                    k,
                    node,
                    outs,
                )) by {
                    assert(ps_full.take(0) =~= Seq::<PathModel>::empty());
                    assert(paths_model(new_ps@) =~= Seq::<PathModel>::empty());
                }
            }
            while ps.len() > 0
                invariant
                    ps@.len() <= ps_full.len(),
                    paths_model(ps@) == ps_full.skip(ps_full.len() - ps@.len()),
                    paths_model(new_ps@) == eliminate_paths(
                        ps_full.take(ps_full.len() - ps@.len()),
                        k,
                        node,
                        outs,
                    ),
                    outs == paths_model(out_paths@),
                decreases ps@.len(),
            {
                let ghost u = ps_full.len() - ps@.len();
                let ghost psv = ps@;
                let p = ps.remove(0);
                proof {
                    assert(p@ == ps_full[u]) by {
                        assert(ps_full.skip(u)[0] == ps_full[u]);
                    }
                    lemma_paths_model_remove(psv, 0);
                    assert(paths_model(ps@) == paths_model(psv).remove(0));
                    assert(paths_model(ps@) =~= ps_full.skip(u + 1)) by {
                        assert(forall|a: int|
                            0 <= a < ps_full.skip(u).len() - 1 ==> ps_full.skip(u).remove(0)[a]
                                == ps_full.skip(u)[a + 1] && ps_full.skip(u)[a + 1] == ps_full[u + 1
                                + a]);
                    }
                    assert(ps_full.take(u + 1).drop_last() =~= ps_full.take(u));
                    assert(ps_full.take(u + 1).last() == ps_full[u]);
                }
                if p.target == node {
                    let mut j: usize = 0;
                    proof {
                        assert(outs.take(0) =~= Seq::<PathModel>::empty());
                        assert(paths_model(new_ps@) + splice_results(p@, k, outs.take(0))
                            =~= paths_model(new_ps@));
                    }
                    let ghost base = paths_model(new_ps@);
                    while j < out_paths.len()
                        invariant
                            0 <= j <= out_paths@.len(),
                            outs == paths_model(out_paths@),
                            paths_model(new_ps@) == base + splice_results(
                                p@,
                                k,
                                outs.take(j as int),
                            ),
                        decreases out_paths@.len() - j,
                    {
                        proof {
                            assert(outs.take(j as int + 1).drop_last() =~= outs.take(j as int));
                            assert(outs.take(j as int + 1).last() == outs[j as int]);
                            assert(outs[j as int] == out_paths@[j as int]@);
                        }
                        match p.concat(&k, &out_paths[j]) {
                            Some(np) => {
                                let ghost npv = new_ps@;
                                new_ps.push(np);
                                proof {
                                    lemma_paths_model_push(npv, np);
                                    assert(paths_model(new_ps@) =~= base + splice_results(
                                        p@,
                                        k,
                                        outs.take(j as int + 1),
                                    ));
                                }
                            },
                            None => {},
                        }
                        j += 1;
                    }
                    proof {
                        assert(outs.take(outs.len() as int) =~= outs);
                        assert(paths_model(new_ps@) =~= eliminate_paths(
                            ps_full.take(u + 1),
                            k,
                            node,
                            outs,
                        ));
                    }
                } else {
                    let ghost npv = new_ps@;
                    new_ps.push(p);
                    proof {
                        lemma_paths_model_push(npv, p);
                        assert(paths_model(new_ps@) =~= eliminate_paths(
                            ps_full.take(u + 1),
                            k,
                            node,
                            outs,
                        ));
                    }
                }
            }
            proof {
                assert(ps_full.take(ps_full.len() as int) =~= ps_full);
                assert(rest.take(t + 1).drop_last() =~= rest.take(t));
                assert(rest.take(t + 1).last() == rest[t]);
            }
            if new_ps.len() > 0 {
                let ghost nev = new_entries@;
                let ghost npv = new_ps@;
                let pair = (k, new_ps);
                let ghost e = pair;
                new_entries.push(pair);
                proof {
                    lemma_entries_model_push(nev, e);
                    assert(paths_model(npv).len() > 0);
                    assert(entries_model(new_entries@) =~= eliminate_entries(
                        rest.take(t + 1),
                        node,
                        outs,
                    ));
                }
            } else {
                proof {
                    assert(eliminate_paths(rest[t].1, k, node, outs).len() == 0);
                    assert(entries_model(new_entries@) =~= eliminate_entries(
                        rest.take(t + 1),
                        node,
                        outs,
                    ));
                }
            }
        }
        self.paths = new_entries;
        proof {
            assert(rest.take(rest.len() as int) =~= rest);
            let result = eliminate_entries(rest, node, outs);
            assert(entries_model(self.paths@) == result);
            lemma_eliminate_entries_content(rest, node, outs);
            lemma_model_map_covers(result);
            lemma_model_map_covers(s0);
            // keys of `rest` index into `s0` and so into `g0`
            assert forall|a: int| 0 <= a < rest.len() implies (#[trigger] rest[a]) == (if a
                < idx as int {
                s0[a]
            } else {
                s0[a + 1]
            }) by {}
            assert forall|a: int| 0 <= a < rest.len() implies g0.dom().contains(
                (#[trigger] rest[a]).0,
            ) && g0[rest[a].0] == rest[a].1 && rest[a].0 != node by {
                if a < idx as int {
                    lemma_model_map_index(s0, a);
                    assert(s0[a].0 != s0[idx as int].0);
                } else {
                    lemma_model_map_index(s0, a + 1);
                    assert(s0[a + 1].0 != s0[idx as int].0);
                }
            }
            let m = model_map(result);
            let em = eliminate_map(g0, node);
            assert forall|k: u64| m.dom().contains(k) implies em.dom().contains(k) && m[k]
                == em[k] by {
                assert(mhas_key(result, k));
                let i = choose|i: int|
                    0 <= i < rest.len() && (#[trigger] rest[i]).0 == k && eliminate_paths(
                        rest[i].1,
                        k,
                        node,
                        outs,
                    ).len() > 0;
                assert(em.dom().contains(k));
                let a = choose|a: int| 0 <= a < result.len() && (#[trigger] result[a]).0 == k;
                lemma_model_map_index(result, a);
                let i2 = choose|i2: int|
                    0 <= i2 < rest.len() && (#[trigger] result[a]) == (
                    rest[i2].0,
                    eliminate_paths(rest[i2].1, rest[i2].0, node, outs),
                    ) && eliminate_paths(rest[i2].1, rest[i2].0, node, outs).len() > 0;
                assert(m[k] == eliminate_paths(rest[i2].1, k, node, outs));
                assert(em[k] == eliminate_paths(g0[k], k, node, outs));
                assert(rest[i2].1 == g0[k]);
            }
            assert forall|k: u64| em.dom().contains(k) implies m.dom().contains(k) by {
                // k is a live key other than node with a nonempty rewrite
                assert(g0.dom().contains(k) && k != node);
                assert(mhas_key(s0, k));
                let i = choose|i: int| 0 <= i < s0.len() && (#[trigger] s0[i]).0 == k;
                lemma_model_map_index(s0, i);
                let a = if i < idx as int {
                    i
                } else {
                    i - 1
                };
                assert(i != idx as int);
                assert(rest[a].0 == k && rest[a].1 == g0[k]);
                assert(mhas_key(result, k));
            }
            assert(m =~= em);
            // well-formedness of the shrunken graph
            assert(munique(result));
            assert forall|a: int| 0 <= a < self.paths@.len() implies (
            #[trigger] self.paths@[a]).1@.len() > 0 by {
                assert(result[a].1 == paths_model(self.paths@[a].1@));
                let i = choose|i: int|
                    0 <= i < rest.len() && (#[trigger] result[a]) == (
                    rest[i].0,
                    eliminate_paths(rest[i].1, rest[i].0, node, outs),
                    ) && eliminate_paths(rest[i].1, rest[i].0, node, outs).len() > 0;
            }
            lemma_eliminate_map_wf(g0, node);
            assert forall|es: Set<(u64, u64)>| #[trigger] model_steps_ok(
                g0,
                es,
            ) implies model_steps_ok(em, es) by {
                lemma_eliminate_map_steps_ok(g0, node, es);
            }
        }
        Some(out_paths)
    }
}

/// A failing edge at position `i`, with everything before it admitted,
/// refutes the whole list, and is the only such position.
pub proof fn lemma_first_failure(edges: Seq<(u64, u64)>, i: int)
    requires
        0 <= i < edges.len(),
        edges_admitted(edges.take(i)),
        !edge_admitted(adjacency(edges.take(i)), edges[i].0, edges[i].1),
    ensures
        !edges_admitted(edges),
        forall|n: int|
            0 <= n < edges.len() && edges_admitted(#[trigger] edges.take(n)) && !edge_admitted(
                adjacency(edges.take(n)),
                edges[n].0,
                edges[n].1,
            ) ==> n == i,
{
    if edges_admitted(edges) {
        lemma_admitted_prefix(edges, i + 1);
        assert(edges.take(i + 1).drop_last() =~= edges.take(i));
        assert(edges.take(i + 1).last() == edges[i]);
    }
    assert forall|n: int|
        0 <= n < edges.len() && edges_admitted(#[trigger] edges.take(n)) && !edge_admitted(
            adjacency(edges.take(n)),
            edges[n].0,
            edges[n].1,
        ) implies n == i by {
        if n < i {
            lemma_no_failure_index(edges.take(i));
            assert(edges.take(i).take(n) =~= edges.take(n));
            assert(edges.take(i)[n] == edges[n]);
        }
        if n > i {
            lemma_admitted_prefix(edges.take(n), i + 1);
            assert(edges.take(n).take(i + 1) =~= edges.take(i + 1));
            assert(edges.take(i + 1).drop_last() =~= edges.take(i));
            assert(edges.take(i + 1).last() == edges[i]);
        }
    }
}

/// Admittance of a list passes to each of its prefixes.
pub proof fn lemma_admitted_prefix(edges: Seq<(u64, u64)>, n: int)
    requires
        0 <= n <= edges.len(),
        edges_admitted(edges),
    ensures
        edges_admitted(edges.take(n)),
    decreases edges.len() - n,
{
    if n < edges.len() {
        lemma_admitted_prefix(edges, n + 1);
        assert(edges.take(n + 1).drop_last() =~= edges.take(n));
    } else {
        assert(edges.take(n) =~= edges);
    }
}

/// An admitted list has no failing position.
pub proof fn lemma_no_failure_index(edges: Seq<(u64, u64)>)
    requires
        edges_admitted(edges),
    ensures
        forall|n: int|
            0 <= n < edges.len() && edges_admitted(#[trigger] edges.take(n)) ==> edge_admitted(
                adjacency(edges.take(n)),
                edges[n].0,
                edges[n].1,
            ),
{
    assert forall|n: int|
        0 <= n < edges.len() && edges_admitted(#[trigger] edges.take(n)) implies edge_admitted(
        adjacency(edges.take(n)),
        edges[n].0,
        edges[n].1,
    ) by {
        lemma_admitted_prefix(edges, n + 1);
        assert(edges.take(n + 1).drop_last() =~= edges.take(n));
        assert(edges.take(n + 1).last() == edges[n]);
    }
}

/// The paths a single old path of `source` contributes when `node` is
/// eliminated and `outs` are `node`'s own paths: every successful splice,
/// in the order of `outs`.
pub open spec fn splice_results(p: PathModel, source: u64, outs: Seq<PathModel>) -> Seq<PathModel>
    decreases outs.len(),
{
    if outs.len() == 0 {
        Seq::empty()
    } else {
        let rest = splice_results(p, source, outs.drop_last());
        if concat_admitted(p, source, outs.last()) {
            rest.push(concat_model(p, outs.last()))
        } else {
            rest
        }
    }
}

/// The collection that replaces `ps`, the paths of `source`, when `node` is
/// eliminated: paths not targeting `node` are kept, the others are replaced
/// by their successful splices through `node`.
pub open spec fn eliminate_paths(
    ps: Seq<PathModel>,
    source: u64,
    node: u64,
    outs: Seq<PathModel>,
) -> Seq<PathModel>
    decreases ps.len(),
{
    if ps.len() == 0 {
        Seq::empty()
    } else {
        eliminate_paths(ps.drop_last(), source, node, outs) + (
        if ps.last().target == node {
            splice_results(ps.last(), source, outs)
        } else {
            seq![ps.last()]
        })
    }
}

/// The whole map after eliminating `node`: `node`'s entry is gone, every
/// other entry is rewritten by `eliminate_paths`, and entries whose
/// collection becomes empty are dropped.
pub open spec fn eliminate_map(g: PathsModel, node: u64) -> PathsModel {
    Map::new(
        |k: u64|
            g.dom().contains(k) && k != node && eliminate_paths(g[k], k, node, g[node]).len() > 0,
        |k: u64| eliminate_paths(g[k], k, node, g[node]),
    )
}

/// The association list after eliminating `node`, entry order kept.
pub open spec fn eliminate_entries(s: EntriesModel, node: u64, outs: Seq<PathModel>) -> EntriesModel
    decreases s.len(),
{
    if s.len() == 0 {
        Seq::empty()
    } else {
        let r = eliminate_entries(s.drop_last(), node, outs);
        let nps = eliminate_paths(s.last().1, s.last().0, node, outs);
        if nps.len() > 0 {
            r.push((s.last().0, nps))
        } else {
            r
        }
    }
}

/// The full node sequence a path of `source` walks: the source, the bridge,
/// the target.
pub open spec fn step_seq(source: u64, p: PathModel) -> Seq<u64> {
    seq![source] + p.bridge.push(p.target)
}

/// Every consecutive hop of the path is an edge of `es`.
pub open spec fn path_steps_ok(source: u64, p: PathModel, es: Set<(u64, u64)>) -> bool {
    forall|i: int|
        0 <= i < step_seq(source, p).len() - 1 ==> #[trigger] es.contains(
            (step_seq(source, p)[i], step_seq(source, p)[i + 1]),
        )
}

/// Every path of the graph walks only along edges of `es`.
pub open spec fn model_steps_ok(g: PathsModel, es: Set<(u64, u64)>) -> bool {
    forall|k: u64, j: int|
        g.dom().contains(k) && 0 <= j < g[k].len() ==> path_steps_ok(k, #[trigger] g[k][j], es)
}

/// The symmetric closure of an edge list.
pub open spec fn edge_pairs(edges: Seq<(u64, u64)>) -> Set<(u64, u64)> {
    Set::new(|e: (u64, u64)| edges.contains(e) || edges.contains((e.1, e.0)))
}

/// `q` came from `ps` when `node` was eliminated: either kept unchanged, or
/// the admitted splice of a path targeting `node` with one of `outs`.
pub open spec fn path_from(
    q: PathModel,
    ps: Seq<PathModel>,
    source: u64,
    node: u64,
    outs: Seq<PathModel>,
) -> bool {
    exists|i: int|
        0 <= i < ps.len() && (((#[trigger] ps[i]).target != node && q == ps[i]) || (ps[i].target
            == node && exists|l: int|
            0 <= l < outs.len() && concat_admitted(ps[i], source, #[trigger] outs[l]) && q
                == concat_model(ps[i], outs[l])))
}

pub proof fn lemma_splice_results_membership(p: PathModel, source: u64, outs: Seq<PathModel>)
    ensures
        forall|a: int| 0 <= a < splice_results(p, source, outs).len() ==> exists|l: int|
            0 <= l < outs.len() && concat_admitted(p, source, outs[l]) && (
            #[trigger] splice_results(p, source, outs)[a]) == concat_model(p, outs[l]),
    decreases outs.len(),
{
    if outs.len() > 0 {
        let od = outs.drop_last();
        lemma_splice_results_membership(p, source, od);
        let r = splice_results(p, source, outs);
        let rd = splice_results(p, source, od);
        assert(forall|l: int| 0 <= l < od.len() ==> od[l] == outs[l]);
        assert forall|a: int| 0 <= a < r.len() implies exists|l: int|
            0 <= l < outs.len() && concat_admitted(p, source, outs[l]) && (#[trigger] r[a])
                == concat_model(p, outs[l]) by {
            if a < rd.len() {
                let l = choose|l: int|
                    0 <= l < od.len() && concat_admitted(p, source, od[l]) && (#[trigger] rd[a])
                        == concat_model(p, od[l]);
                assert(concat_admitted(p, source, outs[l]) && r[a] == concat_model(p, outs[l]));
            } else {
                let l = outs.len() - 1;
                assert(concat_admitted(p, source, outs[l]) && r[a] == concat_model(p, outs[l]));
            }
        }
    }
}

pub proof fn lemma_eliminate_paths_membership(
    ps: Seq<PathModel>,
    source: u64,
    node: u64,
    outs: Seq<PathModel>,
)
    ensures
        forall|a: int| 0 <= a < eliminate_paths(ps, source, node, outs).len() ==> path_from(
            #[trigger] eliminate_paths(ps, source, node, outs)[a],
            ps,
            source,
            node,
            outs,
        ),
    decreases ps.len(),
{
    if ps.len() > 0 {
        let pd = ps.drop_last();
        lemma_eliminate_paths_membership(pd, source, node, outs);
        let r = eliminate_paths(ps, source, node, outs);
        let rd = eliminate_paths(pd, source, node, outs);
        assert(forall|i: int| 0 <= i < pd.len() ==> pd[i] == ps[i]);
        assert forall|a: int| 0 <= a < r.len() implies path_from(
            #[trigger] r[a],
            ps,
            source,
            node,
            outs,
        ) by {
            if a < rd.len() {
                assert(path_from(rd[a], pd, source, node, outs));
                let i = choose|i: int|
                    0 <= i < pd.len() && (((#[trigger] pd[i]).target != node && rd[a] == pd[i]) || (
                    pd[i].target == node && exists|l: int|
                        0 <= l < outs.len() && concat_admitted(pd[i], source, #[trigger] outs[l])
                            && rd[a] == concat_model(pd[i], outs[l])));
                assert(r[a] == rd[a]);
                assert(0 <= i < ps.len() && ((ps[i].target != node && r[a] == ps[i]) || (
                ps[i].target == node && exists|l: int|
                    0 <= l < outs.len() && concat_admitted(ps[i], source, #[trigger] outs[l]) && r[a]
                        == concat_model(ps[i], outs[l]))));
            } else {
                let i = ps.len() - 1;
                if ps[i].target == node {
                    lemma_splice_results_membership(ps[i], source, outs);
                    let sr = splice_results(ps[i], source, outs);
                    assert(r[a] == sr[a - rd.len()]);
                    let l = choose|l: int|
                        0 <= l < outs.len() && concat_admitted(ps[i], source, outs[l]) && (
                        #[trigger] sr[a - rd.len()]) == concat_model(ps[i], outs[l]);
                    assert(0 <= i < ps.len() && ps[i].target == node && concat_admitted(
                        ps[i],
                        source,
                        outs[l],
                    ) && r[a] == concat_model(ps[i], outs[l]));
                } else {
                    assert(r[a] == ps[i]);
                }
            }
        }
    }
}

/// A successful splice of two simple paths is itself simple, with respect
/// to any smaller live set that no longer holds the eliminated node.
pub proof fn lemma_splice_wf(
    p: PathModel,
    source: u64,
    q: PathModel,
    node: u64,
    live: Set<u64>,
    live2: Set<u64>,
)
    requires
        pv_wf(p, source, live),
        pv_wf(q, node, live),
        p.target == node,
        concat_admitted(p, source, q),
        live.contains(node),
        live.contains(source),
        source != node,
        forall|x: u64| live2.contains(x) ==> live.contains(x),
        !live2.contains(node),
    ensures
        pv_wf(concat_model(p, q), source, live2),
{
    let a = p.bridge;
    let t = p.target;
    let b = q.bridge;
    let at = a.push(t);
    let nb = spliced_bridge(a, t, b);
    assert(!a.contains(t));
    assert(at.no_duplicates());
    assert forall|i: int, j: int| 0 <= i < j < nb.len() implies nb[i] != nb[j] by {
        if j < at.len() {
            assert(at[i] != at[j]);
        } else {
            let j2 = j - at.len();
            assert(!(at + b.take(j2)).contains(b[j2]));
            if i < at.len() {
                assert((at + b.take(j2))[i] == nb[i]);
            } else {
                assert((at + b.take(j2))[i] == b[i - at.len()]);
                assert((at + b.take(j2))[i] == nb[i]);
            }
            assert((at + b.take(j2)).contains(nb[i]));
        }
    }
    assert(nb.no_duplicates());
    assert(!b.contains(source));
    assert forall|i: int| 0 <= i < nb.len() implies nb[i] != source by {
        if i < a.len() {
            if nb[i] == source {
                assert(a.contains(source));
            }
        } else if i > a.len() {
            if nb[i] == source {
                assert(b[i - at.len()] == source);
                assert(b.contains(source));
            }
        }
    }
    if nb.contains(source) {
        let i = choose|i: int| 0 <= i < nb.len() && nb[i] == source;
        assert(false);
    }
    assert forall|x: u64| nb.contains(x) implies !live2.contains(x) by {
        let i = choose|i: int| 0 <= i < nb.len() && nb[i] == x;
        if i < a.len() {
            assert(a.contains(x));
        } else if i > a.len() {
            assert(b.contains(x));
        }
    }
    if q.target == source {
        assert(nb.len() >= 2);
    }
}

/// Elimination preserves the path invariant: every collection of the
/// shrunken graph is simple with respect to the shrunken live set.
pub proof fn lemma_eliminate_map_wf(g: PathsModel, node: u64)
    requires
        model_wf(g),
        g.dom().contains(node),
    ensures
        model_wf(eliminate_map(g, node)),
{
    let em = eliminate_map(g, node);
    assert forall|k: u64, j: int| em.dom().contains(k) && 0 <= j < em[k].len() implies pv_wf(
        #[trigger] em[k][j],
        k,
        em.dom(),
    ) by {
        lemma_eliminate_paths_membership(g[k], k, node, g[node]);
        let q = em[k][j];
        assert(path_from(q, g[k], k, node, g[node]));
        let i = choose|i: int|
            0 <= i < g[k].len() && (((#[trigger] g[k][i]).target != node && q == g[k][i]) || (
            g[k][i].target == node && exists|l: int|
                0 <= l < g[node].len() && concat_admitted(g[k][i], k, #[trigger] g[node][l]) && q
                    == concat_model(g[k][i], g[node][l])));
        assert(pv_wf(g[k][i], k, g.dom()));
        assert(forall|x: u64| em.dom().contains(x) ==> g.dom().contains(x));
        if g[k][i].target == node && !(q == g[k][i] && g[k][i].target != node) {
            let l = choose|l: int|
                0 <= l < g[node].len() && concat_admitted(g[k][i], k, #[trigger] g[node][l]) && q
                    == concat_model(g[k][i], g[node][l]);
            assert(pv_wf(g[node][l], node, g.dom()));
            lemma_splice_wf(g[k][i], k, g[node][l], node, g.dom(), em.dom());
        }
    }
}

/// A spliced path walks only along hops of its two constituents.
pub proof fn lemma_splice_steps_ok(
    p: PathModel,
    source: u64,
    q: PathModel,
    node: u64,
    es: Set<(u64, u64)>,
)
    requires
        path_steps_ok(source, p, es),
        path_steps_ok(node, q, es),
        p.target == node,
    ensures
        path_steps_ok(source, concat_model(p, q), es),
{
    let s1 = step_seq(source, p);
    let s2 = step_seq(node, q);
    let s3 = step_seq(source, concat_model(p, q));
    assert(s3.len() == s1.len() + s2.len() - 1);
    assert forall|i: int| 0 <= i < s3.len() - 1 implies #[trigger] es.contains(
        (s3[i], s3[i + 1]),
    ) by {
        if i + 1 < s1.len() {
            assert(s3[i] == s1[i] && s3[i + 1] == s1[i + 1]);
            assert(es.contains((s1[i], s1[i + 1])));
        } else {
            let i2 = i - (s1.len() - 1);
            assert(s3[i] == s2[i2] && s3[i + 1] == s2[i2 + 1]);
            assert(es.contains((s2[i2], s2[i2 + 1])));
        }
    }
}

/// Elimination never walks a new edge: every path of the shrunken graph
/// still follows `es`.
pub proof fn lemma_eliminate_map_steps_ok(g: PathsModel, node: u64, es: Set<(u64, u64)>)
    requires
        model_steps_ok(g, es),
        g.dom().contains(node),
    ensures
        model_steps_ok(eliminate_map(g, node), es),
{
    let em = eliminate_map(g, node);
    assert forall|k: u64, j: int| em.dom().contains(k) && 0 <= j < em[k].len() implies path_steps_ok(
        k,
        #[trigger] em[k][j],
        es,
    ) by {
        lemma_eliminate_paths_membership(g[k], k, node, g[node]);
        let q = em[k][j];
        assert(path_from(q, g[k], k, node, g[node]));
        let i = choose|i: int|
            0 <= i < g[k].len() && (((#[trigger] g[k][i]).target != node && q == g[k][i]) || (
            g[k][i].target == node && exists|l: int|
                0 <= l < g[node].len() && concat_admitted(g[k][i], k, #[trigger] g[node][l]) && q
                    == concat_model(g[k][i], g[node][l])));
        assert(path_steps_ok(k, g[k][i], es));
        if g[k][i].target == node && !(q == g[k][i] && g[k][i].target != node) {
            let l = choose|l: int|
                0 <= l < g[node].len() && concat_admitted(g[k][i], k, #[trigger] g[node][l]) && q
                    == concat_model(g[k][i], g[node][l]);
            assert(path_steps_ok(node, g[node][l], es));
            lemma_splice_steps_ok(g[k][i], k, g[node][l], node, es);
        }
    }
}

/// The direct hops a graph records: the pairs (s, t) such that s's
/// collection holds an empty-bridge path to t.
pub open spec fn direct_rel(g: PathsModel) -> Set<(u64, u64)> {
    Set::new(
        |e: (u64, u64)|
            g.dom().contains(e.0) && exists|j: int|
                0 <= j < g[e.0].len() && (#[trigger] g[e.0][j]).bridge.len() == 0 && g[e.0][j].target
                    == e.1,
    )
}

/// The walk source → bridge → target is a simple path over `es`: no node
/// repeated, every hop an edge, and a closed walk has at least two interior
/// nodes.
pub open spec fn simple_path(source: u64, b: Seq<u64>, target: u64, es: Set<(u64, u64)>) -> bool {
    &&& b.no_duplicates()
    &&& !b.contains(source)
    &&& !b.contains(target)
    &&& (target == source ==> b.len() >= 2)
    &&& path_steps_ok(source, PathModel { bridge: b, target }, es)
}

/// Completeness invariant of elimination: every simple path over `es` whose
/// interior lies wholly in `dead` and whose endpoints are not dead is
/// recorded verbatim in its (still live) source's collection.
pub open spec fn paths_complete(g: PathsModel, es: Set<(u64, u64)>, dead: Set<u64>) -> bool {
    forall|s: u64, b: Seq<u64>, t: u64|
        #![trigger simple_path(s, b, t, es)]
        simple_path(s, b, t, es) && !dead.contains(s) && !dead.contains(t) && (forall|x: u64|
            b.contains(x) ==> dead.contains(x)) ==> g.dom().contains(s) && exists|j: int|
            0 <= j < g[s].len() && g[s][j] == (PathModel { bridge: b, target: t })
}

/// Any graph records its own direct hops: the invariant holds before any
/// elimination.
pub proof fn lemma_complete_base(g: PathsModel)
    ensures
        paths_complete(g, direct_rel(g), Set::empty()),
{
    let es = direct_rel(g);
    assert forall|s: u64, b: Seq<u64>, t: u64|
        simple_path(s, b, t, es) && !Set::<u64>::empty().contains(s) && !Set::<u64>::empty().contains(
            t,
        ) && (forall|x: u64| b.contains(x) ==> Set::<u64>::empty().contains(x)) implies g.dom().contains(
        s,
    ) && exists|j: int| 0 <= j < g[s].len() && g[s][j] == (PathModel { bridge: b, target: t }) by {
        assert(b.len() == 0) by {
            if b.len() > 0 {
                assert(b.contains(b[0]));
            }
        }
        let p = PathModel { bridge: b, target: t };
        let w = step_seq(s, p);
        assert(w.len() == 2);
        let z: int = 0;
        assert(es.contains((w[z], w[z + 1])));
        assert(w[z] == s && w[z + 1] == t);
        assert(es.contains((s, t)));
        let j = choose|j: int|
            0 <= j < g[s].len() && (#[trigger] g[s][j]).bridge.len() == 0 && g[s][j].target == t;
        assert(g[s][j].bridge =~= b);
        assert(g[s][j] =~= p);
    }
}

/// Extending the dead set by a node that is not in the graph keeps the
/// completeness invariant: no recorded path could run through it.
pub proof fn lemma_complete_dead_extend(g: PathsModel, es: Set<(u64, u64)>, dead: Set<u64>, x: u64)
    requires
        paths_complete(g, es, dead),
        !g.dom().contains(x),
        !dead.contains(x),
    ensures
        paths_complete(g, es, dead.insert(x)),
{
    let dead2 = dead.insert(x);
    assert forall|s: u64, b: Seq<u64>, t: u64|
        simple_path(s, b, t, es) && !dead2.contains(s) && !dead2.contains(t) && (forall|y: u64|
            b.contains(y) ==> dead2.contains(y)) implies g.dom().contains(s) && exists|j: int|
        0 <= j < g[s].len() && g[s][j] == (PathModel { bridge: b, target: t }) by {
        if b.contains(x) {
            // the suffix of the walk from x would still be recorded at x,
            // so x would be live: contradiction
            let r = choose|r: int| 0 <= r < b.len() && b[r] == x;
            lemma_simple_path_split(s, b, t, es, r);
            assert(simple_path(x, b.skip(r + 1), t, es));
            assert(forall|y: u64| b.skip(r + 1).contains(y) ==> b.contains(y));
            assert forall|y: u64| b.skip(r + 1).contains(y) implies dead.contains(y) by {
                let b2 = b.skip(r + 1);
                let a = choose|a: int| 0 <= a < b2.len() && #[trigger] b2[a] == y;
                assert(b[r + 1 + a] == y);
                assert(b.contains(y));
                assert(y != x);
                assert(dead2.contains(y));
            }
            assert(g.dom().contains(x));
            assert(false);
        } else {
            assert(forall|y: u64| b.contains(y) ==> dead.contains(y));
        }
    }
}

/// Splitting a simple path at an interior position yields two simple paths
/// meeting there.
pub proof fn lemma_simple_path_split(s: u64, b: Seq<u64>, t: u64, es: Set<(u64, u64)>, r: int)
    requires
        simple_path(s, b, t, es),
        0 <= r < b.len(),
    ensures
        simple_path(s, b.take(r), b[r], es),
        simple_path(b[r], b.skip(r + 1), t, es),
{
    let d = b[r];
    let b1 = b.take(r);
    let b2 = b.skip(r + 1);
    let w = step_seq(s, PathModel { bridge: b, target: t });
    let w1 = step_seq(s, PathModel { bridge: b1, target: d });
    let w2 = step_seq(d, PathModel { bridge: b2, target: t });
    assert(b1.no_duplicates());
    assert(b2.no_duplicates()) by {
        assert(forall|a: int| 0 <= a < b2.len() ==> b2[a] == b[r + 1 + a]);
    }
    assert(!b1.contains(s)) by {
        if b1.contains(s) {
            let a = choose|a: int| 0 <= a < b1.len() && b1[a] == s;
            assert(b.contains(s));
        }
    }
    assert(!b1.contains(d)) by {
        if b1.contains(d) {
            let a = choose|a: int| 0 <= a < b1.len() && b1[a] == d;
            assert(b[a] == b[r]);
        }
    }
    assert(!b2.contains(d)) by {
        if b2.contains(d) {
            let a = choose|a: int| 0 <= a < b2.len() && b2[a] == d;
            assert(b[r + 1 + a] == b[r]);
        }
    }
    assert(!b2.contains(t)) by {
        if b2.contains(t) {
            let a = choose|a: int| 0 <= a < b2.len() && b2[a] == t;
            assert(b.contains(t));
        }
    }
    assert(d != s && d != t) by {
        assert(b.contains(b[r]));
    }
    assert forall|i: int| 0 <= i < w1.len() - 1 implies #[trigger] es.contains(
        (w1[i], w1[i + 1]),
    ) by {
        assert(w1[i] == w[i] && w1[i + 1] == w[i + 1]);
        assert(es.contains((w[i], w[i + 1])));
    }
    assert forall|i: int| 0 <= i < w2.len() - 1 implies #[trigger] es.contains(
        (w2[i], w2[i + 1]),
    ) by {
        assert(w2[i] == w[r + 1 + i] && w2[i + 1] == w[r + 1 + i + 1]);
        assert(es.contains((w[r + 1 + i], w[r + 1 + i + 1])));
    }
}

/// A path not targeting the eliminated node survives elimination verbatim.
pub proof fn lemma_eliminate_keeps(
    ps: Seq<PathModel>,
    source: u64,
    node: u64,
    outs: Seq<PathModel>,
    j: int,
)
    requires
        0 <= j < ps.len(),
        ps[j].target != node,
    ensures
        exists|a: int|
            0 <= a < eliminate_paths(ps, source, node, outs).len() && eliminate_paths(
                ps,
                source,
                node,
                outs,
            )[a] == ps[j],
    decreases ps.len(),
{
    let r = eliminate_paths(ps, source, node, outs);
    let rd = eliminate_paths(ps.drop_last(), source, node, outs);
    if j == ps.len() - 1 {
        assert(r[rd.len() as int] == ps[j]);
    } else {
        assert(ps.drop_last()[j] == ps[j]);
        lemma_eliminate_keeps(ps.drop_last(), source, node, outs, j);
        let a = choose|a: int| 0 <= a < rd.len() && rd[a] == ps.drop_last()[j];
        assert(r[a] == rd[a]);
    }
}

/// An admitted splice with a given out-path appears among the splice
/// results.
pub proof fn lemma_splice_results_contains(
    p: PathModel,
    source: u64,
    outs: Seq<PathModel>,
    l: int,
)
    requires
        0 <= l < outs.len(),
        concat_admitted(p, source, outs[l]),
    ensures
        exists|a: int|
            0 <= a < splice_results(p, source, outs).len() && splice_results(p, source, outs)[a]
                == concat_model(p, outs[l]),
    decreases outs.len(),
{
    let r = splice_results(p, source, outs);
    let rd = splice_results(p, source, outs.drop_last());
    if l == outs.len() - 1 {
        assert(r[rd.len() as int] == concat_model(p, outs[l]));
    } else {
        assert(outs.drop_last()[l] == outs[l]);
        lemma_splice_results_contains(p, source, outs.drop_last(), l);
        let a = choose|a: int| 0 <= a < rd.len() && rd[a] == concat_model(p, outs.drop_last()[l]);
        assert(r[a] == rd[a]);
    }
}

/// The admitted splice of a path targeting the eliminated node appears in
/// the eliminated collection.
pub proof fn lemma_eliminate_contains_spliced(
    ps: Seq<PathModel>,
    source: u64,
    node: u64,
    outs: Seq<PathModel>,
    j: int,
    l: int,
)
    requires
        0 <= j < ps.len(),
        ps[j].target == node,
        0 <= l < outs.len(),
        concat_admitted(ps[j], source, outs[l]),
    ensures
        exists|a: int|
            0 <= a < eliminate_paths(ps, source, node, outs).len() && eliminate_paths(
                ps,
                source,
                node,
                outs,
            )[a] == concat_model(ps[j], outs[l]),
    decreases ps.len(),
{
    let r = eliminate_paths(ps, source, node, outs);
    let rd = eliminate_paths(ps.drop_last(), source, node, outs);
    if j == ps.len() - 1 {
        lemma_splice_results_contains(ps[j], source, outs, l);
        let sr = splice_results(ps[j], source, outs);
        let a = choose|a: int| 0 <= a < sr.len() && sr[a] == concat_model(ps[j], outs[l]);
        assert(r[rd.len() + a] == sr[a]);
    } else {
        assert(ps.drop_last()[j] == ps[j]);
        lemma_eliminate_contains_spliced(ps.drop_last(), source, node, outs, j, l);
        let a = choose|a: int|
            0 <= a < rd.len() && rd[a] == concat_model(ps.drop_last()[j], outs[l]);
        assert(r[a] == rd[a]);
    }
}

/// Elimination preserves the completeness invariant: a simple path whose
/// interior may now also use the eliminated node is still recorded, either
/// kept unchanged or as the splice of its two halves at that node.
pub proof fn lemma_eliminate_map_complete(
    g: PathsModel,
    node: u64,
    es: Set<(u64, u64)>,
    dead: Set<u64>,
)
    requires
        paths_complete(g, es, dead),
        g.dom().contains(node),
        !dead.contains(node),
    ensures
        paths_complete(eliminate_map(g, node), es, dead.insert(node)),
{
    let em = eliminate_map(g, node);
    let dead2 = dead.insert(node);
    assert forall|s: u64, b: Seq<u64>, t: u64|
        simple_path(s, b, t, es) && !dead2.contains(s) && !dead2.contains(t) && (forall|x: u64|
            b.contains(x) ==> dead2.contains(x)) implies em.dom().contains(s) && exists|j: int|
        0 <= j < em[s].len() && em[s][j] == (PathModel { bridge: b, target: t }) by {
        let p = PathModel { bridge: b, target: t };
        assert(s != node && t != node);
        if b.contains(node) {
            let r = choose|r: int| 0 <= r < b.len() && b[r] == node;
            lemma_simple_path_split(s, b, t, es, r);
            let b1 = b.take(r);
            let b2 = b.skip(r + 1);
            assert forall|y: u64| b1.contains(y) implies dead.contains(y) by {
                let a = choose|a: int| 0 <= a < b1.len() && #[trigger] b1[a] == y;
                assert(b[a] == y);
                assert(b.contains(y));
                assert(b[a] != b[r]);
                assert(dead2.contains(y));
            }
            assert forall|y: u64| b2.contains(y) implies dead.contains(y) by {
                let a = choose|a: int| 0 <= a < b2.len() && #[trigger] b2[a] == y;
                assert(b[r + 1 + a] == y);
                assert(b.contains(y));
                assert(b[r + 1 + a] != b[r]);
                assert(dead2.contains(y));
            }
            assert(simple_path(s, b1, node, es) && !dead.contains(s) && !dead.contains(node));
            assert(g.dom().contains(s));
            let j = choose|j: int|
                0 <= j < g[s].len() && g[s][j] == (PathModel { bridge: b1, target: node });
            assert(simple_path(node, b2, t, es) && !dead.contains(t));
            let l = choose|l: int|
                0 <= l < g[node].len() && g[node][l] == (PathModel { bridge: b2, target: t });
            let p1 = g[s][j];
            let p2 = g[node][l];
            assert(spliced_bridge(b1, node, b2) =~= b);
            assert(concat_admitted(p1, s, p2)) by {
                if p2.target == s && p1.bridge.len() == 0 && p2.bridge.len() == 0 {
                    assert(b.len() == 1);
                    assert(t == s);
                    assert(false);
                }
                assert forall|i: int| 0 <= i < p2.bridge.len() implies !(p1.bridge.push(p1.target)
                    + p2.bridge.take(i)).contains(#[trigger] p2.bridge[i]) by {
                    let pre = p1.bridge.push(p1.target) + p2.bridge.take(i);
                    assert(pre =~= b.take(r + 1 + i));
                    assert(p2.bridge[i] == b[r + 1 + i]);
                    if pre.contains(p2.bridge[i]) {
                        let a = choose|a: int| 0 <= a < pre.len() && pre[a] == p2.bridge[i];
                        assert(b[a] == b[r + 1 + i]);
                        assert(false);
                    }
                }
            }
            assert(concat_model(p1, p2) =~= p);
            lemma_eliminate_contains_spliced(g[s], s, node, g[node], j, l);
            assert(eliminate_paths(g[s], s, node, g[node]).len() > 0);
            assert(em.dom().contains(s));
            assert(em[s] == eliminate_paths(g[s], s, node, g[node]));
        } else {
            assert(forall|y: u64| b.contains(y) ==> dead.contains(y));
            assert(simple_path(s, b, t, es) && !dead.contains(s) && !dead.contains(t));
            assert(g.dom().contains(s));
            let j = choose|j: int| 0 <= j < g[s].len() && g[s][j] == p;
            assert(p.target != node);
            lemma_eliminate_keeps(g[s], s, node, g[node], j);
            assert(eliminate_paths(g[s], s, node, g[node]).len() > 0);
            assert(em.dom().contains(s));
            assert(em[s] == eliminate_paths(g[s], s, node, g[node]));
        }
    }
}

/// Each entry of the eliminated list is a faithful, nonempty rewrite of a
/// unique entry of the input, and key uniqueness is preserved.
pub proof fn lemma_eliminate_entries_content(s: EntriesModel, node: u64, outs: Seq<PathModel>)
    requires
        munique(s),
    ensures
        munique(eliminate_entries(s, node, outs)),
        forall|k: u64| #[trigger] mhas_key(eliminate_entries(s, node, outs), k) <==> exists|i: int|
            0 <= i < s.len() && (#[trigger] s[i]).0 == k && eliminate_paths(
                s[i].1,
                k,
                node,
                outs,
            ).len() > 0,
        forall|a: int| 0 <= a < eliminate_entries(s, node, outs).len() ==> exists|i: int|
            0 <= i < s.len() && (#[trigger] eliminate_entries(s, node, outs)[a]) == (
            s[i].0,
            eliminate_paths(s[i].1, s[i].0, node, outs),
            ) && eliminate_paths(s[i].1, s[i].0, node, outs).len() > 0,
    decreases s.len(),
{
    let r = eliminate_entries(s, node, outs);
    if s.len() > 0 {
        let sd = s.drop_last();
        assert(munique(sd)) by {
            assert(forall|a: int| 0 <= a < sd.len() ==> sd[a] == s[a]);
        }
        lemma_eliminate_entries_content(sd, node, outs);
        let rd = eliminate_entries(sd, node, outs);
        assert(forall|a: int| 0 <= a < sd.len() ==> sd[a] == s[a]);
        // faithfulness of the result entries
        assert forall|a: int| 0 <= a < r.len() implies exists|i: int|
            0 <= i < s.len() && (#[trigger] r[a]) == (
            s[i].0,
            eliminate_paths(s[i].1, s[i].0, node, outs),
            ) && eliminate_paths(s[i].1, s[i].0, node, outs).len() > 0 by {
            if a < rd.len() {
                let i = choose|i: int|
                    0 <= i < sd.len() && (#[trigger] rd[a]) == (
                    sd[i].0,
                    eliminate_paths(sd[i].1, sd[i].0, node, outs),
                    ) && eliminate_paths(sd[i].1, sd[i].0, node, outs).len() > 0;
                assert(r[a] == rd[a]);
                assert(r[a] == (s[i].0, eliminate_paths(s[i].1, s[i].0, node, outs)));
            } else {
                let i = s.len() - 1;
                assert(r[a] == (s[i].0, eliminate_paths(s[i].1, s[i].0, node, outs)));
            }
        }
        // key coverage
        assert forall|k: u64| #[trigger] mhas_key(r, k) <==> exists|i: int|
            0 <= i < s.len() && (#[trigger] s[i]).0 == k && eliminate_paths(
                s[i].1,
                k,
                node,
                outs,
            ).len() > 0 by {
            if mhas_key(r, k) {
                let a = choose|a: int| 0 <= a < r.len() && (#[trigger] r[a]).0 == k;
                if a < rd.len() {
                    assert(rd[a].0 == k);
                    assert(mhas_key(rd, k));
                    let i = choose|i: int|
                        0 <= i < sd.len() && (#[trigger] sd[i]).0 == k && eliminate_paths(
                            sd[i].1,
                            k,
                            node,
                            outs,
                        ).len() > 0;
                    assert((#[trigger] s[i]).0 == k && eliminate_paths(
                        s[i].1,
                        k,
                        node,
                        outs,
                    ).len() > 0);
                } else {
                    let i = s.len() - 1;
                    assert((#[trigger] s[i]).0 == k && eliminate_paths(
                        s[i].1,
                        k,
                        node,
                        outs,
                    ).len() > 0);
                }
            }
            if exists|i: int|
                0 <= i < s.len() && (#[trigger] s[i]).0 == k && eliminate_paths(
                    s[i].1,
                    k,
                    node,
                    outs,
                ).len() > 0 {
                let i = choose|i: int|
                    0 <= i < s.len() && (#[trigger] s[i]).0 == k && eliminate_paths(
                        s[i].1,
                        k,
                        node,
                        outs,
                    ).len() > 0;
                if i < s.len() - 1 {
                    assert((#[trigger] sd[i]).0 == k && eliminate_paths(
                        sd[i].1,
                        k,
                        node,
                        outs,
                    ).len() > 0);
                    assert(mhas_key(rd, k));
                    let a = choose|a: int| 0 <= a < rd.len() && (#[trigger] rd[a]).0 == k;
                    assert((#[trigger] r[a]).0 == k);
                } else {
                    assert((#[trigger] r[r.len() - 1]).0 == k);
                }
            }
        }
        // uniqueness
        assert forall|a: int, b: int| 0 <= a < b < r.len() implies (#[trigger] r[a]).0 != (
        #[trigger] r[b]).0 by {
            if b < rd.len() {
                assert(rd[a].0 != rd[b].0);
            } else {
                // b is the pushed last entry with key s.last().0
                assert(rd[a].0 == r[a].0);
                assert(mhas_key(rd, r[a].0));
                let i = choose|i: int|
                    0 <= i < sd.len() && (#[trigger] sd[i]).0 == r[a].0 && eliminate_paths(
                        sd[i].1,
                        r[a].0,
                        node,
                        outs,
                    ).len() > 0;
                assert(s[i].0 != s[s.len() - 1].0);
            }
        }
    }
}

pub proof fn lemma_add_direct_has(m: PathsModel, k: u64, t: u64)
    ensures
        has_direct(add_direct(m, k, t), k, t),
        forall|u: u64, v: u64| #[trigger] has_direct(m, u, v) ==> has_direct(add_direct(m, k, t), u, v),
{
    let m2 = add_direct(m, k, t);
    let prev = if m.dom().contains(k) {
        m[k]
    } else {
        Seq::<PathModel>::empty()
    };
    assert((#[trigger] m2[k][prev.len() as int]).target == t);
    assert forall|u: u64, v: u64| #[trigger] has_direct(m, u, v) implies has_direct(m2, u, v) by {
        let j = choose|j: int| 0 <= j < m[u].len() && (#[trigger] m[u][j]).target == v;
        assert((#[trigger] m2[u][j]).target == v);
    }
}

/// The construction invariant of the data model: every accepted edge (u, v)
/// leaves a direct path from u to v and a direct path from v to u in the
/// adjacency built from the whole list.
pub proof fn lemma_adjacency_symmetric(edges: Seq<(u64, u64)>)
    ensures
        forall|i: int|
            0 <= i < edges.len() ==> has_direct(adjacency(edges), (#[trigger] edges[i]).0, edges[i].1)
                && has_direct(adjacency(edges), edges[i].1, edges[i].0),
    decreases edges.len(),
{
    if edges.len() > 0 {
        let ed = edges.drop_last();
        let e = edges.last();
        lemma_adjacency_symmetric(ed);
        let m1 = add_direct(adjacency(ed), e.0, e.1);
        lemma_add_direct_has(adjacency(ed), e.0, e.1);
        lemma_add_direct_has(m1, e.1, e.0);
        assert forall|i: int| 0 <= i < edges.len() implies has_direct(
            adjacency(edges),
            (#[trigger] edges[i]).0,
            edges[i].1,
        ) && has_direct(adjacency(edges), edges[i].1, edges[i].0) by {
            if i < edges.len() - 1 {
                assert(ed[i] == edges[i]);
                assert(has_direct(adjacency(ed), edges[i].0, edges[i].1));
                assert(has_direct(adjacency(ed), edges[i].1, edges[i].0));
            } else {
                assert(has_direct(m1, e.0, e.1));
            }
        }
    }
}

/// No two paths of one node share a target.
pub open spec fn direct_targets_unique(m: PathsModel) -> bool {
    forall|k: u64, j1: int, j2: int|
        m.dom().contains(k) && 0 <= j1 < j2 < m[k].len() ==> (#[trigger] m[k][j1]).target != (
        #[trigger] m[k][j2]).target
}

/// What `add_direct` makes directly connected: exactly the old connections
/// plus the one new hop.
pub proof fn lemma_add_direct_char(m: PathsModel, k: u64, t: u64)
    ensures
        forall|x: u64, y: u64| #[trigger]
            has_direct(add_direct(m, k, t), x, y) <==> (has_direct(m, x, y) || (x == k && y == t)),
{
    let m2 = add_direct(m, k, t);
    let prev = if m.dom().contains(k) {
        m[k]
    } else {
        Seq::<PathModel>::empty()
    };
    assert forall|x: u64, y: u64| #[trigger] has_direct(m2, x, y) <==> (has_direct(m, x, y) || (x
        == k && y == t)) by {
        if has_direct(m2, x, y) {
            let j = choose|j: int| 0 <= j < m2[x].len() && (#[trigger] m2[x][j]).target == y;
            if x == k {
                if j < prev.len() {
                    assert((#[trigger] m[x][j]).target == y);
                } else {
                    assert(y == t);
                }
            } else {
                assert((#[trigger] m[x][j]).target == y);
            }
        }
        if has_direct(m, x, y) {
            let j = choose|j: int| 0 <= j < m[x].len() && (#[trigger] m[x][j]).target == y;
            assert((#[trigger] m2[x][j]).target == y);
        }
        if x == k && y == t {
            assert((#[trigger] m2[k][prev.len() as int]).target == t);
        }
    }
}

/// The construction invariant of an admitted edge list: direct connection
/// is symmetric, and no node holds two direct paths to the same neighbor.
pub proof fn lemma_adjacency_no_parallel(edges: Seq<(u64, u64)>)
    requires
        edges_admitted(edges),
    ensures
        direct_targets_unique(adjacency(edges)),
        forall|u: u64, v: u64| #[trigger]
            has_direct(adjacency(edges), u, v) <==> has_direct(adjacency(edges), v, u),
    decreases edges.len(),
{
    if edges.len() > 0 {
        let ed = edges.drop_last();
        let e = edges.last();
        let m = adjacency(ed);
        lemma_adjacency_no_parallel(ed);
        let m1 = add_direct(m, e.0, e.1);
        let m2 = add_direct(m1, e.1, e.0);
        lemma_add_direct_char(m, e.0, e.1);
        lemma_add_direct_char(m1, e.1, e.0);
        assert(!has_direct(m, e.0, e.1));
        assert(!has_direct(m, e.1, e.0));
        let prev0 = if m.dom().contains(e.0) {
            m[e.0]
        } else {
            Seq::<PathModel>::empty()
        };
        let prev1 = if m1.dom().contains(e.1) {
            m1[e.1]
        } else {
            Seq::<PathModel>::empty()
        };
        assert forall|k: u64, j1: int, j2: int|
            m2.dom().contains(k) && 0 <= j1 < j2 < m2[k].len() implies (
        #[trigger] m2[k][j1]).target != (#[trigger] m2[k][j2]).target by {
            if k == e.1 {
                // the new last entry is the fresh path to e.0
                if j2 < prev1.len() {
                    assert(e.0 != e.1);
                    assert(m1[e.1] == if m.dom().contains(e.1) {
                        m[e.1]
                    } else {
                        Seq::<PathModel>::empty()
                    });
                    assert(m[e.1][j1].target != m[e.1][j2].target);
                } else {
                    assert(m2[k][j2].target == e.0);
                    if j1 < prev1.len() {
                        assert(m1[e.1][j1] == m2[k][j1]);
                        if m2[k][j1].target == e.0 {
                            assert((#[trigger] m1[e.1][j1]).target == e.0);
                            assert(has_direct(m1, e.1, e.0));
                        }
                    }
                }
            } else if k == e.0 {
                assert(m2[e.0] == m1[e.0]);
                if j2 < prev0.len() {
                    assert(m[e.0][j1].target != m[e.0][j2].target);
                } else {
                    assert(m2[k][j2].target == e.1);
                    if j1 < prev0.len() {
                        if m2[k][j1].target == e.1 {
                            assert((#[trigger] m[e.0][j1]).target == e.1);
                            assert(has_direct(m, e.0, e.1));
                        }
                    }
                }
            } else {
                assert(m2[k] == m[k]);
                assert(m[k][j1].target != m[k][j2].target);
            }
        }
    }
}

/// Every path of a freshly built adjacency is direct: its bridge is empty.
pub proof fn lemma_adjacency_bridges_empty(edges: Seq<(u64, u64)>)
    ensures
        forall|k: u64, j: int|
            adjacency(edges).dom().contains(k) && 0 <= j < adjacency(edges)[k].len() ==> (
            #[trigger] adjacency(edges)[k][j]).bridge.len() == 0,
    decreases edges.len(),
{
    if edges.len() > 0 {
        let ed = edges.drop_last();
        let e = edges.last();
        lemma_adjacency_bridges_empty(ed);
        let m = adjacency(ed);
        let m1 = add_direct(m, e.0, e.1);
        let m2 = add_direct(m1, e.1, e.0);
        assert forall|k: u64, j: int|
            m1.dom().contains(k) && 0 <= j < m1[k].len() implies (
        #[trigger] m1[k][j]).bridge.len() == 0 by {
            if k == e.0 && j == m1[k].len() - 1 {
            } else {
                assert(m1[k][j] == m[k][j]);
            }
        }
        assert forall|k: u64, j: int|
            m2.dom().contains(k) && 0 <= j < m2[k].len() implies (
        #[trigger] m2[k][j]).bridge.len() == 0 by {
            if k == e.1 && j == m2[k].len() - 1 {
            } else {
                assert(m2[k][j] == m1[k][j]);
            }
        }
    }
}

/// The direct hops of a freshly built adjacency are exactly the input edges
/// and their reversals.
pub proof fn lemma_direct_rel_adjacency(edges: Seq<(u64, u64)>)
    ensures
        direct_rel(adjacency(edges)) == edge_pairs(edges),
{
    let m = adjacency(edges);
    lemma_adjacency_bridges_empty(edges);
    lemma_adjacency_steps(edges);
    lemma_adjacency_symmetric(edges);
    assert forall|e: (u64, u64)| #[trigger] direct_rel(m).contains(e) implies edge_pairs(
        edges,
    ).contains(e) by {
        let j = choose|j: int|
            0 <= j < m[e.0].len() && (#[trigger] m[e.0][j]).bridge.len() == 0 && m[e.0][j].target
                == e.1;
        assert(path_steps_ok(e.0, m[e.0][j], edge_pairs(edges)));
        let w = step_seq(e.0, m[e.0][j]);
        assert(w.len() == 2);
        let z: int = 0;
        assert(edge_pairs(edges).contains((w[z], w[z + 1])));
        assert(w[z] == e.0 && w[z + 1] == e.1);
    }
    assert forall|e: (u64, u64)| #[trigger] edge_pairs(edges).contains(e) implies direct_rel(
        m,
    ).contains(e) by {
        if edges.contains(e) {
            let i = choose|i: int| 0 <= i < edges.len() && edges[i] == e;
            assert(has_direct(m, (#[trigger] edges[i]).0, edges[i].1));
        } else {
            let i = choose|i: int| 0 <= i < edges.len() && edges[i] == (e.1, e.0);
            assert(has_direct(m, (#[trigger] edges[i]).1, edges[i].0));
        }
        assert(has_direct(m, e.0, e.1));
        let j = choose|j: int| 0 <= j < m[e.0].len() && (#[trigger] m[e.0][j]).target == e.1;
        assert(m[e.0][j].bridge.len() == 0);
    }
    assert(direct_rel(m) =~= edge_pairs(edges));
}

/// Adding a direct path whose hop is in `es` keeps every path on `es`.
pub proof fn lemma_add_direct_steps(m: PathsModel, k: u64, t: u64, es: Set<(u64, u64)>)
    requires
        model_steps_ok(m, es),
        es.contains((k, t)),
    ensures
        model_steps_ok(add_direct(m, k, t), es),
{
    let m2 = add_direct(m, k, t);
    let d = PathModel { bridge: Seq::empty(), target: t };
    assert(path_steps_ok(k, d, es)) by {
        let s = step_seq(k, d);
        assert(s.len() == 2);
        assert forall|i: int| 0 <= i < s.len() - 1 implies #[trigger] es.contains(
            (s[i], s[i + 1]),
        ) by {
            assert(s[0] == k && s[1] == t);
        }
    }
    assert forall|k2: u64, j: int| m2.dom().contains(k2) && 0 <= j < m2[k2].len() implies path_steps_ok(
        k2,
        #[trigger] m2[k2][j],
        es,
    ) by {
        if k2 == k {
            if j < m2[k].len() - 1 {
                assert(m.dom().contains(k) && m2[k][j] == m[k][j]);
            } else {
                assert(m2[k][j] == d);
            }
        } else {
            assert(m2[k2][j] == m[k2][j]);
        }
    }
}

/// Every path of the freshly built adjacency walks a single input edge, in
/// one direction or the other.
pub proof fn lemma_adjacency_steps(edges: Seq<(u64, u64)>)
    ensures
        model_steps_ok(adjacency(edges), edge_pairs(edges)),
    decreases edges.len(),
{
    if edges.len() > 0 {
        let ed = edges.drop_last();
        lemma_adjacency_steps(ed);
        let e = edges.last();
        assert(model_steps_ok(adjacency(ed), edge_pairs(edges))) by {
            assert forall|x: (u64, u64)| edge_pairs(ed).contains(x) implies edge_pairs(
                edges,
            ).contains(x) by {
                if ed.contains(x) {
                    let i = choose|i: int| 0 <= i < ed.len() && ed[i] == x;
                    assert(edges[i] == x);
                } else {
                    let i = choose|i: int| 0 <= i < ed.len() && ed[i] == (x.1, x.0);
                    assert(edges[i] == (x.1, x.0));
                }
            }
            assert forall|k: u64, j: int|
                adjacency(ed).dom().contains(k) && 0 <= j < adjacency(ed)[k].len() implies path_steps_ok(
                k,
                #[trigger] adjacency(ed)[k][j],
                edge_pairs(edges),
            ) by {
                assert(path_steps_ok(k, adjacency(ed)[k][j], edge_pairs(ed)));
            }
        }
        assert(edges.contains(e)) by {
            assert(edges[edges.len() - 1] == e);
        }
        assert(edge_pairs(edges).contains((e.0, e.1)));
        assert(edge_pairs(edges).contains((e.1, e.0)));
        lemma_add_direct_steps(adjacency(ed), e.0, e.1, edge_pairs(edges));
        lemma_add_direct_steps(add_direct(adjacency(ed), e.0, e.1), e.1, e.0, edge_pairs(edges));
    }
}

/// A graph whose entries hold only direct paths to other nodes satisfies
/// the path invariant.
pub proof fn lemma_direct_model_wf(entries: Vec<(u64, Vec<Path>)>)
    requires
        munique(entries_model(entries@)),
        direct_entries(entries@),
    ensures
        model_wf(model_map(entries_model(entries@))),
{
    let s = entries_model(entries@);
    let m = model_map(s);
    lemma_model_map_covers(s);
    assert forall|k: u64, j: int|
        m.dom().contains(k) && 0 <= j < m[k].len() implies pv_wf(#[trigger] m[k][j], k, m.dom()) by {
        let i = choose|i: int| 0 <= i < s.len() && (#[trigger] s[i]).0 == k;
        lemma_model_map_index(s, i);
        assert(m[k][j] == paths_model(entries@[i].1@)[j]);
        assert(entries@[i].1@[j].bridge@.len() == 0 && entries@[i].1@[j].target != k);
    }
}

} // verus!
