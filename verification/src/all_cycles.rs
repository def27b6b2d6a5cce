use vstd::prelude::*;

use crate::cycle::{
    canonical, lemma_canonical_rotation_invariant, lemma_rotated_index, rotated,
};
use crate::graph::{
    direct_rel, lemma_complete_base, lemma_complete_dead_extend, lemma_eliminate_map_complete,
    model_steps_ok, path_steps_ok, paths_complete, paths_model, pv_wf, simple_path, step_seq,
    Graph,
};
use crate::path::PathModel;

verus! {

/// `c` is an elementary cycle over the edges `es`: at least three distinct
/// nodes, every consecutive hop an edge, and the last node joined back to
/// the first.
pub open spec fn cycle_ok(c: Seq<u64>, es: Set<(u64, u64)>) -> bool {
    &&& c.len() >= 3
    &&& c.no_duplicates()
    &&& forall|i: int| 0 <= i < c.len() - 1 ==> #[trigger] es.contains((c[i], c[i + 1]))
    &&& es.contains((c[c.len() - 1], c[0]))
}

/// A cyclic rotation of an elementary cycle is an elementary cycle of the
/// same edges.
pub proof fn lemma_cycle_rotate(c: Seq<u64>, es: Set<(u64, u64)>, m: int)
    requires
        cycle_ok(c, es),
        0 <= m < c.len(),
    ensures
        cycle_ok(rotated(c, m), es),
{
    let n = c.len() as int;
    lemma_rotated_index(c, m);
    let w = rotated(c, m);
    assert forall|x: int, y: int| 0 <= x < n && 0 <= y < n && x != y implies w[x] != w[y] by {
        let a = if x + m < n {
            x + m
        } else {
            x + m - n
        };
        let d = if y + m < n {
            y + m
        } else {
            y + m - n
        };
        assert(w[x] == c[a] && w[y] == c[d]);
        assert(c[a] != c[d]);
    }
    assert(w.no_duplicates());
    assert forall|i: int| 0 <= i < n - 1 implies #[trigger] es.contains((w[i], w[i + 1])) by {
        let a = if i + m < n {
            i + m
        } else {
            i + m - n
        };
        assert(w[i] == c[a]);
        if a < n - 1 {
            assert(w[i + 1] == c[a + 1]);
            assert(es.contains((c[a], c[a + 1])));
        } else {
            assert(w[i + 1] == c[0]);
        }
    }
    if m == 0 {
        assert(w[n - 1] == c[n - 1] && w[0] == c[0]);
    } else {
        assert(w[n - 1] == c[m - 1] && w[0] == c[m]);
        assert(es.contains((c[m - 1], c[m - 1 + 1])));
    }
}

/// Re-rooting an elementary cycle at one of its nodes yields the
/// self-referential simple path that elimination must eventually record
/// there, and materializing that path gives a rotation of the cycle.
pub proof fn lemma_cycle_key_path(c: Seq<u64>, es: Set<(u64, u64)>, m: int)
    requires
        cycle_ok(c, es),
        0 <= m < c.len(),
    ensures
        simple_path(c[m], rotated(c, m).skip(1), c[m], es),
        rotated(c, m).skip(1).push(c[m]) == rotated(
            c,
            if m + 1 < c.len() {
                m + 1
            } else {
                0
            },
        ),
        forall|y: u64| #[trigger]
            rotated(c, m).skip(1).contains(y) ==> c.contains(y) && y != c[m],
{
    let n = c.len() as int;
    lemma_cycle_rotate(c, es, m);
    lemma_rotated_index(c, m);
    let w = rotated(c, m);
    let bb = w.skip(1);
    assert(w[0] == c[m]);
    assert(bb.len() == n - 1);
    assert(forall|a: int| 0 <= a < bb.len() ==> bb[a] == w[a + 1]);
    assert forall|x: int, y: int| 0 <= x < bb.len() && 0 <= y < bb.len() && x != y implies bb[x]
        != bb[y] by {
        assert(w[x + 1] != w[y + 1]);
    }
    assert(bb.no_duplicates());
    assert forall|y: u64| #[trigger] bb.contains(y) implies c.contains(y) && y != c[m] by {
        let a = choose|a: int| 0 <= a < bb.len() && bb[a] == y;
        assert(w[a + 1] == y);
        assert(w[a + 1] != w[0]);
        let d = if a + 1 + m < n {
            a + 1 + m
        } else {
            a + 1 + m - n
        };
        assert(w[a + 1] == c[d]);
        assert(c.contains(y));
    }
    assert(!bb.contains(c[m]));
    let p = PathModel { bridge: bb, target: c[m] };
    let sq = step_seq(c[m], p);
    assert(sq.len() == n + 1);
    assert forall|i: int| 0 <= i < sq.len() - 1 implies #[trigger] es.contains(
        (sq[i], sq[i + 1]),
    ) by {
        assert(sq[i] == w[i]);
        if i < n - 1 {
            assert(sq[i + 1] == w[i + 1]);
            assert(es.contains((w[i], w[i + 1])));
        } else {
            assert(sq[i + 1] == c[m]);
            assert(es.contains((w[n - 1], w[0])));
        }
    }
    let m2: int = if m + 1 < n {
        m + 1
    } else {
        0
    };
    lemma_rotated_index(c, m2);
    assert(bb.push(c[m]) =~= rotated(c, m2)) by {
        assert forall|i: int| 0 <= i < n implies bb.push(c[m])[i] == rotated(c, m2)[i] by {
            if i < n - 1 {
                assert(bb.push(c[m])[i] == w[i + 1]);
                let d = if i + 1 + m < n {
                    i + 1 + m
                } else {
                    i + 1 + m - n
                };
                assert(w[i + 1] == c[d]);
                assert(rotated(c, m2)[i] == c[if i + m2 < n {
                    i + m2
                } else {
                    i + m2 - n
                }]);
            } else {
                assert(bb.push(c[m])[i] == c[m]);
                assert(rotated(c, m2)[i] == c[if i + m2 < n {
                    i + m2
                } else {
                    i + m2 - n
                }]);
            }
        }
    }
}

/// Eliminates every node of `graph` exactly once, collecting each
/// self-referential path that surfaces as a literal elementary cycle (its
/// bridge followed by the closing node). The graph is consumed; the raw
/// cycles are neither canonicalized nor deduplicated, so the same cycle may
/// surface twice, once per traversal direction.
///
/// Soundness: every returned sequence is an elementary cycle over any edge
/// set the graph's paths respect. Completeness: every elementary cycle over
/// the graph's own direct hops is returned, up to rotation and traversal
/// direction (witnessed through `canonical`).
pub fn all_cycles(graph: Graph) -> (r: Vec<Vec<u64>>)
    requires
        graph.wf(),
    ensures
        forall|i: int|
            0 <= i < r@.len() ==> (#[trigger] r@[i])@.len() >= 3 && r@[i]@.no_duplicates(),
        forall|es: Set<(u64, u64)>, i: int|
            #![trigger model_steps_ok(graph@, es), r@[i]]
            model_steps_ok(graph@, es) && 0 <= i < r@.len() ==> cycle_ok(r@[i]@, es),
        forall|c: Seq<u64>|
            #[trigger] cycle_ok(c, direct_rel(graph@)) ==> exists|i: int|
                0 <= i < r@.len() && canonical(r@[i]@) == canonical(c),
{
    let ghost g0 = graph@;
    let ghost es = direct_rel(g0);
    let mut graph = graph;
    let mut result: Vec<Vec<u64>> = Vec::new();
    let keys = graph.keys();
    proof {
        lemma_complete_base(g0);
    }
    let ghost mut dead: Set<u64> = Set::empty();
    proof {
        assert forall|c: Seq<u64>|
            #[trigger] cycle_ok(c, es) && (forall|x: u64|
                c.contains(x) ==> dead.contains(x)) implies exists|a: int|
            0 <= a < result@.len() && canonical(result@[a]@) == canonical(c) by {
            assert(c.contains(c[0]));
            assert(false);
        }
    }
    let mut i: usize = 0;
    while i < keys.len()
        invariant
            0 <= i <= keys@.len(),
            graph.wf(),
            keys@.no_duplicates(),
            forall|x: u64| keys@.contains(x) <==> g0.dom().contains(x),
            es == direct_rel(g0),
            forall|x: u64| #[trigger]
                dead.contains(x) <==> exists|j: int| 0 <= j < i && keys@[j] == x,
            paths_complete(graph@, es, dead),
            forall|es2: Set<(u64, u64)>|
                #[trigger] model_steps_ok(g0, es2) ==> model_steps_ok(graph@, es2),
            forall|a: int|
                0 <= a < result@.len() ==> (#[trigger] result@[a])@.len() >= 3
                    && result@[a]@.no_duplicates(),
            forall|es2: Set<(u64, u64)>, a: int|
                #![trigger model_steps_ok(g0, es2), result@[a]]
                model_steps_ok(g0, es2) && 0 <= a < result@.len() ==> cycle_ok(result@[a]@, es2),
            forall|c: Seq<u64>|
                #[trigger] cycle_ok(c, es) && (forall|x: u64| c.contains(x) ==> dead.contains(x))
                    ==> exists|a: int|
                    0 <= a < result@.len() && canonical(result@[a]@) == canonical(c),
        decreases keys@.len() - i,
    {
        let key = keys[i];
        proof {
            assert(!dead.contains(key)) by {
                if dead.contains(key) {
                    let j = choose|j: int| 0 <= j < i && keys@[j] == key;
                    assert(keys@[j] == keys@[i as int]);
                }
            }
        }
        let ghost pre = graph@;
        let ghost dead0 = dead;
        match graph.remove(&key) {
            None => {
                proof {
                    lemma_complete_dead_extend(pre, es, dead0, key);
                    dead = dead0.insert(key);
                    assert forall|c: Seq<u64>|
                        #[trigger] cycle_ok(c, es) && (forall|x: u64|
                            c.contains(x) ==> dead.contains(x)) implies exists|a: int|
                        0 <= a < result@.len() && canonical(result@[a]@) == canonical(c) by {
                        if c.contains(key) {
                            // completeness would keep a node with a cycle live
                            let m = choose|m: int| 0 <= m < c.len() && c[m] == key;
                            lemma_cycle_key_path(c, es, m);
                            let bb = rotated(c, m).skip(1);
                            assert forall|y: u64| bb.contains(y) implies dead0.contains(y) by {
                                assert(c.contains(y) && y != key);
                                assert(dead.contains(y));
                            }
                            assert(simple_path(key, bb, key, es) && !dead0.contains(key));
                            assert(pre.dom().contains(key));
                            assert(false);
                        } else {
                            assert(forall|x: u64| c.contains(x) ==> dead0.contains(x));
                        }
                    }
                }
            },
            Some(mut paths) => {
                let ghost pv0 = paths@;
                proof {
                    assert(paths_model(pv0) == pre[key]);
                    assert forall|j: int| 0 <= j < paths@.len() implies pv_wf(
                        (#[trigger] paths@[j])@,
                        key,
                        pre.dom(),
                    ) by {
                        assert(pre[key][j] == paths@[j]@);
                    }
                    assert forall|es2: Set<(u64, u64)>, j: int|
                        #![trigger model_steps_ok(g0, es2), paths@[j]]
                        model_steps_ok(g0, es2) && 0 <= j < paths@.len() implies path_steps_ok(
                        key,
                        paths@[j]@,
                        es2,
                    ) by {
                        assert(model_steps_ok(pre, es2));
                        assert(pre[key][j] == paths@[j]@);
                        assert(path_steps_ok(key, pre[key][j], es2));
                    }
                }
                while paths.len() > 0
                    invariant
                        paths@.len() <= pv0.len(),
                        paths@ == pv0.skip(pv0.len() - paths@.len()),
                        forall|j: int|
                            0 <= j < paths@.len() ==> pv_wf(
                                (#[trigger] paths@[j])@,
                                key,
                                pre.dom(),
                            ),
                        forall|es2: Set<(u64, u64)>, j: int|
                            #![trigger model_steps_ok(g0, es2), paths@[j]]
                            model_steps_ok(g0, es2) && 0 <= j < paths@.len() ==> path_steps_ok(
                                key,
                                paths@[j]@,
                                es2,
                            ),
                        forall|j: int|
                            0 <= j < pv0.len() - paths@.len() ==> ((#[trigger] pv0[j]).target
                                == key ==> exists|a: int|
                                0 <= a < result@.len() && result@[a]@ == pv0[j].bridge@.push(key)),
                        forall|a: int|
                            0 <= a < result@.len() ==> (#[trigger] result@[a])@.len() >= 3
                                && result@[a]@.no_duplicates(),
                        forall|es2: Set<(u64, u64)>, a: int|
                            #![trigger model_steps_ok(g0, es2), result@[a]]
                            model_steps_ok(g0, es2) && 0 <= a < result@.len() ==> cycle_ok(
                                result@[a]@,
                                es2,
                            ),
                        forall|c: Seq<u64>|
                            #[trigger] cycle_ok(c, es) && (forall|x: u64|
                                c.contains(x) ==> dead0.contains(x)) ==> exists|a: int|
                                0 <= a < result@.len() && canonical(result@[a]@) == canonical(c),
                    decreases paths@.len(),
                {
                    let ghost u = pv0.len() - paths@.len();
                    let ghost pv = paths@;
                    let p = paths.remove(0);
                    proof {
                        assert(pv == pv0.skip(u));
                        assert(p == pv[0]);
                        assert(pv0.skip(u)[0] == pv0[u]);
                        assert(forall|j: int| 0 <= j < paths@.len() ==> paths@[j] == pv[j + 1]);
                        assert(paths@ =~= pv0.skip(u + 1));
                    }
                    if p.target == key {
                        proof {
                            let b = p.bridge@;
                            let c = b.push(p.target);
                            assert(pv_wf(p@, key, pre.dom()));
                            assert(c.len() >= 3);
                            assert forall|x: int, y: int| 0 <= x < y < c.len() implies c[x]
                                != c[y] by {
                                if y < b.len() {
                                    assert(b[x] != b[y]);
                                } else {
                                    if c[x] == key {
                                        assert(b.contains(key));
                                    }
                                }
                            }
                            assert(c.no_duplicates());
                            assert forall|es2: Set<(u64, u64)>| #[trigger] model_steps_ok(
                                g0,
                                es2,
                            ) implies cycle_ok(c, es2) by {
                                assert(path_steps_ok(key, p@, es2));
                                let s = step_seq(key, p@);
                                assert(s.len() == b.len() + 2);
                                assert forall|x: int| 0 <= x < c.len() - 1 implies
                                    #[trigger] es2.contains((c[x], c[x + 1])) by {
                                    assert(s[x + 1] == c[x] && s[x + 2] == c[x + 1]);
                                    assert(es2.contains((s[x + 1], s[x + 1 + 1])));
                                }
                                let z: int = 0;
                                assert(s[z] == key && s[z + 1] == b[0]);
                                assert(c[c.len() - 1] == key && c[0] == b[0]);
                                assert(es2.contains((s[z], s[z + 1])));
                            }
                        }
                        let ghost res0 = result@;
                        let c = p.to_sequence();
                        result.push(c);
                        proof {
                            assert(result@[result@.len() - 1]@ == pv0[u].bridge@.push(key));
                            assert forall|j: int| 0 <= j < pv0.len() - paths@.len() implies ((
                            #[trigger] pv0[j]).target == key ==> exists|a: int|
                                0 <= a < result@.len() && result@[a]@ == pv0[j].bridge@.push(
                                    key,
                                )) by {
                                if j < u && pv0[j].target == key {
                                    let a = choose|a: int|
                                        0 <= a < res0.len() && res0[a]@ == pv0[j].bridge@.push(key);
                                    assert(result@[a]@ == pv0[j].bridge@.push(key));
                                }
                            }
                            assert forall|c2: Seq<u64>|
                                #[trigger] cycle_ok(c2, es) && (forall|x: u64|
                                    c2.contains(x) ==> dead0.contains(x)) implies exists|a: int|
                                0 <= a < result@.len() && canonical(result@[a]@) == canonical(
                                    c2,
                                ) by {
                                let a = choose|a: int|
                                    0 <= a < res0.len() && canonical(res0[a]@) == canonical(c2);
                                assert(result@[a]@ == res0[a]@);
                            }
                        }
                    } else {
                        proof {
                            assert(pv0[u].target != key);
                            assert forall|j: int| 0 <= j < pv0.len() - paths@.len() implies ((
                            #[trigger] pv0[j]).target == key ==> exists|a: int|
                                0 <= a < result@.len() && result@[a]@ == pv0[j].bridge@.push(
                                    key,
                                )) by {}
                        }
                    }
                }
                proof {
                    assert(pv0.len() - paths@.len() == pv0.len());
                    lemma_eliminate_map_complete(pre, key, es, dead0);
                    dead = dead0.insert(key);
                    assert(paths_complete(graph@, es, dead));
                    assert forall|c: Seq<u64>|
                        #[trigger] cycle_ok(c, es) && (forall|x: u64|
                            c.contains(x) ==> dead.contains(x)) implies exists|a: int|
                        0 <= a < result@.len() && canonical(result@[a]@) == canonical(c) by {
                        if c.contains(key) {
                            let m = choose|m: int| 0 <= m < c.len() && c[m] == key;
                            lemma_cycle_key_path(c, es, m);
                            let bb = rotated(c, m).skip(1);
                            assert forall|y: u64| bb.contains(y) implies dead0.contains(y) by {
                                assert(c.contains(y) && y != key);
                                assert(dead.contains(y));
                            }
                            assert(simple_path(key, bb, key, es) && !dead0.contains(key));
                            assert(pre.dom().contains(key));
                            let j = choose|j: int|
                                0 <= j < pre[key].len() && pre[key][j] == (PathModel {
                                    bridge: bb,
                                    target: key,
                                });
                            assert(paths_model(pv0)[j] == pre[key][j]);
                            assert(pv0[j]@ == (PathModel { bridge: bb, target: key }));
                            assert(pv0[j].target == key && pv0[j].bridge@ == bb);
                            let a = choose|a: int|
                                0 <= a < result@.len() && result@[a]@ == pv0[j].bridge@.push(key);
                            let m2: int = if m + 1 < c.len() {
                                m + 1
                            } else {
                                0
                            };
                            assert(result@[a]@ == rotated(c, m2));
                            lemma_canonical_rotation_invariant(c, m2);
                            assert(canonical(result@[a]@) == canonical(c));
                        } else {
                            assert(forall|x: u64| c.contains(x) ==> dead0.contains(x));
                        }
                    }
                }
            },
        }
        i += 1;
        proof {
            assert forall|x: u64| #[trigger] dead.contains(x) <==> exists|j: int|
                0 <= j < i && keys@[j] == x by {
                if dead.contains(x) {
                    if x == key {
                        assert(keys@[i - 1] == x);
                    } else {
                        assert(dead0.contains(x));
                        let j = choose|j: int| 0 <= j < i - 1 && keys@[j] == x;
                        assert(0 <= j < i && keys@[j] == x);
                    }
                }
                if exists|j: int| 0 <= j < i && keys@[j] == x {
                    let j = choose|j: int| 0 <= j < i && keys@[j] == x;
                    if j < i - 1 {
                        assert(dead0.contains(x));
                    } else {
                        assert(x == key);
                    }
                }
            }
        }
    }
    proof {
        assert forall|c: Seq<u64>| #[trigger] cycle_ok(c, es) implies exists|a: int|
            0 <= a < result@.len() && canonical(result@[a]@) == canonical(c) by {
            assert forall|x: u64| c.contains(x) implies dead.contains(x) by {
                let idx = choose|idx: int| 0 <= idx < c.len() && c[idx] == x;
                if idx < c.len() - 1 {
                    assert(es.contains((c[idx], c[idx + 1])));
                } else {
                    assert(es.contains((c[c.len() - 1], c[0])));
                }
                assert(g0.dom().contains(x));
                assert(keys@.contains(x));
                let j = choose|j: int| 0 <= j < keys@.len() && keys@[j] == x;
                assert(0 <= j < i && keys@[j] == x);
            }
        }
    }
    result
}

} // verus!
