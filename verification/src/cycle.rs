use vstd::prelude::*;

verus! {

/// The canonical node sequence of a discovered elementary cycle: rotated so
/// that the least node comes first, and oriented so that, of the two
/// traversal directions, the one whose second node is smaller is kept.
#[derive(Debug, PartialEq, Eq, Hash)]
pub struct Cycle(pub Vec<u64>);

/// Index of the leftmost minimum of a nonempty sequence.
pub open spec fn min_idx(s: Seq<u64>) -> int
    decreases s.len(),
{
    if s.len() <= 1 {
        0
    } else {
        let m = min_idx(s.drop_last());
        if s.last() < s[m] {
            s.len() - 1
        } else {
            m
        }
    }
}

pub proof fn lemma_min_idx(s: Seq<u64>)
    requires
        s.len() >= 1,
    ensures
        0 <= min_idx(s) < s.len(),
        forall|i: int| 0 <= i < s.len() ==> #[trigger] s[i] >= s[min_idx(s)],
        forall|i: int| 0 <= i < min_idx(s) ==> #[trigger] s[i] > s[min_idx(s)],
    decreases s.len(),
{
    if s.len() > 1 {
        lemma_min_idx(s.drop_last());
        assert(forall|i: int| 0 <= i < s.len() - 1 ==> s.drop_last()[i] == s[i]);
    }
}

/// The leftmost minimum is the only index that is minimal and strictly
/// below everything to its left.
pub proof fn lemma_min_idx_unique(s: Seq<u64>, p: int)
    requires
        s.len() >= 1,
        0 <= p < s.len(),
        forall|i: int| 0 <= i < s.len() ==> #[trigger] s[i] >= s[p],
        forall|i: int| 0 <= i < p ==> #[trigger] s[i] > s[p],
    ensures
        min_idx(s) == p,
{
    lemma_min_idx(s);
}

/// The cyclic left rotation of `s` by `p`: the elements from position `p`
/// on, followed by the elements before position `p`.
pub open spec fn rotated(s: Seq<u64>, p: int) -> Seq<u64> {
    s.skip(p) + s.take(p)
}

/// Of the two traversal directions of a rotated cycle sequence, the kept
/// one: the first element stays, the rest is reversed when the second
/// element exceeds the last.
pub open spec fn oriented(r: Seq<u64>) -> Seq<u64> {
    if r[1] > r[r.len() - 1] {
        seq![r[0]] + r.skip(1).reverse()
    } else {
        r
    }
}

/// The canonical form of a raw cycle sequence: rotate its leftmost minimum
/// to the front, then orient.
pub open spec fn canonical(s: Seq<u64>) -> Seq<u64> {
    oriented(rotated(s, min_idx(s)))
}

/// How far `rotate` must cyclically shift `nodes` to bring the minimum
/// node to the front: the number of trailing elements to move.
pub fn rotation(nodes: &Vec<u64>) -> (r: usize)
    requires
        nodes@.len() >= 1,
    ensures
        r <= nodes@.len(),
        r as int == if min_idx(nodes@) == 0 {
            0int
        } else {
            nodes@.len() - min_idx(nodes@)
        },
{
    let mut best: usize = 0;
    let mut i: usize = 1;
    while i < nodes.len()
        invariant
            1 <= i <= nodes@.len(),
            0 <= best < i,
            forall|j: int| 0 <= j < i ==> nodes@[j] >= nodes@[best as int],
            forall|j: int| 0 <= j < best ==> nodes@[j] > nodes@[best as int],
        decreases nodes@.len() - i,
    {
        if nodes[i] < nodes[best] {
            best = i;
        }
        i += 1;
    }
    proof {
        lemma_min_idx_unique(nodes@, best as int);
    }
    if best == 0 {
        0
    } else {
        nodes.len() - best
    }
}

/// Cyclically shifts `nodes` by moving its last `count` elements, in order,
/// to the front.
pub fn rotate(nodes: Vec<u64>, count: usize) -> (r: Vec<u64>)
    requires
        count <= nodes@.len(),
    ensures
        r@ == rotated(nodes@, nodes@.len() - count),
{
    let split = nodes.len() - count;
    let mut result: Vec<u64> = Vec::new();
    let mut i: usize = split;
    while i < nodes.len()
        invariant
            split <= i <= nodes@.len(),
            split == nodes@.len() - count,
            result@ == nodes@.subrange(split as int, i as int),
        decreases nodes@.len() - i,
    {
        result.push(nodes[i]);
        proof {
            assert(result@ =~= nodes@.subrange(split as int, i as int + 1));
        }
        i += 1;
    }
    let mut j: usize = 0;
    while j < split
        invariant
            0 <= j <= split,
            split <= nodes@.len(),
            result@ == nodes@.skip(split as int) + nodes@.take(j as int),
        decreases split - j,
    {
        result.push(nodes[j]);
        proof {
            assert(result@ =~= nodes@.skip(split as int) + nodes@.take(j as int + 1));
        }
        j += 1;
    }
    result
}

/// Reverses the orientation of everything after position 0; position 0
/// stays fixed.
pub fn flip(nodes: Vec<u64>) -> (r: Vec<u64>)
    requires
        nodes@.len() >= 1,
    ensures
        r@ == seq![nodes@[0]] + nodes@.skip(1).reverse(),
{
    let ghost n = nodes@.len() as int;
    let mut result: Vec<u64> = Vec::new();
    result.push(nodes[0]);
    let mut i: usize = nodes.len();
    while i > 1
        invariant
            1 <= i <= n,
            n == nodes@.len(),
            result@.len() == 1 + (n - i),
            result@[0] == nodes@[0],
            forall|k: int| 0 <= k < n - i ==> #[trigger] result@[1 + k] == nodes@[n - 1 - k],
        decreases i,
    {
        i -= 1;
        result.push(nodes[i]);
    }
    proof {
        let target = seq![nodes@[0]] + nodes@.skip(1).reverse();
        assert forall|idx: int| 0 <= idx < result@.len() implies result@[idx] == target[idx] by {
            if idx >= 1 {
                assert(result@[1 + (idx - 1)] == nodes@[n - 1 - (idx - 1)]);
            }
        }
        assert(result@ =~= target);
    }
    result
}

pub proof fn lemma_rotated_index(s: Seq<u64>, p: int)
    requires
        0 <= p <= s.len(),
    ensures
        rotated(s, p).len() == s.len(),
        forall|i: int|
            0 <= i < s.len() ==> #[trigger] rotated(s, p)[i] == (if i + p < s.len() {
                s[i + p]
            } else {
                s[i + p - s.len()]
            }),
{
}

pub proof fn lemma_rotated_compose(s: Seq<u64>, p: int, q: int)
    requires
        0 <= p <= s.len(),
        0 <= q <= s.len(),
    ensures
        rotated(rotated(s, p), q) == rotated(
            s,
            if p + q <= s.len() {
                p + q
            } else {
                p + q - s.len()
            },
        ),
{
    let w = if p + q <= s.len() {
        p + q
    } else {
        p + q - s.len()
    };
    lemma_rotated_index(s, p);
    lemma_rotated_index(rotated(s, p), q);
    lemma_rotated_index(s, w);
    assert(rotated(rotated(s, p), q) =~= rotated(s, w));
}

/// After rotating by `k`, the unique minimum moves back by `k`, cyclically.
pub proof fn lemma_min_idx_rotated(s: Seq<u64>, k: int)
    requires
        s.len() >= 1,
        s.no_duplicates(),
        0 <= k < s.len(),
    ensures
        min_idx(rotated(s, k)) == (if min_idx(s) >= k {
            min_idx(s) - k
        } else {
            min_idx(s) + s.len() - k
        }),
{
    lemma_min_idx(s);
    lemma_rotated_index(s, k);
    let m = min_idx(s);
    let r = rotated(s, k);
    let p = if m >= k {
        m - k
    } else {
        m + s.len() - k
    };
    assert(r[p] == s[m]);
    assert forall|i: int| 0 <= i < r.len() implies #[trigger] r[i] >= r[p] by {
        let si = if i + k < s.len() {
            i + k
        } else {
            i + k - s.len()
        };
        assert(r[i] == s[si]);
        assert(s[si] >= s[m]);
    }
    assert forall|i: int| 0 <= i < p implies #[trigger] r[i] > r[p] by {
        let si = if i + k < s.len() {
            i + k
        } else {
            i + k - s.len()
        };
        assert(r[i] == s[si]);
        assert(si != m);
        assert(s[si] != s[m]);
    }
    lemma_min_idx_unique(r, p);
}

/// Canonicalization is rotation-invariant: every cyclic rotation of a
/// duplicate-free cycle sequence has the same canonical form.
pub proof fn lemma_canonical_rotation_invariant(s: Seq<u64>, k: int)
    requires
        s.len() >= 2,
        s.no_duplicates(),
        0 <= k < s.len(),
    ensures
        canonical(rotated(s, k)) == canonical(s),
{
    lemma_min_idx(s);
    let m = min_idx(s);
    let r = rotated(s, k);
    lemma_min_idx_rotated(s, k);
    let p = min_idx(r);
    lemma_rotated_compose(s, k, p);
    if m >= k {
        assert(rotated(r, p) == rotated(s, m));
    } else {
        // k + p lands on m + len, which wraps to m, or is exactly len when m == 0
        if k + p <= s.len() {
            assert(m == 0 && k + p == s.len());
            assert(rotated(s, s.len() as int) =~= rotated(s, 0));
        }
        assert(rotated(r, p) == rotated(s, m));
    }
}

/// Canonicalization is reflection-invariant: a duplicate-free cycle
/// sequence traversed in the opposite direction has the same canonical
/// form.
pub proof fn lemma_canonical_reflection_invariant(s: Seq<u64>)
    requires
        s.len() >= 2,
        s.no_duplicates(),
    ensures
        canonical(s.reverse()) == canonical(s),
{
    let n = s.len() as int;
    lemma_min_idx(s);
    let m = min_idx(s);
    let sr = s.reverse();
    assert(sr.len() == n);
    assert forall|i: int| 0 <= i < n implies #[trigger] sr[i] >= sr[n - 1 - m] by {
        assert(sr[i] == s[n - 1 - i]);
        assert(s[n - 1 - i] >= s[m]);
    }
    assert forall|i: int| 0 <= i < n - 1 - m implies #[trigger] sr[i] > sr[n - 1 - m] by {
        assert(sr[i] == s[n - 1 - i]);
        assert(n - 1 - i != m);
        assert(s[n - 1 - i] != s[m]);
    }
    lemma_min_idx_unique(sr, n - 1 - m);
    let r = rotated(s, m);
    let r2 = rotated(sr, n - 1 - m);
    lemma_rotated_index(s, m);
    lemma_rotated_index(sr, n - 1 - m);
    assert(r2 =~= seq![r[0]] + r.skip(1).reverse()) by {
        assert forall|i: int| 0 <= i < n implies r2[i] == (seq![r[0]] + r.skip(1).reverse())[i] by {
            if i == 0 {
                assert(r2[0] == sr[n - 1 - m]);
                assert(sr[n - 1 - m] == s[m]);
                assert(r[0] == s[m]);
            } else {
                // left side
                if i + (n - 1 - m) < n {
                    assert(r2[i] == sr[i + n - 1 - m]);
                    assert(sr[i + n - 1 - m] == s[m - i]);
                } else {
                    assert(r2[i] == sr[i - 1 - m]);
                    assert(sr[i - 1 - m] == s[n + m - i]);
                }
                // right side
                assert((seq![r[0]] + r.skip(1).reverse())[i] == r.skip(1).reverse()[i - 1]);
                assert(r.skip(1).reverse()[i - 1] == r.skip(1)[n - 1 - i]);
                assert(r.skip(1)[n - 1 - i] == r[n - i]);
                if n - i + m < n {
                    assert(r[n - i] == s[n - i + m]);
                } else {
                    assert(r[n - i] == s[m - i]);
                }
            }
        }
    }
    assert(r2[0] == r[0]);
    if n == 2 {
        assert(r2 =~= r);
    } else {
        // positions 1 and n - 1 of r and r2 swap
        assert(r2[1] == r.skip(1).reverse()[0]);
        assert(r.skip(1).reverse()[0] == r.skip(1)[n - 2]);
        assert(r.skip(1)[n - 2] == r[n - 1]);
        assert(r2[n - 1] == r.skip(1).reverse()[n - 2]);
        assert(r.skip(1).reverse()[n - 2] == r.skip(1)[0]);
        assert(r.skip(1)[0] == r[1]);
        // the two compared entries of r are distinct nodes of s
        let a1 = if 1 + m < n {
            1 + m
        } else {
            1 + m - n
        };
        let a2 = if n - 1 + m < n {
            n - 1 + m
        } else {
            m - 1
        };
        assert(r[1] == s[a1] && r[n - 1] == s[a2]);
        assert(a1 != a2);
        assert(s[a1] != s[a2]);
        if r[1] > r[n - 1] {
            // s flips to r2; the reverse needs no flip
            assert(canonical(s) == r2);
            assert(!(r2[1] > r2[n - 1]));
            assert(canonical(sr) == r2);
        } else {
            // s needs no flip; the reverse flips back to r
            assert(canonical(s) == r);
            assert(r2[1] > r2[n - 1]);
            assert(canonical(sr) == seq![r2[0]] + r2.skip(1).reverse());
            assert(seq![r2[0]] + r2.skip(1).reverse() =~= r) by {
                assert(r2.skip(1) =~= r.skip(1).reverse());
                assert forall|i: int| 0 <= i < n implies (seq![r2[0]] + r2.skip(1).reverse())[i]
                    == r[i] by {
                    if i >= 1 {
                        assert(r2.skip(1).reverse()[i - 1] == r2.skip(1)[n - 1 - i]);
                        assert(r2.skip(1)[n - 1 - i] == r.skip(1).reverse()[n - 1 - i]);
                        assert(r.skip(1).reverse()[n - 1 - i] == r.skip(1)[i - 1]);
                        assert(r.skip(1)[i - 1] == r[i]);
                    }
                }
            }
        }
    }
}

impl Cycle {
    /// Canonicalizes a raw cycle sequence of length at least two: any two
    /// sequences describing the same geometric cycle yield equal values.
    pub fn new(nodes: Vec<u64>) -> (r: Self)
        requires
            nodes@.len() >= 2,
        ensures
            r.0@ == canonical(nodes@),
    {
        let ghost orig = nodes@;
        proof {
            lemma_min_idx(orig);
        }
        let count = rotation(&nodes);
        let rotated_nodes = rotate(nodes, count);
        proof {
            if min_idx(orig) == 0 {
                assert(rotated_nodes@ =~= rotated(orig, 0));
            }
        }
        let last = rotated_nodes[rotated_nodes.len() - 1];
        if rotated_nodes[1] > last {
            Cycle(flip(rotated_nodes))
        } else {
            Cycle(rotated_nodes)
        }
    }
}

} // verus!
