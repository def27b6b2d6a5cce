use vstd::prelude::*;

verus! {

/// A simple route from an implicit source node to `target`, through the
/// ordered interior nodes of `bridge`. The source is not stored: it is
/// determined by which node's collection holds the path.
#[derive(Debug, PartialEq, Eq, Clone)]
pub struct Path {
    pub bridge: Vec<u64>,
    pub target: u64,
}

/// Mathematical image of a `Path`: the interior sequence and the target.
#[verifier::ext_equal]
pub struct PathModel {
    pub bridge: Seq<u64>,
    pub target: u64,
}

impl View for Path {
    type V = PathModel;

    open spec fn view(&self) -> PathModel {
        PathModel { bridge: self.bridge@, target: self.target }
    }
}

/// The bridge a successful splice builds: the left bridge, then the node
/// being eliminated (the left target), then the right bridge.
pub open spec fn spliced_bridge(a: Seq<u64>, t: u64, b: Seq<u64>) -> Seq<u64> {
    a.push(t) + b
}

/// A splice succeeds exactly when each node of `b`, appended left to right,
/// does not already occur in the bridge built so far.
pub open spec fn splice_admitted(a: Seq<u64>, t: u64, b: Seq<u64>) -> bool {
    forall|i: int| 0 <= i < b.len() ==> !(a.push(t) + b.take(i)).contains(#[trigger] b[i])
}

/// Extending a path of `source` through its target via `q` succeeds exactly
/// when it is not an immediate back-traversal of a direct edge and the
/// splice admits every appended node.
pub open spec fn concat_admitted(p: PathModel, source: u64, q: PathModel) -> bool {
    &&& !(q.target == source && p.bridge.len() == 0 && q.bridge.len() == 0)
    &&& splice_admitted(p.bridge, p.target, q.bridge)
}

/// The path a successful concatenation produces.
pub open spec fn concat_model(p: PathModel, q: PathModel) -> PathModel {
    PathModel { bridge: spliced_bridge(p.bridge, p.target, q.bridge), target: q.target }
}

fn copy_nodes(v: &Vec<u64>) -> (r: Vec<u64>)
    ensures
        r@ == v@,
{
    let mut r: Vec<u64> = Vec::new();
    let mut i: usize = 0;
    while i < v.len()
        invariant
            0 <= i <= v@.len(),
            r@ == v@.take(i as int),
        decreases v@.len() - i,
    {
        r.push(v[i]);
        proof {
            assert(r@ =~= v@.take(i as int + 1));
        }
        i += 1;
    }
    proof {
        assert(v@.take(v@.len() as int) =~= v@);
    }
    r
}

fn contains_node(v: &Vec<u64>, x: u64) -> (r: bool)
    ensures
        r == v@.contains(x),
{
    let mut i: usize = 0;
    while i < v.len()
        invariant
            0 <= i <= v@.len(),
            forall|j: int| 0 <= j < i ==> v@[j] != x,
        decreases v@.len() - i,
    {
        if v[i] == x {
            return true;
        }
        i += 1;
    }
    false
}

impl Path {
    /// An explicit path with the given interior sequence and target.
    pub fn new(bridge: Vec<u64>, target: u64) -> (r: Self)
        ensures
            r.bridge == bridge,
            r.target == target,
    {
        Path { bridge, target }
    }

    /// A direct path to a neighbor: empty bridge.
    pub fn to(target: u64) -> (r: Self)
        ensures
            r.bridge@ == Seq::<u64>::empty(),
            r.target == target,
    {
        Path { bridge: Vec::new(), target }
    }

    /// Flattens the path into its bridge followed by its target.
    pub fn to_sequence(self) -> (r: Vec<u64>)
        ensures
            r@ == self.bridge@.push(self.target),
            r@.len() == self.bridge@.len() + 1,
    {
        let mut r = self.bridge;
        r.push(self.target);
        r
    }

    /// Extends `self`, a path of `source` ending at the node being
    /// eliminated, through that node via `other`, one of the eliminated
    /// node's own paths. Returns the spliced path, or `None` when the
    /// extension would immediately re-traverse a direct edge back to
    /// `source` or would repeat an interior node.
    pub fn concat(&self, source: &u64, other: &Path) -> (r: Option<Path>)
        ensures
            r is Some <==> concat_admitted(self@, *source, other@),
            r is Some ==> r->Some_0@ == concat_model(self@, other@),
    {
        if &other.target == source {
            if self.bridge.len() == 0 && other.bridge.len() == 0 {
                None
            } else {
                self.splice(other)
            }
        } else {
            self.splice(other)
        }
    }

    fn splice(&self, other: &Path) -> (r: Option<Path>)
        ensures
            r is Some <==> splice_admitted(self.bridge@, self.target, other.bridge@),
            r is Some ==> r->Some_0@ == concat_model(self@, other@),
    {
        let ghost stem = self.bridge@.push(self.target);
        let mut bridge = copy_nodes(&self.bridge);
        bridge.push(self.target);
        let mut i: usize = 0;
        while i < other.bridge.len()
            invariant
                0 <= i <= other.bridge@.len(),
                stem == self.bridge@.push(self.target),
                bridge@ == stem + other.bridge@.take(i as int),
                forall|j: int|
                    0 <= j < i ==> !(stem + other.bridge@.take(j)).contains(
                        #[trigger] other.bridge@[j],
                    ),
            decreases other.bridge@.len() - i,
        {
            let id = other.bridge[i];
            if contains_node(&bridge, id) {
                proof {
                    assert(!splice_admitted(self.bridge@, self.target, other.bridge@)) by {
                        assert((stem + other.bridge@.take(i as int)).contains(
                            other.bridge@[i as int],
                        ));
                    }
                }
                return None;
            }
            bridge.push(id);
            proof {
                assert(bridge@ =~= stem + other.bridge@.take(i as int + 1));
            }
            i += 1;
        }
        proof {
            assert(other.bridge@.take(other.bridge@.len() as int) =~= other.bridge@);
            assert(bridge@ =~= spliced_bridge(self.bridge@, self.target, other.bridge@));
        }
        Some(Path { bridge, target: other.target })
    }
}

} // verus!
