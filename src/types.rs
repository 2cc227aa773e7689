use vstd::prelude::*;

verus! {

/// Primitive kinds of the interface language.
#[derive(PartialEq, Eq, Structural, Clone, Copy, Debug)]
pub enum Prim {
    Bool,
    Nat,
    Int,
    Nat8,
    Nat16,
    Nat32,
    Nat64,
    Int8,
    Int16,
    Int32,
    Int64,
    Float32,
    Float64,
    Text,
    Principal,
}

/// How a method may be invoked.
#[derive(PartialEq, Eq, Structural, Clone, Copy, Debug)]
pub enum Mode {
    Normal,
    Query,
    CompositeQuery,
    Oneway,
}

/// A labelled member of a record, a variant or a service: `label` is the
/// numeric identity of the field, tag or method name, `ty` the arena index
/// of its type.
#[derive(PartialEq, Eq, Structural, Clone, Copy, Debug)]
pub struct Field {
    pub label: u32,
    pub ty: usize,
}

/// One node of a type graph. Children are arena indices.
#[derive(Clone, Debug)]
pub enum TypeNode {
    Prim(Prim),
    Vector(usize),
    Opt(usize),
    Record(Vec<Field>),
    Variant(Vec<Field>),
    Func(Vec<usize>, Vec<usize>, Mode),
    Service(Vec<Field>),
    Null,
    Reserved,
    Empty,
    /// A reference to another node: how recursion is expressed.
    Ref(usize),
}

/// The indices that a node points to.
pub open spec fn children_in(n: TypeNode, len: nat) -> bool {
    match n {
        TypeNode::Vector(e) => e < len,
        TypeNode::Opt(e) => e < len,
        TypeNode::Record(fs) => forall|i: int| 0 <= i < fs.len() ==> fs[i].ty < len,
        TypeNode::Variant(fs) => forall|i: int| 0 <= i < fs.len() ==> fs[i].ty < len,
        TypeNode::Service(fs) => forall|i: int| 0 <= i < fs.len() ==> fs[i].ty < len,
        TypeNode::Func(a, r, _) => (forall|i: int| 0 <= i < a.len() ==> a[i] < len) && (forall|
            i: int,
        |
            0 <= i < r.len() ==> r[i] < len),
        TypeNode::Ref(j) => j < len,
        _ => true,
    }
}

/// No two members of `fs` share a label.
pub open spec fn labels_unique(fs: Seq<Field>) -> bool {
    forall|i: int, j: int| 0 <= i < fs.len() && 0 <= j < fs.len() && fs[i].label == fs[j].label ==> i == j
}

/// Labels are unique inside each record, variant and service.
pub open spec fn node_labels_unique(n: TypeNode) -> bool {
    match n {
        TypeNode::Record(fs) => labels_unique(fs@),
        TypeNode::Variant(fs) => labels_unique(fs@),
        TypeNode::Service(fs) => labels_unique(fs@),
        _ => true,
    }
}

/// A well-formed arena: every index in range and labels unique per node.
pub open spec fn graph_wf(g: Seq<TypeNode>) -> bool {
    forall|i: int| 0 <= i < g.len() ==> children_in(#[trigger] g[i], g.len()) && node_labels_unique(g[i])
}

/// A type graph: the arena that owns every node.
pub struct TypeGraph {
    pub nodes: Vec<TypeNode>,
}

impl TypeGraph {
    pub open spec fn wf(&self) -> bool {
        graph_wf(self.nodes@)
    }
}

/// `m` is `n` with every child index moved up by `k`; labels, kinds and
/// modes are kept.
pub open spec fn shifted(n: TypeNode, m: TypeNode, k: int) -> bool {
    match (n, m) {
        (TypeNode::Prim(a), TypeNode::Prim(b)) => a == b,
        (TypeNode::Vector(a), TypeNode::Vector(b)) => b == a + k,
        (TypeNode::Opt(a), TypeNode::Opt(b)) => b == a + k,
        (TypeNode::Ref(a), TypeNode::Ref(b)) => b == a + k,
        (TypeNode::Record(a), TypeNode::Record(b)) => fields_shifted(a@, b@, k),
        (TypeNode::Variant(a), TypeNode::Variant(b)) => fields_shifted(a@, b@, k),
        (TypeNode::Service(a), TypeNode::Service(b)) => fields_shifted(a@, b@, k),
        (TypeNode::Func(a, r, x), TypeNode::Func(a2, r2, y)) => x == y && indices_shifted(a@, a2@, k)
            && indices_shifted(r@, r2@, k),
        (TypeNode::Null, TypeNode::Null) => true,
        (TypeNode::Reserved, TypeNode::Reserved) => true,
        (TypeNode::Empty, TypeNode::Empty) => true,
        _ => false,
    }
}

pub open spec fn fields_shifted(a: Seq<Field>, b: Seq<Field>, k: int) -> bool {
    a.len() == b.len() && forall|i: int|
        0 <= i < a.len() ==> (#[trigger] b[i]).label == a[i].label && b[i].ty == a[i].ty + k
}

pub open spec fn indices_shifted(a: Seq<usize>, b: Seq<usize>, k: int) -> bool {
    a.len() == b.len() && forall|i: int| 0 <= i < a.len() ==> #[trigger] b[i] == a[i] + k
}

fn shift_fields(fs: &Vec<Field>, k: usize, bound: usize) -> (r: Vec<Field>)
    requires
        forall|i: int| 0 <= i < fs@.len() ==> fs@[i].ty + k < bound,
    ensures
        fields_shifted(fs@, r@, k as int),
{
    let mut r: Vec<Field> = Vec::new();
    let mut i: usize = 0;
    while i < fs.len()
        invariant
            i <= fs@.len(),
            forall|i: int| 0 <= i < fs@.len() ==> fs@[i].ty + k < bound,
            r@.len() == i,
            forall|j: int| 0 <= j < i ==> #[trigger] r@[j].label == fs@[j].label && r@[j].ty == fs@[j].ty + k,
        decreases fs@.len() - i,
    {
        let f = fs[i];
        r.push(Field { label: f.label, ty: f.ty + k });
        i = i + 1;
    }
    r
}

fn shift_indices(xs: &Vec<usize>, k: usize, bound: usize) -> (r: Vec<usize>)
    requires
        forall|i: int| 0 <= i < xs@.len() ==> xs@[i] + k < bound,
    ensures
        indices_shifted(xs@, r@, k as int),
{
    let mut r: Vec<usize> = Vec::new();
    let mut i: usize = 0;
    while i < xs.len()
        invariant
            i <= xs@.len(),
            forall|i: int| 0 <= i < xs@.len() ==> xs@[i] + k < bound,
            r@.len() == i,
            forall|j: int| 0 <= j < i ==> #[trigger] r@[j] == xs@[j] + k,
        decreases xs@.len() - i,
    {
        r.push(xs[i] + k);
        i = i + 1;
    }
    r
}

fn shift_node(n: &TypeNode, k: usize, len: usize, bound: usize) -> (r: TypeNode)
    requires
        children_in(*n, len as nat),
        len + k <= bound,
    ensures
        shifted(*n, r, k as int),
{
    match n {
        TypeNode::Prim(p) => TypeNode::Prim(*p),
        TypeNode::Vector(e) => TypeNode::Vector(*e + k),
        TypeNode::Opt(e) => TypeNode::Opt(*e + k),
        TypeNode::Ref(e) => TypeNode::Ref(*e + k),
        TypeNode::Record(fs) => TypeNode::Record(shift_fields(fs, k, bound)),
        TypeNode::Variant(fs) => TypeNode::Variant(shift_fields(fs, k, bound)),
        TypeNode::Service(fs) => TypeNode::Service(shift_fields(fs, k, bound)),
        TypeNode::Func(a, r, m) => TypeNode::Func(
            shift_indices(a, k, bound),
            shift_indices(r, k, bound),
            *m,
        ),
        TypeNode::Null => TypeNode::Null,
        TypeNode::Reserved => TypeNode::Reserved,
        TypeNode::Empty => TypeNode::Empty,
    }
}

proof fn lemma_shift_wf(n: TypeNode, m: TypeNode, k: int, len: nat, total: nat)
    requires
        children_in(n, len),
        node_labels_unique(n),
        shifted(n, m, k),
        k >= 0,
        len + k <= total,
    ensures
        children_in(m, total),
        node_labels_unique(m),
{
    match (n, m) {
        (TypeNode::Record(a), TypeNode::Record(b)) => {
            assert(forall|i: int| 0 <= i < b@.len() ==> (#[trigger] b@[i]).ty == a@[i].ty + k && b@[i].label == a@[i].label);
        },
        (TypeNode::Variant(a), TypeNode::Variant(b)) => {
            assert(forall|i: int| 0 <= i < b@.len() ==> (#[trigger] b@[i]).ty == a@[i].ty + k && b@[i].label == a@[i].label);
        },
        (TypeNode::Service(a), TypeNode::Service(b)) => {
            assert(forall|i: int| 0 <= i < b@.len() ==> (#[trigger] b@[i]).ty == a@[i].ty + k && b@[i].label == a@[i].label);
        },
        (TypeNode::Func(a, r, _), TypeNode::Func(a2, r2, _)) => {
            assert(forall|i: int| 0 <= i < a2@.len() ==> a2@[i] == a@[i] + k);
            assert(forall|i: int| 0 <= i < r2@.len() ==> r2@[i] == r@[i] + k);
        },
        _ => {},
    }
}

impl TypeGraph {
    /// Places `other` after `self` in one arena. Node `i` of `self` stays at
    /// `i`; node `i` of `other` moves to `self.nodes.len() + i`, with every
    /// index inside it moved by the same amount.
    pub fn merge(&self, other: &TypeGraph) -> (r: TypeGraph)
        requires
            self.wf(),
            other.wf(),
            self.nodes@.len() + other.nodes@.len() <= usize::MAX,
        ensures
            r.wf(),
            r.nodes@.len() == self.nodes@.len() + other.nodes@.len(),
            forall|i: int|
                0 <= i < self.nodes@.len() ==> shifted(self.nodes@[i], #[trigger] r.nodes@[i], 0),
            forall|i: int|
                0 <= i < other.nodes@.len() ==> shifted(
                    other.nodes@[i],
                    #[trigger] r.nodes@[self.nodes@.len() + i],
                    self.nodes@.len() as int,
                ),
    {
        let n1 = self.nodes.len();
        let n2 = other.nodes.len();
        let total = n1 + n2;
        let mut nodes: Vec<TypeNode> = Vec::new();
        let mut i: usize = 0;
        while i < n1
            invariant
                self.wf(),
                n1 == self.nodes@.len(),
                total == n1 + n2,
                i <= n1,
                nodes@.len() == i,
                forall|j: int| 0 <= j < i ==> shifted(self.nodes@[j], #[trigger] nodes@[j], 0),
                forall|j: int|
                    0 <= j < i ==> children_in(#[trigger] nodes@[j], total as nat)
                        && node_labels_unique(nodes@[j]),
            decreases n1 - i,
        {
            assert(children_in(self.nodes@[i as int], n1 as nat));
            let m = shift_node(&self.nodes[i], 0, n1, total);
            proof {
                lemma_shift_wf(self.nodes@[i as int], m, 0, n1 as nat, total as nat);
            }
            nodes.push(m);
            i = i + 1;
        }
        let mut i: usize = 0;
        while i < n2
            invariant
                self.wf(),
                other.wf(),
                n1 == self.nodes@.len(),
                n2 == other.nodes@.len(),
                total == n1 + n2,
                i <= n2,
                nodes@.len() == n1 + i,
                forall|j: int| 0 <= j < n1 ==> shifted(self.nodes@[j], #[trigger] nodes@[j], 0),
                forall|j: int|
                    0 <= j < i ==> shifted(other.nodes@[j], #[trigger] nodes@[n1 + j], n1 as int),
                forall|j: int|
                    0 <= j < n1 + i ==> children_in(#[trigger] nodes@[j], total as nat)
                        && node_labels_unique(nodes@[j]),
            decreases n2 - i,
        {
            assert(children_in(other.nodes@[i as int], n2 as nat));
            let m = shift_node(&other.nodes[i], n1, n2, total);
            proof {
                lemma_shift_wf(other.nodes@[i as int], m, n1 as int, n2 as nat, total as nat);
            }
            nodes.push(m);
            i = i + 1;
            assert(nodes@[n1 + i - 1] == m);
        }
        TypeGraph { nodes }
    }
}

/// Why a list of nodes is not a type graph.
#[derive(PartialEq, Eq, Structural, Clone, Copy, Debug)]
pub enum CheckError {
    /// The node at this index refers to an index that has no node.
    UnboundType(usize),
    /// The record, variant or service at this index repeats this label.
    DuplicateLabel(usize, u32),
    /// The node at this index starts a cycle of plain references.
    NonProductiveCycle(usize),
}

/// Where `steps` references lead from `i`: a chain stops at the first node
/// that is not a reference.
pub open spec fn ref_walk(g: Seq<TypeNode>, i: int, steps: nat) -> int
    decreases steps,
{
    if steps == 0 {
        i
    } else {
        match g[i] {
            TypeNode::Ref(j) => ref_walk(g, j as int, (steps - 1) as nat),
            _ => i,
        }
    }
}

/// No node starts an endless chain of references: after as many steps as
/// there are nodes every chain has reached a type that is not a reference.
pub open spec fn productive(g: Seq<TypeNode>) -> bool {
    forall|i: int| 0 <= i < g.len() ==> !(g[#[trigger] ref_walk(g, i, g.len())] is Ref)
}

fn indices_below(xs: &Vec<usize>, len: usize) -> (r: bool)
    ensures
        r == (forall|i: int| 0 <= i < xs@.len() ==> xs@[i] < len),
{
    let mut i: usize = 0;
    while i < xs.len()
        invariant
            i <= xs@.len(),
            forall|j: int| 0 <= j < i ==> xs@[j] < len,
        decreases xs@.len() - i,
    {
        if xs[i] >= len {
            return false;
        }
        i = i + 1;
    }
    true
}

fn fields_below(fs: &Vec<Field>, len: usize) -> (r: bool)
    ensures
        r == (forall|i: int| 0 <= i < fs@.len() ==> fs@[i].ty < len),
{
    let mut i: usize = 0;
    while i < fs.len()
        invariant
            i <= fs@.len(),
            forall|j: int| 0 <= j < i ==> fs@[j].ty < len,
        decreases fs@.len() - i,
    {
        if fs[i].ty >= len {
            return false;
        }
        i = i + 1;
    }
    true
}

fn node_children_in(n: &TypeNode, len: usize) -> (r: bool)
    ensures
        r == children_in(*n, len as nat),
{
    match n {
        TypeNode::Vector(e) => *e < len,
        TypeNode::Opt(e) => *e < len,
        TypeNode::Ref(e) => *e < len,
        TypeNode::Record(fs) => fields_below(fs, len),
        TypeNode::Variant(fs) => fields_below(fs, len),
        TypeNode::Service(fs) => fields_below(fs, len),
        TypeNode::Func(a, r, _) => indices_below(a, len) && indices_below(r, len),
        _ => true,
    }
}

/// A label that occurs twice in `fs`, if any.
fn repeated_label(fs: &Vec<Field>) -> (r: Option<u32>)
    ensures
        r is None <==> labels_unique(fs@),
        r matches Some(l) ==> repeats(fs@, l),
{
    let mut i: usize = 0;
    while i < fs.len()
        invariant
            i <= fs@.len(),
            forall|a: int, b: int|
                0 <= a < i && 0 <= b < fs@.len() && a != b ==> fs@[a].label != fs@[b].label,
        decreases fs@.len() - i,
    {
        let mut j: usize = 0;
        while j < fs.len()
            invariant
                i < fs@.len(),
                j <= fs@.len(),
                forall|a: int, b: int|
                    0 <= a < i && 0 <= b < fs@.len() && a != b ==> fs@[a].label != fs@[b].label,
                forall|b: int| 0 <= b < j && b != i ==> fs@[i as int].label != fs@[b].label,
            decreases fs@.len() - j,
        {
            if j != i && fs[i].label == fs[j].label {
                let l = fs[i].label;
                if i < j {
                    assert(fs@[i as int].label == l && fs@[j as int].label == l);
                } else {
                    assert(fs@[j as int].label == l && fs@[i as int].label == l);
                }
                return Some(l);
            }
            j = j + 1;
        }
        i = i + 1;
    }
    None
}

/// Two members of `fs` carry the label `l`.
pub open spec fn repeats(fs: Seq<Field>, l: u32) -> bool {
    exists|i: int, j: int| 0 <= i < j < fs.len() && fs[i].label == l && fs[j].label == l
}

/// The record, variant or service `n` has two members labelled `l`.
pub open spec fn node_repeats(n: TypeNode, l: u32) -> bool {
    match n {
        TypeNode::Record(fs) => repeats(fs@, l),
        TypeNode::Variant(fs) => repeats(fs@, l),
        TypeNode::Service(fs) => repeats(fs@, l),
        _ => false,
    }
}

fn node_repeated_label(n: &TypeNode) -> (r: Option<u32>)
    ensures
        r is None <==> node_labels_unique(*n),
        r matches Some(l) ==> node_repeats(*n, l),
{
    match n {
        TypeNode::Record(fs) => repeated_label(fs),
        TypeNode::Variant(fs) => repeated_label(fs),
        TypeNode::Service(fs) => repeated_label(fs),
        _ => None,
    }
}

/// Whether the chain of references from `i` is still on a reference after
/// `nodes.len()` steps.
fn endless_refs(nodes: &Vec<TypeNode>, i: usize) -> (r: bool)
    requires
        graph_wf(nodes@),
        i < nodes@.len(),
    ensures
        r == (nodes@[ref_walk(nodes@, i as int, nodes@.len())] is Ref),
{
    let n = nodes.len();
    let mut cur: usize = i;
    let mut k: usize = 0;
    while k < n
        invariant
            graph_wf(nodes@),
            n == nodes@.len(),
            k <= n,
            cur < n,
            ref_walk(nodes@, i as int, n as nat) == ref_walk(nodes@, cur as int, (n - k) as nat),
        decreases n - k,
    {
        assert(children_in(nodes@[cur as int], n as nat));
        match &nodes[cur] {
            TypeNode::Ref(j) => {
                cur = *j;
            },
            _ => {
                return false;
            },
        }
        k = k + 1;
    }
    match &nodes[cur] {
        TypeNode::Ref(_) => true,
        _ => false,
    }
}

impl TypeGraph {
    /// Checks a list of nodes and makes it a type graph: every index must
    /// have a node, labels must be unique within each node, and no chain of
    /// references may go round without reaching a compound type.
    pub fn new(nodes: Vec<TypeNode>) -> (r: Result<TypeGraph, CheckError>)
        ensures
            r is Ok <==> graph_wf(nodes@) && productive(nodes@),
            r matches Ok(g) ==> g.nodes@ == nodes@,
            r matches Err(CheckError::UnboundType(i)) ==> i < nodes@.len() && !children_in(
                nodes@[i as int],
                nodes@.len(),
            ),
            r matches Err(CheckError::DuplicateLabel(i, l)) ==> i < nodes@.len() && node_repeats(
                nodes@[i as int],
                l,
            ),
            r matches Err(CheckError::NonProductiveCycle(i)) ==> i < nodes@.len() && graph_wf(
                nodes@,
            ) && nodes@[ref_walk(nodes@, i as int, nodes@.len())] is Ref,
    {
        let n = nodes.len();
        let mut i: usize = 0;
        while i < n
            invariant
                n == nodes@.len(),
                i <= n,
                forall|j: int|
                    0 <= j < i ==> children_in(#[trigger] nodes@[j], n as nat) && node_labels_unique(
                        nodes@[j],
                    ),
            decreases n - i,
        {
            if !node_children_in(&nodes[i], n) {
                return Err(CheckError::UnboundType(i));
            }
            match node_repeated_label(&nodes[i]) {
                Some(l) => {
                    return Err(CheckError::DuplicateLabel(i, l));
                },
                None => {},
            }
            i = i + 1;
        }
        assert(graph_wf(nodes@));
        let mut i: usize = 0;
        while i < n
            invariant
                n == nodes@.len(),
                graph_wf(nodes@),
                i <= n,
                forall|j: int|
                    0 <= j < i ==> !(nodes@[#[trigger] ref_walk(nodes@, j, nodes@.len())] is Ref),
            decreases n - i,
        {
            if endless_refs(&nodes, i) {
                return Err(CheckError::NonProductiveCycle(i));
            }
            i = i + 1;
        }
        Ok(TypeGraph { nodes })
    }
}

/// A checked type graph with the service it exports, if any.
pub struct TypeEnvironment {
    pub graph: TypeGraph,
    /// The index of the exported service, or of a constructor function that
    /// returns it.
    pub actor: Option<usize>,
}

impl TypeEnvironment {
    pub open spec fn wf(&self) -> bool {
        &&& self.graph.wf()
        &&& productive(self.graph.nodes@)
        &&& (self.actor matches Some(a) ==> a < self.graph.nodes@.len())
    }

    /// Makes an environment from a list of nodes and the index of its actor.
    pub fn new(nodes: Vec<TypeNode>, actor: Option<usize>) -> (r: Result<
        TypeEnvironment,
        CheckError,
    >)
        ensures
            r is Ok <==> graph_wf(nodes@) && productive(nodes@) && (actor matches Some(a) ==> a
                < nodes@.len()),
            r matches Ok(e) ==> e.wf() && e.graph.nodes@ == nodes@ && e.actor == actor,
            r matches Err(CheckError::UnboundType(i)) ==> (i < nodes@.len() && !children_in(
                nodes@[i as int],
                nodes@.len(),
            )) || (actor == Some(i) && i >= nodes@.len()),
            r matches Err(CheckError::DuplicateLabel(i, l)) ==> i < nodes@.len() && node_repeats(
                nodes@[i as int],
                l,
            ),
            r matches Err(CheckError::NonProductiveCycle(i)) ==> i < nodes@.len() && graph_wf(
                nodes@,
            ) && nodes@[ref_walk(nodes@, i as int, nodes@.len())] is Ref,
    {
        let len = nodes.len();
        let graph = match TypeGraph::new(nodes) {
            Ok(g) => g,
            Err(e) => {
                return Err(e);
            },
        };
        match actor {
            Some(a) => if a >= len {
                return Err(CheckError::UnboundType(a));
            },
            None => {},
        }
        Ok(TypeEnvironment { graph, actor })
    }
}

} // verus!
