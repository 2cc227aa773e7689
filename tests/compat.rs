use didc_core::subtype::{Mismatch, Reason, Step};
use didc_core::types::{CheckError, Field, Mode, Prim, TypeEnvironment, TypeGraph, TypeNode};

const A: u32 = 97;
const B: u32 = 98;
const X: u32 = 120;
const Y: u32 = 121;
const FOO: u32 = 1001;
const BAR: u32 = 1002;

fn graph(nodes: Vec<TypeNode>) -> TypeGraph {
    TypeGraph::new(nodes).expect("well-formed graph")
}

fn mismatches(r: Result<(), Vec<Mismatch>>) -> Vec<(Vec<Step>, Reason)> {
    match r {
        Ok(()) => vec![],
        Err(v) => v.into_iter().map(|m| (m.path, m.reason)).collect(),
    }
}

#[test]
fn optional_field_may_be_dropped() {
    // 0 int, 1 text, 2 opt text, 3 old record {a; b: opt text}, 4 new record {a}
    let g = graph(vec![
        TypeNode::Prim(Prim::Int),
        TypeNode::Prim(Prim::Text),
        TypeNode::Opt(1),
        TypeNode::Record(vec![Field { label: A, ty: 0 }, Field { label: B, ty: 2 }]),
        TypeNode::Record(vec![Field { label: A, ty: 0 }]),
    ]);
    assert!(g.is_compatible(4, 3).is_ok());
}

#[test]
fn required_field_may_not_be_dropped() {
    let g = graph(vec![
        TypeNode::Prim(Prim::Int),
        TypeNode::Prim(Prim::Text),
        TypeNode::Record(vec![Field { label: A, ty: 0 }, Field { label: B, ty: 1 }]),
        TypeNode::Record(vec![Field { label: A, ty: 0 }]),
    ]);
    let ms = mismatches(g.is_compatible(3, 2));
    assert_eq!(ms, vec![(vec![Step::Field(B)], Reason::MissingField)]);
}

#[test]
fn variant_may_narrow() {
    let g = graph(vec![
        TypeNode::Prim(Prim::Int),
        TypeNode::Prim(Prim::Text),
        TypeNode::Variant(vec![Field { label: X, ty: 0 }, Field { label: Y, ty: 1 }]),
        TypeNode::Variant(vec![Field { label: X, ty: 0 }]),
    ]);
    assert!(g.is_compatible(3, 2).is_ok());
    let ms = mismatches(g.is_compatible(2, 3));
    assert_eq!(ms, vec![(vec![Step::Field(Y)], Reason::TagNotInOldSet)]);
}

fn int_to_int(g: &mut Vec<TypeNode>, arg: usize) -> usize {
    g.push(TypeNode::Func(vec![arg], vec![arg], Mode::Normal));
    g.len() - 1
}

#[test]
fn service_may_add_methods() {
    let mut nodes = vec![TypeNode::Prim(Prim::Int), TypeNode::Prim(Prim::Text)];
    let foo = int_to_int(&mut nodes, 0);
    let bar = int_to_int(&mut nodes, 1);
    nodes.push(TypeNode::Service(vec![Field { label: FOO, ty: foo }]));
    nodes.push(TypeNode::Service(vec![Field { label: FOO, ty: foo }, Field { label: BAR, ty: bar }]));
    nodes.push(TypeNode::Service(vec![Field { label: BAR, ty: bar }]));
    let g = graph(nodes);
    assert!(g.is_compatible(5, 4).is_ok());
    let ms = mismatches(g.is_compatible(6, 4));
    assert_eq!(ms, vec![(vec![Step::Method(FOO)], Reason::MethodMissing)]);
}

fn list_nodes() -> Vec<TypeNode> {
    // 0 int, 1 list = record { head: int; tail: opt list }, 2 opt ref, 3 ref to 1
    vec![
        TypeNode::Prim(Prim::Int),
        TypeNode::Record(vec![Field { label: A, ty: 0 }, Field { label: B, ty: 2 }]),
        TypeNode::Opt(3),
        TypeNode::Ref(1),
    ]
}

#[test]
fn recursive_list_terminates() {
    let new = graph(list_nodes());
    let old = graph(list_nodes());
    let merged = new.merge(&old);
    assert_eq!(merged.nodes.len(), 8);
    assert!(merged.is_compatible(1, 4 + 1).is_ok());
    assert!(merged.is_compatible(4 + 1, 1).is_ok());
}

#[test]
fn merge_renumbers_second_graph() {
    let a = graph(vec![TypeNode::Prim(Prim::Nat)]);
    let b = graph(list_nodes());
    let m = a.merge(&b);
    assert_eq!(m.nodes.len(), 5);
    match &m.nodes[2] {
        TypeNode::Record(fs) => {
            assert_eq!(fs[0], Field { label: A, ty: 1 });
            assert_eq!(fs[1], Field { label: B, ty: 3 });
        }
        _ => panic!("record expected"),
    }
    assert!(matches!(m.nodes[4], TypeNode::Ref(2)));
}

#[test]
fn reserved_and_empty_bound_the_order() {
    let g = graph(vec![TypeNode::Prim(Prim::Int), TypeNode::Reserved, TypeNode::Empty]);
    assert!(g.is_compatible(0, 1).is_ok());
    assert!(g.is_compatible(2, 0).is_ok());
    assert!(g.is_compatible(2, 1).is_ok());
    let ms = mismatches(g.is_compatible(1, 0));
    assert_eq!(ms, vec![(vec![], Reason::KindMismatch)]);
}

#[test]
fn every_type_matches_itself() {
    let g = graph(list_nodes());
    for i in 0..4 {
        assert!(g.is_compatible(i, i).is_ok());
    }
}

#[test]
fn primitives_need_equal_kinds() {
    let g = graph(vec![TypeNode::Prim(Prim::Nat), TypeNode::Prim(Prim::Int)]);
    let ms = mismatches(g.is_compatible(0, 1));
    assert_eq!(ms, vec![(vec![], Reason::KindMismatch)]);
}

#[test]
fn option_accepts_null_and_narrower_option() {
    let g = graph(vec![
        TypeNode::Prim(Prim::Nat),
        TypeNode::Opt(0),
        TypeNode::Null,
        TypeNode::Prim(Prim::Int),
        TypeNode::Opt(3),
    ]);
    assert!(g.is_compatible(2, 1).is_ok());
    let ms = mismatches(g.is_compatible(4, 1));
    assert_eq!(ms, vec![(vec![Step::Elem], Reason::KindMismatch)]);
}

#[test]
fn functions_are_contravariant_in_arguments() {
    // 0 nat, 1 opt nat, 2 text
    // 3 (nat) -> (nat); 4 (nat, opt nat) -> (nat); 5 (nat, text) -> (nat); 6 (nat) -> ()
    let g = graph(vec![
        TypeNode::Prim(Prim::Nat),
        TypeNode::Opt(0),
        TypeNode::Prim(Prim::Text),
        TypeNode::Func(vec![0], vec![0], Mode::Normal),
        TypeNode::Func(vec![0, 1], vec![0], Mode::Normal),
        TypeNode::Func(vec![0, 2], vec![0], Mode::Normal),
        TypeNode::Func(vec![0], vec![], Mode::Normal),
    ]);
    assert!(g.is_compatible(4, 3).is_ok());
    assert_eq!(
        mismatches(g.is_compatible(5, 3)),
        vec![(vec![Step::Arg(1)], Reason::ArgNotContravariant)]
    );
    assert_eq!(
        mismatches(g.is_compatible(6, 3)),
        vec![(vec![Step::Ret(0)], Reason::ResultNotCovariant)]
    );
}

#[test]
fn modes_must_match() {
    let g = graph(vec![
        TypeNode::Prim(Prim::Nat),
        TypeNode::Func(vec![0], vec![], Mode::Oneway),
        TypeNode::Func(vec![0], vec![], Mode::Normal),
        TypeNode::Func(vec![0], vec![], Mode::Query),
    ]);
    assert_eq!(mismatches(g.is_compatible(2, 1)), vec![(vec![], Reason::ModeMismatch)]);
    assert_eq!(mismatches(g.is_compatible(3, 2)), vec![(vec![], Reason::ModeMismatch)]);
}

#[test]
fn all_mismatches_are_reported() {
    let g = graph(vec![
        TypeNode::Prim(Prim::Nat),
        TypeNode::Prim(Prim::Text),
        TypeNode::Record(vec![Field { label: A, ty: 0 }, Field { label: B, ty: 0 }]),
        TypeNode::Record(vec![Field { label: A, ty: 1 }]),
    ]);
    assert_eq!(
        mismatches(g.is_compatible(3, 2)),
        vec![
            (vec![Step::Field(A)], Reason::KindMismatch),
            (vec![Step::Field(B)], Reason::MissingField),
        ]
    );
}

#[test]
fn dropping_optional_field_is_not_transitive() {
    // c = record { b: opt int }, b = record {}, a = record { b: text }
    let g = graph(vec![
        TypeNode::Prim(Prim::Int),
        TypeNode::Opt(0),
        TypeNode::Record(vec![Field { label: B, ty: 1 }]),
        TypeNode::Record(vec![]),
        TypeNode::Prim(Prim::Text),
        TypeNode::Record(vec![Field { label: B, ty: 4 }]),
    ]);
    assert!(g.is_compatible(5, 3).is_ok());
    assert!(g.is_compatible(3, 2).is_ok());
    assert_eq!(
        mismatches(g.is_compatible(5, 2)),
        vec![(vec![Step::Field(B)], Reason::KindMismatch)]
    );
}

#[test]
fn unbound_index_is_rejected() {
    let r = TypeGraph::new(vec![TypeNode::Opt(3)]);
    assert!(matches!(r, Err(CheckError::UnboundType(0))));
}

#[test]
fn duplicate_label_is_rejected() {
    let r = TypeGraph::new(vec![
        TypeNode::Prim(Prim::Nat),
        TypeNode::Variant(vec![Field { label: X, ty: 0 }, Field { label: X, ty: 0 }]),
    ]);
    assert!(matches!(r, Err(CheckError::DuplicateLabel(1, X))));
}

#[test]
fn alias_cycle_is_rejected() {
    let r = TypeGraph::new(vec![TypeNode::Ref(1), TypeNode::Ref(0)]);
    assert!(matches!(r, Err(CheckError::NonProductiveCycle(0))));
    let ok = TypeGraph::new(vec![TypeNode::Ref(1), TypeNode::Opt(0)]);
    assert!(ok.is_ok());
}

fn service_env(methods: &[(u32, Prim)]) -> TypeEnvironment {
    let mut nodes = Vec::new();
    let mut fields = Vec::new();
    for (label, p) in methods {
        nodes.push(TypeNode::Prim(*p));
        let arg = nodes.len() - 1;
        nodes.push(TypeNode::Func(vec![arg], vec![arg], Mode::Normal));
        fields.push(Field { label: *label, ty: nodes.len() - 1 });
    }
    nodes.push(TypeNode::Service(fields));
    let actor = nodes.len() - 1;
    TypeEnvironment::new(nodes, Some(actor)).expect("well-formed environment")
}

#[test]
fn environments_compare_their_services() {
    let old = service_env(&[(FOO, Prim::Int)]);
    let wider = service_env(&[(FOO, Prim::Int), (BAR, Prim::Text)]);
    let without_foo = service_env(&[(BAR, Prim::Text)]);
    assert!(TypeEnvironment::is_compatible(&wider, &old).is_ok());
    let ms = mismatches(TypeEnvironment::is_compatible(&without_foo, &old));
    assert_eq!(ms, vec![(vec![Step::Method(FOO)], Reason::MethodMissing)]);
}

#[test]
fn environment_is_compatible_with_itself() {
    let mut nodes = list_nodes();
    nodes.push(TypeNode::Func(vec![1], vec![1], Mode::Query));
    nodes.push(TypeNode::Service(vec![Field { label: FOO, ty: 4 }]));
    let e = TypeEnvironment::new(nodes, Some(5)).expect("well-formed environment");
    assert!(TypeEnvironment::is_compatible(&e, &e).is_ok());
}

#[test]
fn actor_out_of_range_is_rejected() {
    let r = TypeEnvironment::new(vec![TypeNode::Null], Some(1));
    assert!(matches!(r, Err(CheckError::UnboundType(1))));
}

fn tree_nodes(leaf: Prim) -> Vec<TypeNode> {
    // 0 leaf, 1 tree = record { value; children: forest }, 2 forest = vec tree_ref,
    // 3 ref to forest, 4 ref to tree
    vec![
        TypeNode::Prim(leaf),
        TypeNode::Record(vec![Field { label: A, ty: 0 }, Field { label: B, ty: 3 }]),
        TypeNode::Vector(4),
        TypeNode::Ref(2),
        TypeNode::Ref(1),
    ]
}

#[test]
fn mutually_recursive_types_terminate() {
    let new = graph(tree_nodes(Prim::Int));
    let old = graph(tree_nodes(Prim::Int));
    let merged = new.merge(&old);
    assert!(merged.is_compatible(1, 5 + 1).is_ok());
    assert!(merged.is_compatible(2, 5 + 2).is_ok());
}

#[test]
fn mismatch_inside_recursive_type_is_reported_once() {
    let new = graph(tree_nodes(Prim::Nat));
    let old = graph(tree_nodes(Prim::Int));
    let merged = new.merge(&old);
    assert_eq!(
        mismatches(merged.is_compatible(1, 5 + 1)),
        vec![(vec![Step::Field(A)], Reason::KindMismatch)]
    );
}

#[test]
fn field_typed_by_optional_alias_may_be_dropped() {
    // 0 int, 1 opt int, 2 alias of 1, 3 old record {a; b: alias}, 4 new record {a}
    let g = graph(vec![
        TypeNode::Prim(Prim::Int),
        TypeNode::Opt(0),
        TypeNode::Ref(1),
        TypeNode::Record(vec![Field { label: A, ty: 0 }, Field { label: B, ty: 2 }]),
        TypeNode::Record(vec![Field { label: A, ty: 0 }]),
    ]);
    assert!(g.is_compatible(4, 3).is_ok());
}
