//! What holds of the compatibility relation: `reserved` and `empty` bound
//! it, every type is compatible with itself and with a renumbered copy of
//! itself, and the work budget of a check always suffices.

use vstd::prelude::*;
use vstd::set_lib::{lemma_int_range, lemma_len_subset, set_int_range};
use crate::subtype::{
    Members, Report, Step, check, compat, budget, label_index, member_step, members, ok_report, positions,
};
use crate::types::{
    Field, TypeNode, children_in, graph_wf, labels_unique, node_labels_unique, productive, ref_walk,
    shifted,
};

verus! {

/// Anything may replace `reserved`, and `empty` may replace anything.
pub proof fn lemma_top_bottom(g: Seq<TypeNode>, new: usize, old: usize)
    requires
        graph_wf(g),
        new < g.len(),
        old < g.len(),
        g[old as int] is Reserved || g[new as int] is Empty,
    ensures
        compat(g, new, old) == ok_report(),
{
}

/// Every type is compatible with itself.
pub proof fn lemma_reflexive(g: Seq<TypeNode>, t: usize)
    requires
        graph_wf(g),
        t < g.len(),
    ensures
        compat(g, t, t) == ok_report(),
{
}

proof fn lemma_pair_code_injective(a: int, b: int, c: int, d: int, n: int)
    requires
        0 <= a,
        0 <= b < n,
        0 <= c,
        0 <= d < n,
        a * n + b == c * n + d,
    ensures
        a == c,
        b == d,
{
    if a < c {
        assert(c * n >= (a + 1) * n) by (nonlinear_arith)
            requires
                a + 1 <= c,
                n > 0,
        ;
        assert((a + 1) * n == a * n + n) by (nonlinear_arith);
    } else if c < a {
        assert(a * n >= (c + 1) * n) by (nonlinear_arith)
            requires
                c + 1 <= a,
                n > 0,
        ;
        assert((c + 1) * n == c * n + n) by (nonlinear_arith);
    }
}

proof fn lemma_pair_code_range(a: int, b: int, n: int)
    requires
        0 <= a < n,
        0 <= b < n,
    ensures
        0 <= a * n + b < n * n,
{
    assert(a * n <= (n - 1) * n) by (nonlinear_arith)
        requires
            0 <= a <= n - 1,
            n > 0,
    ;
    assert((n - 1) * n == n * n - n) by (nonlinear_arith);
    assert(a * n >= 0) by (nonlinear_arith)
        requires
            a >= 0,
            n > 0,
    ;
}

/// Pairs of indices that an assumption set may hold.
pub open spec fn pairs_below(gamma: Seq<(usize, usize)>, n: nat) -> bool {
    forall|k: int| 0 <= k < gamma.len() ==> (#[trigger] gamma[k]).0 < n && gamma[k].1 < n
}

/// An assumption set without repeats over `n` nodes has at most `n * n`
/// pairs.
proof fn lemma_pairs_bound(gamma: Seq<(usize, usize)>, n: nat)
    requires
        gamma.no_duplicates(),
        pairs_below(gamma, n),
    ensures
        gamma.len() <= n * n,
{
    let codes = gamma.map_values(|p: (usize, usize)| (p.0 * n + p.1) as int);
    assert forall|i: int, j: int|
        0 <= i < codes.len() && 0 <= j < codes.len() && i != j implies codes[i] != codes[j] by {
        if codes[i] == codes[j] {
            lemma_pair_code_injective(
                gamma[i].0 as int,
                gamma[i].1 as int,
                gamma[j].0 as int,
                gamma[j].1 as int,
                n as int,
            );
            assert(gamma[i] == gamma[j]);
        }
    }
    assert(codes.no_duplicates());
    codes.unique_seq_to_set();
    lemma_int_range(0, (n * n) as int);
    assert forall|c: int| codes.to_set().contains(c) implies set_int_range(0, (n * n) as int).contains(c) by {
        let i = choose|i: int| 0 <= i < codes.len() && codes[i] == c;
        lemma_pair_code_range(gamma[i].0 as int, gamma[i].1 as int, n as int);
    }
    lemma_len_subset(codes.to_set(), set_int_range(0, (n * n) as int));
}

proof fn lemma_check_total(
    g: Seq<TypeNode>,
    gamma: Seq<(usize, usize)>,
    t: usize,
    s: usize,
    path: Seq<Step>,
    fuel: nat,
)
    requires
        graph_wf(g),
        t < g.len(),
        s < g.len(),
        gamma.no_duplicates(),
        pairs_below(gamma, g.len()),
        fuel + gamma.len() >= g.len() * g.len() + 1,
    ensures
        check(g, gamma, t, s, path, fuel) is Some,
    decreases fuel, 0int,
{
    if t == s || gamma.contains((t, s)) {
    } else {
        let gm = gamma.push((t, s));
        assert(gm.no_duplicates()) by {
            assert forall|i: int, j: int|
                0 <= i < gm.len() && 0 <= j < gm.len() && i != j implies gm[i] != gm[j] by {
                if i < gamma.len() && j < gamma.len() {
                    assert(gm[i] == gamma[i] && gm[j] == gamma[j]);
                } else if i < gamma.len() {
                    assert(gm[i] == gamma[i]);
                } else {
                    assert(gm[j] == gamma[j]);
                }
            }
        }
        assert(pairs_below(gm, g.len())) by {
            assert forall|k: int| 0 <= k < gm.len() implies (#[trigger] gm[k]).0 < g.len()
                && gm[k].1 < g.len() by {
                if k < gamma.len() {
                    assert(gm[k] == gamma[k]);
                }
            }
        }
        lemma_pairs_bound(gm, g.len());
        let f = (fuel - 1) as nat;
        assert(crate::types::children_in(g[s as int], g.len()));
        assert(crate::types::children_in(g[t as int], g.len()));
        match (g[s as int], g[t as int]) {
            (TypeNode::Reserved, _) => {},
            (_, TypeNode::Empty) => {},
            (_, TypeNode::Ref(j)) => {
                lemma_check_total(g, gm, j, s, path, f);
            },
            (TypeNode::Ref(j), _) => {
                lemma_check_total(g, gm, t, j, path, f);
            },
            (TypeNode::Opt(a), TypeNode::Opt(b)) => {
                lemma_check_total(g, gm, b, a, path.push(Step::Elem), f);
            },
            (TypeNode::Vector(a), TypeNode::Vector(b)) => {
                lemma_check_total(g, gm, b, a, path.push(Step::Elem), f);
            },
            (TypeNode::Record(ofs), TypeNode::Record(nfs)) => {
                lemma_members_total(g, gm, Members::Fields, ofs@, nfs@, path, f, 0);
            },
            (TypeNode::Variant(ofs), TypeNode::Variant(nfs)) => {
                lemma_members_total(g, gm, Members::Tags, nfs@, ofs@, path, f, 0);
            },
            (TypeNode::Service(oms), TypeNode::Service(nms)) => {
                lemma_members_total(g, gm, Members::Methods, oms@, nms@, path, f, 0);
            },
            (TypeNode::Func(oa, orr, om), TypeNode::Func(na, nr, nm)) => {
                lemma_positions_total(g, gm, true, na@, oa@, path, f, 0);
                lemma_positions_total(g, gm, false, orr@, nr@, path, f, 0);
            },
            _ => {},
        }
    }
}

proof fn lemma_members_total(
    g: Seq<TypeNode>,
    gamma: Seq<(usize, usize)>,
    k: Members,
    drive: Seq<Field>,
    other: Seq<Field>,
    path: Seq<Step>,
    fuel: nat,
    i: int,
)
    requires
        graph_wf(g),
        forall|j: int| 0 <= j < drive.len() ==> drive[j].ty < g.len(),
        forall|j: int| 0 <= j < other.len() ==> other[j].ty < g.len(),
        gamma.no_duplicates(),
        pairs_below(gamma, g.len()),
        fuel + gamma.len() >= g.len() * g.len() + 1,
    ensures
        members(g, gamma, k, drive, other, path, fuel, i) is Some,
    decreases fuel, drive.len() - i + 1,
{
    if i < 0 || i >= drive.len() {
    } else {
        let d = drive[i];
        let p = path.push(member_step(k, d.label));
        lemma_label_index_in_range(other, d.label, 0);
        match label_index(other, d.label, 0) {
            Some(j) => {
                lemma_check_total(g, gamma, d.ty, other[j].ty, p, fuel);
                lemma_check_total(g, gamma, other[j].ty, d.ty, p, fuel);
            },
            None => {},
        }
        lemma_members_total(g, gamma, k, drive, other, path, fuel, i + 1);
    }
}

proof fn lemma_positions_total(
    g: Seq<TypeNode>,
    gamma: Seq<(usize, usize)>,
    args: bool,
    drive: Seq<usize>,
    other: Seq<usize>,
    path: Seq<Step>,
    fuel: nat,
    i: int,
)
    requires
        graph_wf(g),
        forall|j: int| 0 <= j < drive.len() ==> drive[j] < g.len(),
        forall|j: int| 0 <= j < other.len() ==> other[j] < g.len(),
        gamma.no_duplicates(),
        pairs_below(gamma, g.len()),
        fuel + gamma.len() >= g.len() * g.len() + 1,
    ensures
        positions(g, gamma, args, drive, other, path, fuel, i) is Some,
    decreases fuel, drive.len() - i + 1,
{
    if i < 0 || i >= drive.len() {
    } else {
        let p = path.push(if args { Step::Arg(i as usize) } else { Step::Ret(i as usize) });
        if i < other.len() {
            lemma_check_total(g, gamma, other[i], drive[i], p, fuel);
        }
        lemma_positions_total(g, gamma, args, drive, other, path, fuel, i + 1);
    }
}

proof fn lemma_label_index_in_range(fs: Seq<Field>, l: u32, i: int)
    ensures
        label_index(fs, l, i) matches Some(j) ==> 0 <= j < fs.len(),
    decreases fs.len() - i,
{
    if i < 0 || i >= fs.len() {
    } else if fs[i].label == l {
    } else {
        lemma_label_index_in_range(fs, l, i + 1);
    }
}

/// A check over `n` nodes never runs out of its budget: each step down adds
/// a new pair to the assumption set, and there are only `n * n` pairs. So
/// recursive types are decided in work bounded by the number of node pairs,
/// whatever the depth of the values they describe.
pub proof fn lemma_budget_suffices(g: Seq<TypeNode>, new: usize, old: usize)
    requires
        graph_wf(g),
        new < g.len(),
        old < g.len(),
    ensures
        compat(g, new, old) is Some,
{
    lemma_check_total(g, Seq::empty(), new, old, Seq::empty(), budget(g.len()));
}

/// No mismatch was found (or the budget ran out first).
pub open spec fn clean(r: Report) -> bool {
    match r {
        Some(x) => x.len() == 0,
        None => true,
    }
}

/// `g` holds `n` nodes followed by a copy of them with every index moved
/// by `n`; the first `n` refer only among themselves and end every chain of
/// references within `n` steps.
pub open spec fn doubled(g: Seq<TypeNode>, n: nat) -> bool {
    &&& g.len() == 2 * n
    &&& forall|i: int|
        0 <= i < n ==> children_in(#[trigger] g[i], n) && shifted(g[i], g[i + n], n as int)
    &&& forall|i: int| 0 <= i < n ==> !(g[#[trigger] ref_walk(g, i, n)] is Ref)
}

pub open spec fn base(x: int, n: nat) -> int {
    if x < n {
        x
    } else {
        x - n
    }
}

/// `t` and `s` lie on opposite sides of a doubled graph and lead through
/// references to the same node, up to the copy.
pub open spec fn twins(g: Seq<TypeNode>, n: nat, t: int, s: int) -> bool {
    &&& 0 <= t < 2 * n
    &&& 0 <= s < 2 * n
    &&& (t < n) != (s < n)
    &&& ref_walk(g, base(t, n), n) == ref_walk(g, base(s, n), n)
}

proof fn lemma_walk_stable(g: Seq<TypeNode>, x: int, a: nat)
    requires
        !(g[ref_walk(g, x, a)] is Ref),
    ensures
        ref_walk(g, x, a + 1) == ref_walk(g, x, a),
    decreases a,
{
    if a > 0 {
        match g[x] {
            TypeNode::Ref(y) => {
                lemma_walk_stable(g, y as int, (a - 1) as nat);
            },
            _ => {},
        }
    }
}

proof fn lemma_label_index_of(fs: Seq<Field>, i: int, j: int)
    requires
        labels_unique(fs),
        0 <= j <= i < fs.len(),
    ensures
        label_index(fs, fs[i].label, j) == Some(i),
    decreases i - j,
{
    if j < i {
        assert(fs[j].label != fs[i].label);
        lemma_label_index_of(fs, i, j + 1);
    }
}

/// A node of either side and its counterpart on the other side are twins.
proof fn lemma_copy_twins(g: Seq<TypeNode>, n: nat, a: int)
    requires
        0 <= a < n,
    ensures
        twins(g, n, a, a + n),
        twins(g, n, a + n, a),
{
}

proof fn lemma_refl_check(
    g: Seq<TypeNode>,
    n: nat,
    gamma: Seq<(usize, usize)>,
    t: usize,
    s: usize,
    path: Seq<Step>,
    fuel: nat,
)
    requires
        graph_wf(g),
        doubled(g, n),
        twins(g, n, t as int, s as int),
    ensures
        clean(check(g, gamma, t, s, path, fuel)),
    decreases fuel, 0int,
{
    if t == s || gamma.contains((t, s)) || fuel == 0 {
    } else {
        let gm = gamma.push((t, s));
        let f = (fuel - 1) as nat;
        let bt = base(t as int, n);
        let bs = base(s as int, n);
        assert(children_in(g[bt], n) && shifted(g[bt], g[bt + n], n as int));
        assert(children_in(g[bs], n) && shifted(g[bs], g[bs + n], n as int));
        assert(!(g[ref_walk(g, bt, n)] is Ref));
        assert(children_in(g[t as int], g.len()) && node_labels_unique(g[t as int]));
        assert(children_in(g[s as int], g.len()) && node_labels_unique(g[s as int]));
        match (g[s as int], g[t as int]) {
            (TypeNode::Reserved, _) => {},
            (_, TypeNode::Empty) => {},
            (_, TypeNode::Ref(j)) => {
                lemma_walk_stable(g, base(j as int, n), (n - 1) as nat);
                lemma_refl_check(g, n, gm, j, s, path, f);
            },
            (TypeNode::Ref(j), _) => {
                lemma_walk_stable(g, base(j as int, n), (n - 1) as nat);
                lemma_refl_check(g, n, gm, t, j, path, f);
            },
            (TypeNode::Opt(a), TypeNode::Opt(b)) => {
                lemma_refl_check(g, n, gm, b, a, path.push(Step::Elem), f);
            },
            (TypeNode::Vector(a), TypeNode::Vector(b)) => {
                lemma_refl_check(g, n, gm, b, a, path.push(Step::Elem), f);
            },
            (TypeNode::Record(ofs), TypeNode::Record(nfs)) => {
                lemma_refl_members(g, n, gm, Members::Fields, ofs@, nfs@, path, f, 0);
            },
            (TypeNode::Variant(ofs), TypeNode::Variant(nfs)) => {
                lemma_refl_members(g, n, gm, Members::Tags, nfs@, ofs@, path, f, 0);
            },
            (TypeNode::Service(oms), TypeNode::Service(nms)) => {
                lemma_refl_members(g, n, gm, Members::Methods, oms@, nms@, path, f, 0);
            },
            (TypeNode::Func(oa, orr, om), TypeNode::Func(na, nr, nm)) => {
                lemma_refl_positions(g, n, gm, true, na@, oa@, path, f, 0);
                lemma_refl_positions(g, n, gm, false, orr@, nr@, path, f, 0);
            },
            _ => {},
        }
    }
}

proof fn lemma_refl_members(
    g: Seq<TypeNode>,
    n: nat,
    gamma: Seq<(usize, usize)>,
    k: Members,
    drive: Seq<Field>,
    other: Seq<Field>,
    path: Seq<Step>,
    fuel: nat,
    i: int,
)
    requires
        graph_wf(g),
        doubled(g, n),
        labels_unique(other),
        drive.len() == other.len(),
        forall|j: int|
            0 <= j < drive.len() ==> (#[trigger] other[j]).label == drive[j].label && twins(
                g,
                n,
                other[j].ty as int,
                drive[j].ty as int,
            ),
    ensures
        clean(members(g, gamma, k, drive, other, path, fuel, i)),
    decreases fuel, drive.len() - i + 1,
{
    if 0 <= i < drive.len() {
        let d = drive[i];
        let p = path.push(member_step(k, d.label));
        lemma_label_index_of(other, i, 0);
        assert(other[i].label == d.label);
        lemma_refl_check(g, n, gamma, d.ty, other[i].ty, p, fuel);
        lemma_refl_check(g, n, gamma, other[i].ty, d.ty, p, fuel);
        lemma_refl_members(g, n, gamma, k, drive, other, path, fuel, i + 1);
    }
}

proof fn lemma_refl_positions(
    g: Seq<TypeNode>,
    n: nat,
    gamma: Seq<(usize, usize)>,
    args: bool,
    drive: Seq<usize>,
    other: Seq<usize>,
    path: Seq<Step>,
    fuel: nat,
    i: int,
)
    requires
        graph_wf(g),
        doubled(g, n),
        drive.len() == other.len(),
        forall|j: int|
            0 <= j < drive.len() ==> twins(g, n, #[trigger] other[j] as int, drive[j] as int),
    ensures
        clean(positions(g, gamma, args, drive, other, path, fuel, i)),
    decreases fuel, drive.len() - i + 1,
{
    if 0 <= i < drive.len() {
        let p = path.push(if args { Step::Arg(i as usize) } else { Step::Ret(i as usize) });
        lemma_refl_check(g, n, gamma, other[i], drive[i], p, fuel);
        lemma_refl_positions(g, n, gamma, args, drive, other, path, fuel, i + 1);
    }
}

proof fn lemma_walk_same(x: Seq<TypeNode>, g: Seq<TypeNode>, i: int, a: nat)
    requires
        g.len() >= x.len(),
        forall|j: int| 0 <= j < x.len() ==> shifted(#[trigger] x[j], g[j], 0),
        forall|j: int| 0 <= j < x.len() ==> children_in(#[trigger] x[j], x.len()),
        0 <= i < x.len(),
    ensures
        ref_walk(g, i, a) == ref_walk(x, i, a),
        0 <= ref_walk(x, i, a) < x.len(),
        (g[ref_walk(g, i, a)] is Ref) == (x[ref_walk(x, i, a)] is Ref),
    decreases a,
{
    assert(shifted(x[i], g[i], 0) && children_in(x[i], x.len()));
    if a > 0 {
        match x[i] {
            TypeNode::Ref(y) => {
                lemma_walk_same(x, g, y as int, (a - 1) as nat);
            },
            _ => {},
        }
    }
}

proof fn lemma_shift_compose(a: TypeNode, b: TypeNode, c: TypeNode, k: int)
    requires
        shifted(a, b, 0),
        shifted(a, c, k),
    ensures
        shifted(b, c, k),
{
    match (a, b, c) {
        (TypeNode::Record(x), TypeNode::Record(y), TypeNode::Record(z)) => {
            assert(forall|i: int| 0 <= i < x@.len() ==> (#[trigger] y@[i]) == x@[i] && z@[i].ty == x@[i].ty + k && z@[i].label == x@[i].label);
        },
        (TypeNode::Variant(x), TypeNode::Variant(y), TypeNode::Variant(z)) => {
            assert(forall|i: int| 0 <= i < x@.len() ==> (#[trigger] y@[i]) == x@[i] && z@[i].ty == x@[i].ty + k && z@[i].label == x@[i].label);
        },
        (TypeNode::Service(x), TypeNode::Service(y), TypeNode::Service(z)) => {
            assert(forall|i: int| 0 <= i < x@.len() ==> (#[trigger] y@[i]) == x@[i] && z@[i].ty == x@[i].ty + k && z@[i].label == x@[i].label);
        },
        (TypeNode::Func(x1, x2, _), TypeNode::Func(y1, y2, _), TypeNode::Func(z1, z2, _)) => {
            assert(forall|i: int| 0 <= i < x1@.len() ==> (#[trigger] y1@[i]) == x1@[i] && z1@[i] == x1@[i] + k);
            assert(forall|i: int| 0 <= i < x2@.len() ==> (#[trigger] y2@[i]) == x2@[i] && z2@[i] == x2@[i] + k);
        },
        _ => {},
    }
}

/// Comparing a program with itself succeeds. Where `g` is a checked graph
/// `x` followed by a copy of it renumbered past its end (what `merge` builds
/// from `x` and `x`), each type of the first half is compatible with its
/// copy, in both directions.
pub proof fn lemma_reflexive_copy(x: Seq<TypeNode>, g: Seq<TypeNode>, t: usize)
    requires
        graph_wf(x),
        productive(x),
        graph_wf(g),
        g.len() == 2 * x.len(),
        g.len() <= usize::MAX,
        forall|i: int| 0 <= i < x.len() ==> shifted(x[i], #[trigger] g[i], 0),
        forall|i: int|
            0 <= i < x.len() ==> shifted(x[i], #[trigger] g[x.len() + i], x.len() as int),
        t < x.len(),
    ensures
        compat(g, t, (t + x.len()) as usize) == ok_report(),
        compat(g, (t + x.len()) as usize, t) == ok_report(),
{
    let n = x.len();
    assert forall|i: int| 0 <= i < n implies children_in(#[trigger] x[i], n) by {
        assert(children_in(x[i], n));
    }
    assert forall|i: int| 0 <= i < n implies children_in(#[trigger] g[i], n) && shifted(
        g[i],
        g[i + n],
        n as int,
    ) by {
        assert(shifted(x[i], g[i], 0));
        assert(shifted(x[i], g[n + i], n as int));
        lemma_shift_compose(x[i], g[i], g[i + n], n as int);
        assert(children_in(x[i], n));
    }
    assert forall|i: int| 0 <= i < n implies !(g[#[trigger] ref_walk(g, i, n)] is Ref) by {
        lemma_walk_same(x, g, i, n);
        assert(!(x[ref_walk(x, i, n)] is Ref));
    }
    assert(doubled(g, n));
    let u = (t + n) as usize;
    assert(u == t + n);
    lemma_copy_twins(g, n, t as int);
    lemma_refl_check(g, n, Seq::empty(), t, u, Seq::empty(), budget(g.len()));
    lemma_refl_check(g, n, Seq::empty(), u, t, Seq::empty(), budget(g.len()));
    lemma_budget_suffices(g, t, u);
    lemma_budget_suffices(g, u, t);
    assert(compat(g, t, u).unwrap() =~= Seq::empty());
    assert(compat(g, u, t).unwrap() =~= Seq::empty());
}

} // verus!
