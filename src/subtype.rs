use vstd::prelude::*;
use crate::laws::{lemma_budget_suffices, lemma_reflexive_copy};
use crate::types::{Field, TypeEnvironment, TypeNode, TypeGraph, graph_wf, ref_walk, shifted};

verus! {

/// One step of the path from the compared roots to a mismatch.
#[derive(PartialEq, Eq, Structural, Clone, Copy, Debug)]
pub enum Step {
    /// A record field or a variant tag, by label.
    Field(u32),
    /// A service method, by name label.
    Method(u32),
    /// A function argument, by position.
    Arg(usize),
    /// A function result, by position.
    Ret(usize),
    /// The element type of an option or a vector.
    Elem,
}

/// Why a pair of types is not compatible.
#[derive(PartialEq, Eq, Structural, Clone, Copy, Debug)]
pub enum Reason {
    KindMismatch,
    MissingField,
    TagNotInOldSet,
    ArgNotContravariant,
    ResultNotCovariant,
    MethodMissing,
    ModeMismatch,
}

/// A mismatch, with the path from the roots at which it was found.
#[derive(Debug)]
pub struct Mismatch {
    pub path: Vec<Step>,
    pub reason: Reason,
}

impl View for Mismatch {
    type V = (Seq<Step>, Reason);

    open spec fn view(&self) -> (Seq<Step>, Reason) {
        (self.path@, self.reason)
    }
}

/// The mismatches found below a pair, or `None` where the budget ran out.
pub type Report = Option<Seq<(Seq<Step>, Reason)>>;

pub open spec fn ok_report() -> Report {
    Some(Seq::empty())
}

pub open spec fn one(path: Seq<Step>, r: Reason) -> Report {
    Some(seq![(path, r)])
}

pub open spec fn join(a: Report, b: Report) -> Report {
    match (a, b) {
        (Some(x), Some(y)) => Some(x + y),
        _ => None,
    }
}

pub open spec fn view_all(v: Seq<Mismatch>) -> Seq<(Seq<Step>, Reason)> {
    v.map_values(|m: Mismatch| m@)
}

pub open spec fn report_of(r: Option<Vec<Mismatch>>) -> Report {
    match r {
        Some(v) => Some(view_all(v@)),
        None => None,
    }
}

/// A type that a missing value may stand for: an option, `null` or
/// `reserved`, reached through at most as many references as there are
/// nodes.
pub open spec fn admits_absence(g: Seq<TypeNode>, i: int) -> bool {
    match g[ref_walk(g, i, g.len())] {
        TypeNode::Opt(_) | TypeNode::Null | TypeNode::Reserved => true,
        _ => false,
    }
}

/// The first position at or after `i` whose label is `l`.
pub open spec fn label_index(fs: Seq<Field>, l: u32, i: int) -> Option<int>
    decreases fs.len() - i,
{
    if i < 0 || i >= fs.len() {
        None
    } else if fs[i].label == l {
        Some(i)
    } else {
        label_index(fs, l, i + 1)
    }
}

/// How the members of a record, a variant or a service are matched up.
#[derive(PartialEq, Eq, Structural, Clone, Copy, Debug)]
pub enum Members {
    /// Each field of the old record must be in the new one, unless optional.
    Fields,
    /// Each tag of the new variant must be in the old one.
    Tags,
    /// Each method of the old service must be in the new one.
    Methods,
}

pub open spec fn member_step(k: Members, l: u32) -> Step {
    if k == Members::Methods {
        Step::Method(l)
    } else {
        Step::Field(l)
    }
}

pub open spec fn member_absent(k: Members) -> Reason {
    match k {
        Members::Fields => Reason::MissingField,
        Members::Tags => Reason::TagNotInOldSet,
        Members::Methods => Reason::MethodMissing,
    }
}

/// `check(g, gamma, t, s, path, fuel)`: the mismatches found when the type at
/// `t` (new, subtype position) stands in for the type at `s` (old, supertype
/// position). Pairs in `gamma` are being proven further up and are assumed
/// to hold; each step down costs one unit of `fuel`.
pub open spec fn check(
    g: Seq<TypeNode>,
    gamma: Seq<(usize, usize)>,
    t: usize,
    s: usize,
    path: Seq<Step>,
    fuel: nat,
) -> Report
    decreases fuel, 0int,
{
    if t == s || gamma.contains((t, s)) {
        ok_report()
    } else if fuel == 0 {
        None
    } else {
        let gm = gamma.push((t, s));
        let f = (fuel - 1) as nat;
        match (g[s as int], g[t as int]) {
            (TypeNode::Reserved, _) => ok_report(),
            (_, TypeNode::Empty) => ok_report(),
            (_, TypeNode::Ref(j)) => check(g, gm, j, s, path, f),
            (TypeNode::Ref(j), _) => check(g, gm, t, j, path, f),
            (TypeNode::Prim(a), TypeNode::Prim(b)) => if a == b {
                ok_report()
            } else {
                one(path, Reason::KindMismatch)
            },
            (TypeNode::Null, TypeNode::Null) => ok_report(),
            (TypeNode::Opt(_), TypeNode::Null) => ok_report(),
            (TypeNode::Opt(a), TypeNode::Opt(b)) => check(g, gm, b, a, path.push(Step::Elem), f),
            (TypeNode::Vector(a), TypeNode::Vector(b)) => check(
                g,
                gm,
                b,
                a,
                path.push(Step::Elem),
                f,
            ),
            (TypeNode::Record(ofs), TypeNode::Record(nfs)) => members(
                g,
                gm,
                Members::Fields,
                ofs@,
                nfs@,
                path,
                f,
                0,
            ),
            (TypeNode::Variant(ofs), TypeNode::Variant(nfs)) => members(
                g,
                gm,
                Members::Tags,
                nfs@,
                ofs@,
                path,
                f,
                0,
            ),
            (TypeNode::Service(oms), TypeNode::Service(nms)) => members(
                g,
                gm,
                Members::Methods,
                oms@,
                nms@,
                path,
                f,
                0,
            ),
            (TypeNode::Func(oa, orr, om), TypeNode::Func(na, nr, nm)) => if om != nm {
                one(path, Reason::ModeMismatch)
            } else {
                join(
                    positions(g, gm, true, na@, oa@, path, f, 0),
                    positions(g, gm, false, orr@, nr@, path, f, 0),
                )
            },
            _ => one(path, Reason::KindMismatch),
        }
    }
}

/// Members `drive[i..]` looked up by label in `other`. For `Tags` the driving
/// list is the new one, otherwise the old one.
pub open spec fn members(
    g: Seq<TypeNode>,
    gamma: Seq<(usize, usize)>,
    k: Members,
    drive: Seq<Field>,
    other: Seq<Field>,
    path: Seq<Step>,
    fuel: nat,
    i: int,
) -> Report
    decreases fuel, drive.len() - i + 1,
{
    if i < 0 || i >= drive.len() {
        ok_report()
    } else {
        let d = drive[i];
        let p = path.push(member_step(k, d.label));
        let here = match label_index(other, d.label, 0) {
            Some(j) => if k == Members::Tags {
                check(g, gamma, d.ty, other[j].ty, p, fuel)
            } else {
                check(g, gamma, other[j].ty, d.ty, p, fuel)
            },
            None => if k == Members::Fields && admits_absence(g, d.ty as int) {
                ok_report()
            } else {
                one(p, member_absent(k))
            },
        };
        join(here, members(g, gamma, k, drive, other, path, fuel, i + 1))
    }
}

/// Positions `drive[i..]` paired with `other` by position. For arguments the
/// driving list is the new one and the old argument stands in subtype
/// position; for results it is the old one and the new result does.
pub open spec fn positions(
    g: Seq<TypeNode>,
    gamma: Seq<(usize, usize)>,
    args: bool,
    drive: Seq<usize>,
    other: Seq<usize>,
    path: Seq<Step>,
    fuel: nat,
    i: int,
) -> Report
    decreases fuel, drive.len() - i + 1,
{
    if i < 0 || i >= drive.len() {
        ok_report()
    } else {
        let p = path.push(if args { Step::Arg(i as usize) } else { Step::Ret(i as usize) });
        let here = if i < other.len() {
            check(g, gamma, other[i], drive[i], p, fuel)
        } else if admits_absence(g, drive[i] as int) {
            ok_report()
        } else {
            one(p, if args { Reason::ArgNotContravariant } else { Reason::ResultNotCovariant })
        };
        join(here, positions(g, gamma, args, drive, other, path, fuel, i + 1))
    }
}

proof fn lemma_view_all_concat(a: Seq<Mismatch>, b: Seq<Mismatch>)
    ensures
        view_all(a + b) == view_all(a) + view_all(b),
{
    assert(view_all(a + b) =~= view_all(a) + view_all(b));
}

proof fn lemma_join_assoc(a: Seq<(Seq<Step>, Reason)>, h: Report, rest: Report)
    ensures
        join(Some(a), join(h, rest)) == join(join(Some(a), h), rest),
{
    match (h, rest) {
        (Some(x), Some(y)) => {
            assert(a + (x + y) =~= (a + x) + y);
        },
        _ => {},
    }
}

fn path_with(path: &Vec<Step>, st: Step) -> (r: Vec<Step>)
    ensures
        r@ == path@.push(st),
{
    let mut r: Vec<Step> = Vec::new();
    let mut i: usize = 0;
    while i < path.len()
        invariant
            i <= path@.len(),
            r@ == path@.subrange(0, i as int),
        decreases path@.len() - i,
    {
        r.push(path[i]);
        i = i + 1;
        assert(r@ =~= path@.subrange(0, i as int));
    }
    assert(r@ =~= path@);
    r.push(st);
    r
}

fn single(path: Vec<Step>, reason: Reason) -> (r: Option<Vec<Mismatch>>)
    ensures
        report_of(r) == one(path@, reason),
{
    let mut v: Vec<Mismatch> = Vec::new();
    v.push(Mismatch { path, reason });
    assert(view_all(v@) =~= seq![(path@, reason)]);
    Some(v)
}

fn find_label(fs: &Vec<Field>, l: u32) -> (r: Option<usize>)
    ensures
        match r {
            Some(j) => label_index(fs@, l, 0) == Some(j as int) && j < fs@.len(),
            None => label_index(fs@, l, 0) == None::<int>,
        },
{
    let mut i: usize = 0;
    while i < fs.len()
        invariant
            i <= fs@.len(),
            label_index(fs@, l, 0) == label_index(fs@, l, i as int),
        decreases fs@.len() - i,
    {
        if fs[i].label == l {
            return Some(i);
        }
        i = i + 1;
    }
    None
}

fn in_gamma(gamma: &Vec<(usize, usize)>, t: usize, s: usize) -> (r: bool)
    ensures
        r == gamma@.contains((t, s)),
{
    let mut i: usize = 0;
    while i < gamma.len()
        invariant
            i <= gamma@.len(),
            forall|k: int| 0 <= k < i ==> gamma@[k] != (t, s),
        decreases gamma@.len() - i,
    {
        let (a, b) = gamma[i];
        if a == t && b == s {
            assert(gamma@[i as int] == (t, s));
            return true;
        }
        i = i + 1;
    }
    false
}

fn absent_ok(g: &Vec<TypeNode>, i: usize) -> (r: bool)
    requires
        graph_wf(g@),
        i < g@.len(),
    ensures
        r == admits_absence(g@, i as int),
{
    let n = g.len();
    let mut cur: usize = i;
    let mut k: usize = 0;
    while k < n
        invariant
            graph_wf(g@),
            n == g@.len(),
            k <= n,
            cur < n,
            ref_walk(g@, i as int, n as nat) == ref_walk(g@, cur as int, (n - k) as nat),
        decreases n - k,
    {
        assert(crate::types::children_in(g@[cur as int], n as nat));
        match &g[cur] {
            TypeNode::Ref(j) => {
                cur = *j;
            },
            _ => {
                k = n;
            },
        }
        if k < n {
            k = k + 1;
        }
    }
    match &g[cur] {
        TypeNode::Opt(_) | TypeNode::Null | TypeNode::Reserved => true,
        _ => false,
    }
}

/// Appends the mismatches of `here` to `acc`; `None` where `here` is `None`.
fn join_into(acc: Vec<Mismatch>, here: Option<Vec<Mismatch>>) -> (r: Option<Vec<Mismatch>>)
    ensures
        report_of(r) == join(Some(view_all(acc@)), report_of(here)),
{
    match here {
        Some(mut h) => {
            let mut acc = acc;
            proof {
                lemma_view_all_concat(acc@, h@);
            }
            acc.append(&mut h);
            Some(acc)
        },
        None => None,
    }
}

fn copy_path(path: &Vec<Step>) -> (r: Vec<Step>)
    ensures
        r@ == path@,
{
    let mut r: Vec<Step> = Vec::new();
    let mut i: usize = 0;
    while i < path.len()
        invariant
            i <= path@.len(),
            r@ == path@.subrange(0, i as int),
        decreases path@.len() - i,
    {
        r.push(path[i]);
        i = i + 1;
        assert(r@ =~= path@.subrange(0, i as int));
    }
    assert(r@ =~= path@);
    r
}

fn check_pair(
    g: &Vec<TypeNode>,
    gamma: &mut Vec<(usize, usize)>,
    t: usize,
    s: usize,
    path: &Vec<Step>,
    fuel: u128,
) -> (r: Option<Vec<Mismatch>>)
    requires
        graph_wf(g@),
        t < g@.len(),
        s < g@.len(),
    ensures
        final(gamma)@ == old(gamma)@,
        report_of(r) == check(g@, old(gamma)@, t, s, path@, fuel as nat),
    decreases fuel, 0int,
{
    proof {
        assert(view_all(Seq::<Mismatch>::empty()) =~= Seq::empty());
    }
    if t == s || in_gamma(gamma, t, s) {
        return Some(Vec::new());
    }
    if fuel == 0 {
        return None;
    }
    proof {
        assert(crate::types::children_in(g@[s as int], g@.len()));
        assert(crate::types::children_in(g@[t as int], g@.len()));
    }
    let ghost g0 = gamma@;
    gamma.push((t, s));
    let f = fuel - 1;
    let r = match (&g[s], &g[t]) {
        (TypeNode::Reserved, _) => Some(Vec::new()),
        (_, TypeNode::Empty) => Some(Vec::new()),
        (_, TypeNode::Ref(j)) => check_pair(g, gamma, *j, s, path, f),
        (TypeNode::Ref(j), _) => check_pair(g, gamma, t, *j, path, f),
        (TypeNode::Prim(a), TypeNode::Prim(b)) => if *a == *b {
            Some(Vec::new())
        } else {
            single(copy_path(path), Reason::KindMismatch)
        },
        (TypeNode::Null, TypeNode::Null) => Some(Vec::new()),
        (TypeNode::Opt(_), TypeNode::Null) => Some(Vec::new()),
        (TypeNode::Opt(a), TypeNode::Opt(b)) => {
            let p = path_with(path, Step::Elem);
            check_pair(g, gamma, *b, *a, &p, f)
        },
        (TypeNode::Vector(a), TypeNode::Vector(b)) => {
            let p = path_with(path, Step::Elem);
            check_pair(g, gamma, *b, *a, &p, f)
        },
        (TypeNode::Record(ofs), TypeNode::Record(nfs)) => check_members(
            g,
            gamma,
            Members::Fields,
            ofs,
            nfs,
            path,
            f,
        ),
        (TypeNode::Variant(ofs), TypeNode::Variant(nfs)) => check_members(
            g,
            gamma,
            Members::Tags,
            nfs,
            ofs,
            path,
            f,
        ),
        (TypeNode::Service(oms), TypeNode::Service(nms)) => check_members(
            g,
            gamma,
            Members::Methods,
            oms,
            nms,
            path,
            f,
        ),
        (TypeNode::Func(oa, orr, om), TypeNode::Func(na, nr, nm)) => if *om != *nm {
            single(copy_path(path), Reason::ModeMismatch)
        } else {
            let a = check_positions(g, gamma, true, na, oa, path, f);
            match a {
                None => None,
                Some(av) => {
                    let b = check_positions(g, gamma, false, orr, nr, path, f);
                    join_into(av, b)
                },
            }
        },
        _ => single(copy_path(path), Reason::KindMismatch),
    };
    gamma.pop();
    proof {
        assert(gamma@ =~= g0);
    }
    r
}

fn check_members(
    g: &Vec<TypeNode>,
    gamma: &mut Vec<(usize, usize)>,
    k: Members,
    drive: &Vec<Field>,
    other: &Vec<Field>,
    path: &Vec<Step>,
    fuel: u128,
) -> (r: Option<Vec<Mismatch>>)
    requires
        graph_wf(g@),
        forall|i: int| 0 <= i < drive@.len() ==> drive@[i].ty < g@.len(),
        forall|i: int| 0 <= i < other@.len() ==> other@[i].ty < g@.len(),
    ensures
        final(gamma)@ == old(gamma)@,
        report_of(r) == members(g@, old(gamma)@, k, drive@, other@, path@, fuel as nat, 0),
    decreases fuel, 1int,
{
    let mut acc: Vec<Mismatch> = Vec::new();
    let mut i: usize = 0;
    proof {
        assert(view_all(acc@) =~= Seq::empty());
        assert(Seq::<(Seq<Step>, Reason)>::empty() + Seq::empty() =~= Seq::empty());
    }
    while i < drive.len()
        invariant
            graph_wf(g@),
            forall|i: int| 0 <= i < drive@.len() ==> drive@[i].ty < g@.len(),
            forall|i: int| 0 <= i < other@.len() ==> other@[i].ty < g@.len(),
            i <= drive@.len(),
            gamma@ == old(gamma)@,
            members(g@, old(gamma)@, k, drive@, other@, path@, fuel as nat, 0) == join(
                Some(view_all(acc@)),
                members(g@, old(gamma)@, k, drive@, other@, path@, fuel as nat, i as int),
            ),
        decreases drive@.len() - i,
    {
        let d = drive[i];
        let st = if k == Members::Methods {
            Step::Method(d.label)
        } else {
            Step::Field(d.label)
        };
        let p = path_with(path, st);
        let here = match find_label(other, d.label) {
            Some(j) => if k == Members::Tags {
                check_pair(g, gamma, d.ty, other[j].ty, &p, fuel)
            } else {
                check_pair(g, gamma, other[j].ty, d.ty, &p, fuel)
            },
            None => if k == Members::Fields && absent_ok(g, d.ty) {
                Some(Vec::new())
            } else {
                let reason = match k {
                    Members::Fields => Reason::MissingField,
                    Members::Tags => Reason::TagNotInOldSet,
                    Members::Methods => Reason::MethodMissing,
                };
                single(p, reason)
            },
        };
        proof {
            assert(view_all(Seq::<Mismatch>::empty()) =~= Seq::empty());
            lemma_join_assoc(
                view_all(acc@),
                report_of(here),
                members(g@, old(gamma)@, k, drive@, other@, path@, fuel as nat, i + 1),
            );
        }
        match join_into(acc, here) {
            None => {
                return None;
            },
            Some(v) => {
                acc = v;
            },
        }
        i = i + 1;
    }
    proof {
        assert(view_all(acc@) + Seq::empty() =~= view_all(acc@));
    }
    Some(acc)
}

fn check_positions(
    g: &Vec<TypeNode>,
    gamma: &mut Vec<(usize, usize)>,
    args: bool,
    drive: &Vec<usize>,
    other: &Vec<usize>,
    path: &Vec<Step>,
    fuel: u128,
) -> (r: Option<Vec<Mismatch>>)
    requires
        graph_wf(g@),
        forall|i: int| 0 <= i < drive@.len() ==> drive@[i] < g@.len(),
        forall|i: int| 0 <= i < other@.len() ==> other@[i] < g@.len(),
    ensures
        final(gamma)@ == old(gamma)@,
        report_of(r) == positions(g@, old(gamma)@, args, drive@, other@, path@, fuel as nat, 0),
    decreases fuel, 1int,
{
    let mut acc: Vec<Mismatch> = Vec::new();
    let mut i: usize = 0;
    proof {
        assert(view_all(acc@) =~= Seq::empty());
        assert(Seq::<(Seq<Step>, Reason)>::empty() + Seq::empty() =~= Seq::empty());
    }
    while i < drive.len()
        invariant
            graph_wf(g@),
            forall|i: int| 0 <= i < drive@.len() ==> drive@[i] < g@.len(),
            forall|i: int| 0 <= i < other@.len() ==> other@[i] < g@.len(),
            i <= drive@.len(),
            gamma@ == old(gamma)@,
            positions(g@, old(gamma)@, args, drive@, other@, path@, fuel as nat, 0) == join(
                Some(view_all(acc@)),
                positions(g@, old(gamma)@, args, drive@, other@, path@, fuel as nat, i as int),
            ),
        decreases drive@.len() - i,
    {
        let st = if args {
            Step::Arg(i)
        } else {
            Step::Ret(i)
        };
        let p = path_with(path, st);
        let here = if i < other.len() {
            check_pair(g, gamma, other[i], drive[i], &p, fuel)
        } else if absent_ok(g, drive[i]) {
            Some(Vec::new())
        } else {
            let reason = if args {
                Reason::ArgNotContravariant
            } else {
                Reason::ResultNotCovariant
            };
            single(p, reason)
        };
        proof {
            assert(view_all(Seq::<Mismatch>::empty()) =~= Seq::empty());
            lemma_join_assoc(
                view_all(acc@),
                report_of(here),
                positions(g@, old(gamma)@, args, drive@, other@, path@, fuel as nat, i + 1),
            );
        }
        match join_into(acc, here) {
            None => {
                return None;
            },
            Some(v) => {
                acc = v;
            },
        }
        i = i + 1;
    }
    proof {
        assert(view_all(acc@) + Seq::empty() =~= view_all(acc@));
    }
    Some(acc)
}

/// The work budget of a check over an arena of `n` nodes: one step per
/// ordered pair of nodes, and one more.
pub open spec fn budget(n: nat) -> nat {
    n * n + 1
}

/// The outcome of comparing `new` (subtype position) with `old` (supertype
/// position) within one arena.
pub open spec fn compat(g: Seq<TypeNode>, new: usize, old: usize) -> Report {
    check(g, Seq::empty(), new, old, Seq::empty(), budget(g.len()))
}

impl TypeGraph {
    /// Decides whether the type at `new` is a safe replacement for the type
    /// at `old`: every caller written against `old` keeps working against
    /// `new`. On failure every mismatch found is returned with its path, in
    /// the order of the traversal.
    pub fn is_compatible(&self, new: usize, old: usize) -> (r: Result<(), Vec<Mismatch>>)
        requires
            self.wf(),
            new < self.nodes@.len(),
            old < self.nodes@.len(),
        ensures
            r is Ok <==> compat(self.nodes@, new, old) == ok_report(),
            r matches Err(v) ==> compat(self.nodes@, new, old) == Some(view_all(v@)) && v@.len()
                > 0,
    {
        let n = self.nodes.len();
        proof {
            assert(n * n <= 0xffff_ffff_ffff_ffff * 0xffff_ffff_ffff_ffff) by (nonlinear_arith)
                requires
                    n <= 0xffff_ffff_ffff_ffff,
            ;
            lemma_budget_suffices(self.nodes@, new, old);
        }
        let fuel: u128 = (n as u128) * (n as u128) + 1;
        let mut gamma: Vec<(usize, usize)> = Vec::new();
        let path: Vec<Step> = Vec::new();
        proof {
            assert(gamma@ =~= Seq::empty());
            assert(path@ =~= Seq::empty());
        }
        let found = check_pair(&self.nodes, &mut gamma, new, old, &path, fuel);
        let v = match found {
            Some(v) => v,
            None => {
                proof {
                    assert(false);
                }
                Vec::new()
            },
        };
        if v.len() == 0 {
            proof {
                assert(view_all(v@) =~= Seq::empty());
            }
            Ok(())
        } else {
            proof {
                assert(view_all(v@).len() == v@.len());
            }
            Err(v)
        }
    }
}

/// `m` is `a` followed by `b` renumbered past the end of `a`.
pub open spec fn merged_of(a: Seq<TypeNode>, b: Seq<TypeNode>, m: Seq<TypeNode>) -> bool {
    &&& m.len() == a.len() + b.len()
    &&& forall|i: int| 0 <= i < a.len() ==> shifted(a[i], #[trigger] m[i], 0)
    &&& forall|i: int| 0 <= i < b.len() ==> shifted(b[i], #[trigger] m[a.len() + i], a.len() as int)
}

impl TypeEnvironment {
    /// Decides whether the service of `new` can replace the service of
    /// `old`. The two graphs are first merged into one arena, `old`
    /// renumbered after `new`; the actors are then compared there.
    pub fn is_compatible(new: &TypeEnvironment, old: &TypeEnvironment) -> (r: Result<
        (),
        Vec<Mismatch>,
    >)
        requires
            new.wf(),
            old.wf(),
            new.actor is Some,
            old.actor is Some,
            new.graph.nodes@.len() + old.graph.nodes@.len() <= usize::MAX,
        ensures
            exists|m: Seq<TypeNode>|
                {
                    &&& merged_of(new.graph.nodes@, old.graph.nodes@, m)
                    &&& graph_wf(m)
                    &&& m.len() <= usize::MAX
                    &&& {
                        let c = compat(
                            m,
                            new.actor.unwrap(),
                            (new.graph.nodes@.len() + old.actor.unwrap()) as usize,
                        );
                        &&& (r is Ok <==> c == ok_report())
                        &&& (r matches Err(v) ==> c == Some(view_all(v@)) && v@.len() > 0)
                    }
                },
            new.graph.nodes@ == old.graph.nodes@ && new.actor == old.actor ==> r is Ok,
    {
        let merged = new.graph.merge(&old.graph);
        let na = match new.actor {
            Some(a) => a,
            None => 0,
        };
        let oa = match old.actor {
            Some(a) => a,
            None => 0,
        };
        let n1 = new.graph.nodes.len();
        let r = merged.is_compatible(na, n1 + oa);
        proof {
            let m = merged.nodes@;
            assert(merged_of(new.graph.nodes@, old.graph.nodes@, m));
            if new.graph.nodes@ == old.graph.nodes@ && new.actor == old.actor {
                lemma_reflexive_copy(new.graph.nodes@, m, na);
            }
        }
        r
    }
}

} // verus!
